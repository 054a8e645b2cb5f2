//! The request envelope: the one message schema defined on top of the
//! framing.
//!
//! An envelope encodes as a fixed 7-element ordered array — version,
//! message type, database, request type, request path, parameters, meta —
//! handed to the external structured-value encoder; receivers decode the
//! fields by position, so no other order is valid.

use vstd::prelude::*;
use std::collections::HashMap;
use crate::vpack::vpack_encode;
use crate::VstError;

verus! {

broadcast use vstd::string::group_string_axioms;

/// The HTTP-like verb of a request.  The reserved verbs between these
/// carry the codes 4 and 6 and are intentionally unused.
#[derive(Copy, Clone, Debug)]
pub enum RequestType {
    Delete,
    Get,
    Post,
    Put,
    Patch,
}

impl RequestType {
    /// The wire discriminant of the verb.
    pub open spec fn spec_code(self) -> i32 {
        match self {
            RequestType::Delete => 0,
            RequestType::Get => 1,
            RequestType::Post => 2,
            RequestType::Put => 3,
            RequestType::Patch => 5,
        }
    }

    /// The wire discriminant of the verb.
    pub fn code(self) -> (r: i32)
        ensures
            r == self.spec_code(),
    {
        match self {
            RequestType::Delete => 0,
            RequestType::Get => 1,
            RequestType::Post => 2,
            RequestType::Put => 3,
            RequestType::Patch => 5,
        }
    }
}

/// The kind of a message travelling over the connection.
#[derive(Copy, Clone, Debug)]
pub enum MessageType {
    Request,
    /// The last response for its message identifier.
    FinalResponse,
    /// A response for its message identifier after which more will follow.
    Response,
    Authentication,
}

impl MessageType {
    /// The wire discriminant of the kind.
    pub open spec fn spec_code(self) -> i32 {
        match self {
            MessageType::Request => 1,
            MessageType::FinalResponse => 2,
            MessageType::Response => 3,
            MessageType::Authentication => 1000,
        }
    }

    /// The wire discriminant of the kind.
    pub fn code(self) -> (r: i32)
        ensures
            r == self.spec_code(),
    {
        match self {
            MessageType::Request => 1,
            MessageType::FinalResponse => 2,
            MessageType::Response => 3,
            MessageType::Authentication => 1000,
        }
    }
}

/// One typed field of the encoded envelope array.
pub enum EnvelopeValue {
    U32(u32),
    I32(i32),
    Str(String),
    StrMap(HashMap<String, String>),
}

/// A logical request: the envelope a caller fills in and encodes into the
/// payload of one logical message.
pub struct RequestMessage {
    pub version: u32,
    pub message_type: MessageType,
    pub database: String,
    pub request_type: RequestType,
    pub request_path: String,
    pub parameters: HashMap<String, String>,
    pub meta: HashMap<String, String>,
}

impl RequestMessage {
    /// The fixed-position value array of the envelope, in the only valid
    /// order: version, message type, database, request type, request path,
    /// parameters, meta.
    pub fn to_value_array(&self) -> (r: Vec<EnvelopeValue>)
        ensures
            r@.len() == 7,
            r@[0] == EnvelopeValue::U32(self.version),
            r@[1] == EnvelopeValue::I32(self.message_type.spec_code()),
            r@[2] matches EnvelopeValue::Str(s) && s@ == self.database@,
            r@[3] == EnvelopeValue::I32(self.request_type.spec_code()),
            r@[4] matches EnvelopeValue::Str(s) && s@ == self.request_path@,
            r@[5] matches EnvelopeValue::StrMap(m) && m@ == self.parameters@,
            r@[6] matches EnvelopeValue::StrMap(m) && m@ == self.meta@,
    {
        let mut arr: Vec<EnvelopeValue> = Vec::new();
        arr.push(EnvelopeValue::U32(self.version));
        arr.push(EnvelopeValue::I32(self.message_type.code()));
        arr.push(EnvelopeValue::Str(self.database.clone()));
        arr.push(EnvelopeValue::I32(self.request_type.code()));
        arr.push(EnvelopeValue::Str(self.request_path.clone()));
        arr.push(EnvelopeValue::StrMap(self.parameters.clone()));
        arr.push(EnvelopeValue::StrMap(self.meta.clone()));
        arr
    }

    /// Encodes the envelope: builds the fixed value array and hands it to
    /// the external structured-value encoder, whose byte format this layer
    /// treats as opaque.
    pub fn to_bytes(&self) -> (r: Result<Vec<u8>, VstError>)
        ensures
            r is Err ==> r->Err_0 == VstError::Serialization,
    {
        let values = self.to_value_array();
        match vpack_encode(&values) {
            Ok(bytes) => Ok(bytes),
            Err(_) => Err(VstError::Serialization),
        }
    }
}

impl Default for RequestMessage {
    /// The default envelope: an echo request against the system database.
    fn default() -> (r: Self)
        ensures
            r.version == 1,
            r.message_type is Request,
            r.database@ == "_system"@,
            r.request_type is Get,
            r.request_path@ == "/_admin/echo"@,
            r.parameters@ == Map::<String, String>::empty(),
            r.meta@ == Map::<String, String>::empty(),
    {
        RequestMessage {
            version: 1,
            message_type: MessageType::Request,
            database: "_system".to_string(),
            request_type: RequestType::Get,
            request_path: "/_admin/echo".to_string(),
            parameters: HashMap::new(),
            meta: HashMap::new(),
        }
    }
}

} // verus!
