//! The trusted boundary to the external structured-value encoder.

use vstd::prelude::*;
use crate::envelope::EnvelopeValue;

verus! {

#[verifier::external_type_specification]
#[verifier::external_body]
pub struct ExVelocypackError(velocypack::Error);

/// Relies on velocypack::to_bytes over an erased_serde value array: it
/// serializes the values, in the order given, as one velocypack array.
/// The byte encoding of a string map follows the map's iteration order, so
/// nothing is promised of the bytes here.
#[verifier::external_body]
pub(crate) fn vpack_encode(values: &Vec<EnvelopeValue>) -> (r: Result<
    Vec<u8>,
    velocypack::Error,
>) {
    let mut arr: Vec<Box<dyn erased_serde::Serialize>> = Vec::with_capacity(values.len());
    for v in values {
        arr.push(match v {
            EnvelopeValue::U32(x) => Box::new(*x),
            EnvelopeValue::I32(x) => Box::new(*x),
            EnvelopeValue::Str(s) => Box::new(s.clone()),
            EnvelopeValue::StrMap(m) => Box::new(m.clone()),
        });
    }
    velocypack::to_bytes(&arr)
}

} // verus!
