//! The chunk codec: one wire unit and its fixed 24-byte header.
//!
//! A chunk serializes as four little-endian header integers — total chunk
//! length, descriptor, message identifier, message length — followed by the
//! payload slice.

use vstd::prelude::*;
use vstd::bytes::{
    spec_u32_from_le_bytes, spec_u32_to_le_bytes, spec_u64_from_le_bytes, spec_u64_to_le_bytes,
    u32_from_le_bytes, u32_to_le_bytes, u64_from_le_bytes, u64_to_le_bytes,
    lemma_auto_spec_u32_to_from_le_bytes, lemma_auto_spec_u64_to_from_le_bytes,
};
use vstd::slice::{slice_subrange, slice_to_vec};
use crate::descriptor::{spec_encode_descriptor, spec_descriptor_is_first, spec_descriptor_number};
use crate::VstError;

verus! {

/// Byte length of the fixed chunk header.
pub const HEADER_LENGTH: u32 = 24;

/// One framed unit of a split logical message.
pub struct Chunk {
    /// Total byte length of this chunk, the 24-byte header included:
    /// always `24 + data.len()`.
    pub length: u32,
    /// The bit-packed descriptor field (see the `descriptor` module).
    pub chunk_x: u32,
    /// Identifier of the logical message this chunk belongs to; 0 is
    /// reserved for "not set" and never names a real message.
    pub message_id: u64,
    /// Total payload byte length of the logical message this chunk is part
    /// of, counting no chunk headers; the same value stands in every chunk
    /// of the message.
    pub message_length: u64,
    /// This chunk's payload slice.
    pub data: Vec<u8>,
}

impl Chunk {
    /// The length field accounts for exactly the header and the payload.
    pub open spec fn wf(&self) -> bool {
        self.length == 24 + self.data@.len()
    }

    /// The serialized form: the four header integers in little-endian byte
    /// order, then the payload.
    pub open spec fn spec_to_bytes(&self) -> Seq<u8> {
        spec_u32_to_le_bytes(self.length) + spec_u32_to_le_bytes(self.chunk_x)
            + spec_u64_to_le_bytes(self.message_id) + spec_u64_to_le_bytes(self.message_length)
            + self.data@
    }

    /// A raw buffer parses as a chunk exactly when it holds a full header
    /// and its declared length matches the bytes available.
    pub open spec fn spec_parses(bytes: Seq<u8>) -> bool {
        bytes.len() >= 24 && spec_u32_from_le_bytes(bytes.subrange(0, 4)) == bytes.len()
    }

    /// The payload slice.
    pub fn data(&self) -> (r: &[u8])
        ensures
            r@ == self.data@,
    {
        self.data.as_slice()
    }

    /// Frames a payload as the single chunk of its own message: length
    /// covers header plus payload, the descriptor marks a first chunk with
    /// a count of 1, and the message length is the payload length.  Rejects
    /// the reserved message identifier 0, and a payload too long for the
    /// 32-bit length field, as caller misuse.
    pub fn from_data(message_id: u64, data: Vec<u8>) -> (r: Result<Self, VstError>)
        ensures
            r is Ok <==> (message_id != 0 && data@.len() + 24 <= u32::MAX),
            r is Err ==> r->Err_0 == VstError::InvalidInput,
            r is Ok ==> {
                let c = r->Ok_0;
                &&& c.wf()
                &&& c.length == 24 + data@.len()
                &&& c.chunk_x == spec_encode_descriptor(0, 1)
                &&& c.message_id == message_id
                &&& c.message_length == data@.len()
                &&& c.data@ == data@
            },
    {
        if message_id == 0 {
            return Err(VstError::InvalidInput);
        }
        if data.len() as u64 > (u32::MAX - HEADER_LENGTH) as u64 {
            return Err(VstError::InvalidInput);
        }
        let length: u32 = HEADER_LENGTH + data.len() as u32;
        Ok(Self {
            length,
            chunk_x: Self::encode_chunk_x(0, 1),
            message_id,
            message_length: data.len() as u64,
            data,
        })
    }

    /// Parses a raw buffer: fails with a framing error on a buffer shorter
    /// than the 24-byte header, or whose declared length field differs from
    /// the buffer length; otherwise recovers the four header fields and the
    /// payload slice.
    pub fn from_bytes(bytes: &[u8]) -> (r: Result<Self, VstError>)
        ensures
            r is Ok <==> Self::spec_parses(bytes@),
            r is Err ==> r->Err_0 == VstError::Framing,
            r is Ok ==> {
                let c = r->Ok_0;
                &&& c.wf()
                &&& c.length == spec_u32_from_le_bytes(bytes@.subrange(0, 4))
                &&& c.length == bytes@.len()
                &&& c.chunk_x == spec_u32_from_le_bytes(bytes@.subrange(4, 8))
                &&& c.message_id == spec_u64_from_le_bytes(bytes@.subrange(8, 16))
                &&& c.message_length == spec_u64_from_le_bytes(bytes@.subrange(16, 24))
                &&& c.data@ == bytes@.skip(24)
            },
    {
        if bytes.len() < 24 {
            return Err(VstError::Framing);
        }
        let length = u32_from_le_bytes(slice_subrange(bytes, 0, 4));
        if length as u64 != bytes.len() as u64 {
            return Err(VstError::Framing);
        }
        let chunk_x = u32_from_le_bytes(slice_subrange(bytes, 4, 8));
        let message_id = u64_from_le_bytes(slice_subrange(bytes, 8, 16));
        let message_length = u64_from_le_bytes(slice_subrange(bytes, 16, 24));
        let data = slice_to_vec(slice_subrange(bytes, 24, bytes.len()));
        Ok(Self { length, chunk_x, message_id, message_length, data })
    }

    /// Serializes the chunk into its wire form.
    pub fn to_bytes(&self) -> (r: Vec<u8>)
        ensures
            r@ == self.spec_to_bytes(),
            r@.len() == 24 + self.data@.len(),
    {
        let mut out = u32_to_le_bytes(self.length);
        let mut part = u32_to_le_bytes(self.chunk_x);
        out.append(&mut part);
        let mut part = u64_to_le_bytes(self.message_id);
        out.append(&mut part);
        let mut part = u64_to_le_bytes(self.message_length);
        out.append(&mut part);
        let mut part = slice_to_vec(self.data.as_slice());
        out.append(&mut part);
        out
    }

    /// The descriptor value for the chunk at `chunk_index` (0-based) of a
    /// message of `num_chunks` chunks.  A count of 0 is invalid, and the
    /// count must leave the low marker bit free.
    pub fn encode_chunk_x(chunk_index: u32, num_chunks: u32) -> (r: u32)
        requires
            1 <= num_chunks <= crate::descriptor::MAX_CHUNK_COUNT,
            chunk_index < num_chunks,
        ensures
            r == spec_encode_descriptor(chunk_index, num_chunks),
    {
        if num_chunks == 1 {
            3
        } else if chunk_index == 0 {
            (num_chunks << 1u32) | 1
        } else {
            chunk_index << 1u32
        }
    }

    /// The 1-based index this chunk occupies in its message: 1 for a first
    /// chunk; a continuation carrying number `k` sits at index `k + 1`.
    pub fn get_chunk_number(&self) -> (r: u32)
        ensures
            r == crate::descriptor::spec_descriptor_index(self.chunk_x),
    {
        if self.is_first_chunk() {
            1
        } else {
            let n = self.get_chunk();
            proof {
                let x = self.chunk_x;
                assert(x >> 1u32 <= 0x7FFF_FFFFu32) by (bit_vector);
            }
            n + 1
        }
    }

    /// The count-or-position field of this chunk's descriptor: the total
    /// chunk count if this is a first chunk, its position otherwise.
    pub fn get_chunk(&self) -> (r: u32)
        ensures
            r == spec_descriptor_number(self.chunk_x),
    {
        self.chunk_x >> 1u32
    }

    /// Whether this chunk opens its message.
    pub fn is_first_chunk(&self) -> (r: bool)
        ensures
            r == spec_descriptor_is_first(self.chunk_x),
    {
        (self.chunk_x & 0x01) == 1
    }
}

/// Serializing a well-formed chunk and parsing the bytes back recovers every
/// header field and the payload unchanged — in particular the data round
/// trips for any header fields and any payload, the empty one included.
pub proof fn lemma_chunk_round_trip(c: Chunk)
    requires
        c.wf(),
    ensures
        Chunk::spec_parses(c.spec_to_bytes()),
        c.spec_to_bytes().len() == c.length,
        spec_u32_from_le_bytes(c.spec_to_bytes().subrange(0, 4)) == c.length,
        spec_u32_from_le_bytes(c.spec_to_bytes().subrange(4, 8)) == c.chunk_x,
        spec_u64_from_le_bytes(c.spec_to_bytes().subrange(8, 16)) == c.message_id,
        spec_u64_from_le_bytes(c.spec_to_bytes().subrange(16, 24)) == c.message_length,
        c.spec_to_bytes().skip(24) == c.data@,
{
    lemma_auto_spec_u32_to_from_le_bytes();
    lemma_auto_spec_u64_to_from_le_bytes();
    let b = c.spec_to_bytes();
    assert(b.subrange(0, 4) =~= spec_u32_to_le_bytes(c.length));
    assert(b.subrange(4, 8) =~= spec_u32_to_le_bytes(c.chunk_x));
    assert(b.subrange(8, 16) =~= spec_u64_to_le_bytes(c.message_id));
    assert(b.subrange(16, 24) =~= spec_u64_to_le_bytes(c.message_length));
    assert(b.skip(24) =~= c.data@);
}

} // verus!
