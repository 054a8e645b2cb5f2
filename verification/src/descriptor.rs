//! The bit-packed 32-bit chunk descriptor.
//!
//! The low bit marks the first chunk of a message.  In a first chunk the
//! remaining bits carry the total chunk count; in a continuation chunk they
//! carry that chunk's position within the message (positions are counted
//! from 0, so continuation positions are 1 and upward).  A single-chunk
//! message encodes to the fixed value 3: first, with a count of 1.

use vstd::prelude::*;

verus! {

/// Largest chunk count that still leaves the low marker bit free.
pub const MAX_CHUNK_COUNT: u32 = 0x7FFF_FFFF;

/// Descriptor value for the chunk at `chunk_index` (0-based) of a message
/// of `num_chunks` chunks.
pub open spec fn spec_encode_descriptor(chunk_index: u32, num_chunks: u32) -> u32 {
    if num_chunks == 1 {
        3u32
    } else if chunk_index == 0 {
        (num_chunks << 1) | 1
    } else {
        chunk_index << 1
    }
}

/// Whether a descriptor value marks the first chunk of its message.
pub open spec fn spec_descriptor_is_first(x: u32) -> bool {
    x & 1 == 1
}

/// The count-or-position field of a descriptor value: the total chunk count
/// if the chunk is first, its own position otherwise.
pub open spec fn spec_descriptor_number(x: u32) -> u32 {
    x >> 1
}

/// The 1-based reassembly index a descriptor value assigns its chunk.  The
/// first chunk of a message is chunk 1; a continuation chunk carrying
/// number `k` was emitted at 0-based split position `k`, so it is chunk
/// `k + 1`.
pub open spec fn spec_descriptor_index(x: u32) -> u32 {
    if spec_descriptor_is_first(x) {
        1u32
    } else {
        (spec_descriptor_number(x) + 1) as u32
    }
}

/// Encoding then decoding a descriptor recovers the role and the number:
/// the low bit is set exactly for the chunk at index 0, and the carried
/// number is the chunk count for that chunk and the index for every other.
pub proof fn lemma_descriptor_round_trip(chunk_index: u32, num_chunks: u32)
    requires
        1 <= num_chunks <= MAX_CHUNK_COUNT,
        chunk_index < num_chunks,
    ensures
        spec_descriptor_is_first(spec_encode_descriptor(chunk_index, num_chunks)) == (chunk_index
            == 0),
        spec_descriptor_number(spec_encode_descriptor(chunk_index, num_chunks)) == if chunk_index
            == 0 {
            num_chunks
        } else {
            chunk_index
        },
{
    if num_chunks == 1 {
        assert(3u32 & 1 == 1 && 3u32 >> 1 == 1) by (bit_vector);
    } else if chunk_index == 0 {
        let n = num_chunks;
        assert(((n << 1) | 1) & 1 == 1 && ((n << 1) | 1) >> 1 == n) by (bit_vector)
            requires
                n <= 0x7FFF_FFFFu32,
        ;
    } else {
        let i = chunk_index;
        assert((i << 1) & 1 == 0 && (i << 1) >> 1 == i) by (bit_vector)
            requires
                i <= 0x7FFF_FFFFu32,
        ;
    }
}

/// A single-chunk message always decodes as a first chunk with an implicit
/// count of 1, whatever its payload.
pub proof fn lemma_single_chunk_descriptor()
    ensures
        spec_descriptor_is_first(spec_encode_descriptor(0, 1)),
        spec_descriptor_number(spec_encode_descriptor(0, 1)) == 1,
{
    lemma_descriptor_round_trip(0, 1);
}

} // verus!
