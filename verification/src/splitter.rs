//! Splitting a logical message into its ordered chunk sequence.
//!
//! A message of `n` bytes travels as `ceil(n / max_chunk_payload)` chunks
//! (at least one, even for an empty message).  The chunk at 0-based
//! position `k` carries the payload slice starting at `k *
//! max_chunk_payload`; every chunk repeats the message identifier and the
//! total payload length.

use vstd::prelude::*;
use vstd::arithmetic::div_mod::lemma_fundamental_div_mod;
use vstd::arithmetic::mul::lemma_mul_inequality;
use vstd::slice::{slice_subrange, slice_to_vec};
use crate::chunk::{Chunk, HEADER_LENGTH};
use crate::descriptor::{spec_encode_descriptor, MAX_CHUNK_COUNT};
use crate::VstError;

verus! {

/// How many chunks a message of `len` payload bytes needs at `m` bytes of
/// payload per chunk: `ceil(len / m)`, and 1 for an empty message.
pub open spec fn spec_total_chunks(len: int, m: int) -> int
    recommends
        m > 0,
{
    if len == 0 {
        1
    } else {
        (len - 1) / m + 1
    }
}

/// The payload slice of the chunk at 0-based position `k`: the bytes from
/// `k * m` up to the next cut or the end of the message.
pub open spec fn spec_piece(data: Seq<u8>, m: int, k: int) -> Seq<u8>
    recommends
        m > 0,
        0 <= k < spec_total_chunks(data.len() as int, m),
{
    data.subrange(k * m, if k * m + m <= data.len() {
        k * m + m
    } else {
        data.len() as int
    })
}

/// What the chunk at 0-based position `k` of `split(id, data, m)` holds.
pub open spec fn is_split_chunk(c: Chunk, id: u64, data: Seq<u8>, m: int, k: int) -> bool {
    let total = spec_total_chunks(data.len() as int, m);
    &&& c.wf()
    &&& c.message_id == id
    &&& c.message_length == data.len()
    &&& c.chunk_x == spec_encode_descriptor(k as u32, total as u32)
    &&& c.data@ == spec_piece(data, m, k)
}

/// Splits a message into the ordered chunk sequence that transmits it.
///
/// Rejects a zero message identifier and a zero chunk size as caller
/// misuse; otherwise returns exactly `ceil(len / max_chunk_payload)`
/// chunks (one for an empty message), the chunk at position `k` framed
/// with descriptor `encode(k, total)` and carrying the `k`-th payload
/// slice, all repeating the message identifier and total payload length.
pub fn split(message_id: u64, message_bytes: &[u8], max_chunk_payload: usize) -> (r: Result<
    Vec<Chunk>,
    VstError,
>)
    requires
        max_chunk_payload > 0 ==> spec_total_chunks(
            message_bytes@.len() as int,
            max_chunk_payload as int,
        ) <= MAX_CHUNK_COUNT,
        max_chunk_payload > 0 ==> (if max_chunk_payload <= message_bytes@.len() {
            max_chunk_payload as int
        } else {
            message_bytes@.len() as int
        }) + 24 <= u32::MAX,
    ensures
        r is Ok <==> (message_id != 0 && max_chunk_payload != 0),
        r is Err ==> r->Err_0 == VstError::InvalidInput,
        r is Ok ==> {
            let chunks = r->Ok_0;
            let total = spec_total_chunks(message_bytes@.len() as int, max_chunk_payload as int);
            &&& chunks@.len() == total
            &&& forall|k: int|
                0 <= k < total ==> is_split_chunk(
                    #[trigger] chunks@[k],
                    message_id,
                    message_bytes@,
                    max_chunk_payload as int,
                    k,
                )
        },
{
    if message_id == 0 || max_chunk_payload == 0 {
        return Err(VstError::InvalidInput);
    }
    let len = message_bytes.len();
    let m = max_chunk_payload;
    let total: usize = if len == 0 {
        1
    } else {
        (len - 1) / m + 1
    };
    let ghost gm = m as int;
    let ghost gtotal = spec_total_chunks(len as int, gm);
    proof {
        assert(total == gtotal);
        if len > 0 {
            lemma_fundamental_div_mod(len as int - 1, gm);
        }
    }
    let total32: u32 = total as u32;
    let mut chunks: Vec<Chunk> = Vec::new();
    let mut k: usize = 0;
    while k < total
        invariant
            m == max_chunk_payload,
            m > 0,
            len == message_bytes@.len(),
            gm == m as int,
            gtotal == spec_total_chunks(len as int, gm),
            total == gtotal,
            total32 == total as u32,
            1 <= total <= MAX_CHUNK_COUNT,
            (if m <= len {
                gm
            } else {
                len as int
            }) + 24 <= u32::MAX,
            message_id != 0,
            0 <= k <= total,
            chunks@.len() == k,
            forall|kk: int|
                0 <= kk < k ==> is_split_chunk(
                    #[trigger] chunks@[kk],
                    message_id,
                    message_bytes@,
                    gm,
                    kk,
                ),
        decreases total - k,
    {
        proof {
            // The slice for position k starts inside the message (or at 0
            // for the single empty chunk): k * m <= (total - 1) * m <= len - 1.
            lemma_mul_inequality(k as int, gtotal - 1, gm);
            if len > 0 {
                lemma_fundamental_div_mod(len as int - 1, gm);
                assert((gtotal - 1) * gm == gm * (gtotal - 1)) by (nonlinear_arith);
                assert(k as int * gm <= len as int - 1);
            } else {
                assert(k == 0);
                assert(k as int * gm == 0);
            }
        }
        let start = k * m;
        let end = if len - start > m {
            start + m
        } else {
            len
        };
        let piece = slice_to_vec(slice_subrange(message_bytes, start, end));
        let chunk_x = Chunk::encode_chunk_x(k as u32, total32);
        let length: u32 = HEADER_LENGTH + (end - start) as u32;
        let chunk = Chunk {
            length,
            chunk_x,
            message_id,
            message_length: len as u64,
            data: piece,
        };
        proof {
            assert(is_split_chunk(chunk, message_id, message_bytes@, gm, k as int));
        }
        chunks.push(chunk);
        k = k + 1;
    }
    Ok(chunks)
}

/// The payload slices of positions `0 .. t`, concatenated in order.
pub open spec fn spec_concat_pieces(data: Seq<u8>, m: int, t: int) -> Seq<u8>
    recommends
        m > 0,
        t >= 0,
    decreases t,
{
    if t <= 0 {
        Seq::empty()
    } else {
        spec_concat_pieces(data, m, t - 1) + spec_piece(data, m, t - 1)
    }
}

/// Concatenating every piece of a split, in position order, rebuilds the
/// message exactly.
pub proof fn lemma_concat_pieces_all(data: Seq<u8>, m: int)
    requires
        m > 0,
    ensures
        spec_concat_pieces(data, m, spec_total_chunks(data.len() as int, m)) == data,
{
    let len = data.len() as int;
    let total = spec_total_chunks(len, m);
    lemma_concat_pieces_prefix(data, m, total);
    if len > 0 {
        // total * m >= len, so the covered prefix is the whole message.
        lemma_fundamental_div_mod(len - 1, m);
        assert((total - 1) * m == m * (total - 1)) by (nonlinear_arith);
        assert(total * m == (total - 1) * m + m) by (nonlinear_arith);
        assert(total * m >= len);
    }
    assert(spec_concat_pieces(data, m, total) =~= data);
}

/// The first `t` pieces together cover exactly the message's first
/// `min(t * m, len)` bytes.
proof fn lemma_concat_pieces_prefix(data: Seq<u8>, m: int, t: int)
    requires
        m > 0,
        0 <= t,
        t <= spec_total_chunks(data.len() as int, m),
    ensures
        spec_concat_pieces(data, m, t) == data.subrange(
            0,
            if t * m <= data.len() {
                t * m
            } else {
                data.len() as int
            },
        ),
    decreases t,
{
    if t == 0 {
        assert(spec_concat_pieces(data, m, 0) =~= data.subrange(0, 0));
    } else {
        let len = data.len() as int;
        let total = spec_total_chunks(len, m);
        lemma_concat_pieces_prefix(data, m, t - 1);
        if len > 0 {
            lemma_fundamental_div_mod(len - 1, m);
            lemma_mul_inequality(t - 1, total - 1, m);
            assert((total - 1) * m == m * (total - 1)) by (nonlinear_arith);
            assert((t - 1) * m <= len - 1);
        } else {
            assert(t == 1);
            assert((t - 1) * m == 0) by (nonlinear_arith)
                requires
                    t == 1,
            ;
        }
        assert(t * m == (t - 1) * m + m) by (nonlinear_arith);
        let a = (t - 1) * m;
        let b = if t * m <= len {
            t * m
        } else {
            len
        };
        assert(spec_piece(data, m, t - 1) == data.subrange(a, b));
        assert(spec_concat_pieces(data, m, t) =~= data.subrange(0, b));
    }
}

} // verus!
