//! Order independence of reassembly.
//!
//! The central law of the framing layer: splitting a message and feeding
//! the resulting chunks to a reassembler in any order rebuilds exactly the
//! original payload, the delivery happening on the last chunk.

use vstd::prelude::*;
use vstd::set_lib::{lemma_int_range, lemma_len_subset, set_int_range};
use crate::chunk::Chunk;
use crate::descriptor::{
    lemma_descriptor_round_trip, spec_descriptor_index, spec_descriptor_is_first,
    spec_descriptor_number, MAX_CHUNK_COUNT,
};
use crate::reassembler::{
    accept_step, all_slots_present, has_slot_above, spec_concat_slots, EntryModel, StepResult,
};
use crate::splitter::{
    is_split_chunk, lemma_concat_pieces_all, spec_concat_pieces, spec_piece, spec_total_chunks,
};

verus! {

broadcast use vstd::map::group_map_axioms, vstd::set::group_set_axioms;

/// The table and the latest outcome after feeding the chunks named by the
/// first `p` entries of `order` into an initial table, one by one.
pub open spec fn run_steps(
    st0: Map<u64, EntryModel>,
    chunks: Seq<Chunk>,
    order: Seq<int>,
    p: int,
) -> (Map<u64, EntryModel>, StepResult)
    decreases p,
{
    if p <= 0 {
        (st0, StepResult::Pending)
    } else {
        accept_step(run_steps(st0, chunks, order, p - 1).0, chunks[order[p - 1]])
    }
}

/// Whether the chunk at 0-based split position `j - 1` is among the first
/// `p` fed, so that reassembly index `j` is filled.
spec fn slot_seen(order: Seq<int>, p: int, j: u32) -> bool {
    exists|i: int| 0 <= i < p && #[trigger] order[i] + 1 == j as int
}

/// The slot table after the first `p` chunks of the order: index `j` holds
/// the piece at split position `j - 1` exactly when that chunk was fed.
spec fn expected_slots(data: Seq<u8>, m: int, order: Seq<int>, p: int) -> Map<u32, Seq<u8>> {
    Map::new(|j: u32| slot_seen(order, p, j), |j: u32| spec_piece(data, m, j as int - 1))
}

/// The whole accumulator after the first `p` chunks: the count is known
/// exactly when the first chunk (split position 0) was fed.
spec fn expected_entry(data: Seq<u8>, m: int, order: Seq<int>, p: int) -> EntryModel {
    EntryModel {
        total: if slot_seen(order, p, 1) {
            Some(spec_total_chunks(data.len() as int, m) as u32)
        } else {
            None
        },
        message_length: data.len() as u64,
        slots: expected_slots(data, m, order, p),
    }
}

/// The preconditions of the law: a valid split of `data` into `chunks`, an
/// `order` that is a permutation of the chunk positions, and a table not
/// yet holding the message identifier.
pub open spec fn order_run_wf(
    st0: Map<u64, EntryModel>,
    id: u64,
    data: Seq<u8>,
    m: int,
    chunks: Seq<Chunk>,
    order: Seq<int>,
) -> bool {
    &&& id != 0
    &&& m > 0
    &&& data.len() <= u64::MAX
    &&& spec_total_chunks(data.len() as int, m) <= MAX_CHUNK_COUNT
    &&& !st0.contains_key(id)
    &&& chunks.len() == spec_total_chunks(data.len() as int, m)
    &&& (forall|k: int|
        0 <= k < chunks.len() ==> is_split_chunk(#[trigger] chunks[k], id, data, m, k))
    &&& order.len() == chunks.len()
    &&& (forall|i: int| 0 <= i < order.len() ==> 0 <= #[trigger] order[i] < chunks.len())
    &&& (forall|i: int, j: int|
        #![trigger order[i], order[j]]
        0 <= i < j < order.len() ==> order[i] != order[j])
}

/// Whether split position `k` is among the first `p` entries of the order.
spec fn position_seen(order: Seq<int>, p: int, k: int) -> bool {
    exists|i: int| 0 <= i < p && #[trigger] order[i] == k
}

/// If every split position were seen among the first `p` fed chunks, there
/// would be at least `total` of them.
proof fn lemma_coverage_needs_total(order: Seq<int>, total: int, p: int)
    requires
        0 <= p <= order.len(),
        order.len() == total,
        forall|i: int| 0 <= i < order.len() ==> 0 <= #[trigger] order[i] < total,
        forall|i: int, j: int|
            #![trigger order[i], order[j]]
            0 <= i < j < order.len() ==> order[i] != order[j],
        forall|k: int| 0 <= k < total ==> #[trigger] position_seen(order, p, k),
    ensures
        p >= total,
{
    let s = order.take(p);
    assert(s.no_duplicates()) by {
        assert forall|i: int, j: int| 0 <= i < s.len() && 0 <= j < s.len() && i != j implies s[i]
            != s[j] by {
            if i < j {
                assert(order[i] != order[j]);
            } else {
                assert(order[j] != order[i]);
            }
        }
    }
    s.unique_seq_to_set();
    let t = set_int_range(0, total);
    lemma_int_range(0, total);
    assert(t.subset_of(s.to_set())) by {
        assert forall|k: int| t.contains(k) implies s.to_set().contains(k) by {
            assert(position_seen(order, p, k));
            let i = choose|i: int| 0 <= i < p && #[trigger] order[i] == k;
            assert(s[i] == k);
            assert(s.contains(k));
        }
    }
    lemma_len_subset(t, s.to_set());
}

/// An order covering all of a message's chunks names every split position.
proof fn lemma_full_order_covers(order: Seq<int>, total: int, k: int)
    requires
        order.len() == total,
        forall|i: int| 0 <= i < order.len() ==> 0 <= #[trigger] order[i] < total,
        forall|i: int, j: int|
            #![trigger order[i], order[j]]
            0 <= i < j < order.len() ==> order[i] != order[j],
        0 <= k < total,
    ensures
        position_seen(order, total, k),
{
    if !position_seen(order, total, k) {
        let s = order.take(total);
        assert(s =~= order);
        assert(s.no_duplicates()) by {
            assert forall|i: int, j: int|
                0 <= i < s.len() && 0 <= j < s.len() && i != j implies s[i] != s[j] by {
                if i < j {
                    assert(order[i] != order[j]);
                } else {
                    assert(order[j] != order[i]);
                }
            }
        }
        s.unique_seq_to_set();
        let t = set_int_range(0, total);
        lemma_int_range(0, total);
        assert(s.to_set().subset_of(t.remove(k))) by {
            assert forall|x: int| s.to_set().contains(x) implies t.remove(k).contains(x) by {
                let i = choose|i: int| 0 <= i < s.len() && s[i] == x;
                assert(order[i] == x);
            }
        }
        lemma_len_subset(s.to_set(), t.remove(k));
        assert(t.remove(k).len() == total - 1);
        assert(false);
    }
}

/// Concatenating slots that hold exactly the split pieces equals
/// concatenating the pieces themselves.
proof fn lemma_concat_slots_matches_pieces(
    data: Seq<u8>,
    m: int,
    slots: Map<u32, Seq<u8>>,
    t: int,
)
    requires
        m > 0,
        0 <= t <= MAX_CHUNK_COUNT,
        forall|j: u32| 1 <= j as int <= t ==> #[trigger] slots.contains_key(j),
        forall|j: u32|
            1 <= j as int <= t ==> #[trigger] slots[j] == spec_piece(data, m, j as int - 1),
    ensures
        spec_concat_slots(slots, t) == spec_concat_pieces(data, m, t),
    decreases t,
{
    if t > 0 {
        lemma_concat_slots_matches_pieces(data, m, slots, t - 1);
    }
}

/// After any proper prefix of the order the message is still pending, and
/// the table holds exactly the pieces fed so far.
proof fn lemma_run_partial(
    st0: Map<u64, EntryModel>,
    id: u64,
    data: Seq<u8>,
    m: int,
    chunks: Seq<Chunk>,
    order: Seq<int>,
    p: int,
)
    requires
        order_run_wf(st0, id, data, m, chunks, order),
        0 <= p < order.len(),
    ensures
        run_steps(st0, chunks, order, p).0 == if p == 0 {
            st0
        } else {
            st0.insert(id, expected_entry(data, m, order, p))
        },
        p > 0 ==> run_steps(st0, chunks, order, p).1 is Pending,
    decreases p,
{
    let total = spec_total_chunks(data.len() as int, m);
    let total32 = total as u32;
    if p > 0 {
        lemma_run_partial(st0, id, data, m, chunks, order, p - 1);
        let q = p - 1;
        let prev = run_steps(st0, chunks, order, q).0;
        let k = order[q];
        let c = chunks[k];
        assert(is_split_chunk(c, id, data, m, k));
        lemma_descriptor_round_trip(k as u32, total32);
        let first = spec_descriptor_is_first(c.chunk_x);
        let number = spec_descriptor_number(c.chunk_x);
        let index = spec_descriptor_index(c.chunk_x);
        assert(first == (k == 0));
        assert(number == if k == 0 {
            total32
        } else {
            k as u32
        });
        assert(number != 0);
        assert(index == (k + 1) as u32);
        let e = if prev.contains_key(id) {
            prev[id]
        } else {
            EntryModel { total: None, message_length: c.message_length, slots: Map::empty() }
        };
        if q == 0 {
            assert(!prev.contains_key(id));
            assert(e.slots =~= expected_slots(data, m, order, 0));
            assert(e == expected_entry(data, m, order, q));
        } else {
            assert(prev.contains_key(id));
            assert(e == expected_entry(data, m, order, q));
        }
        assert(e.message_length == c.message_length);
        // A conflicting first chunk cannot occur: position 0 is fed once.
        if first && e.total is Some {
            let i = choose|i: int| 0 <= i < q && #[trigger] order[i] + 1 == 1int;
            assert(order[i] == order[q]);
            assert(false);
        }
        let new_total = if first {
            Some(number)
        } else {
            e.total
        };
        assert(new_total is Some ==> new_total->Some_0 == total32);
        // Every stored index and the new one lie within the count.
        assert forall|j: u32| #[trigger] e.slots.contains_key(j) implies 1 <= j <= total32 by {
            let i = choose|i: int| 0 <= i < q && #[trigger] order[i] + 1 == j as int;
            assert(0 <= order[i] < total);
        }
        if new_total is Some {
            assert(!(index > new_total->Some_0));
            assert(!has_slot_above(e.slots, new_total->Some_0));
        }
        // The new index is no duplicate: its position is fed only now.
        if e.slots.contains_key(index) {
            let i = choose|i: int| 0 <= i < q && #[trigger] order[i] + 1 == index as int;
            assert(order[i] == order[q]);
            assert(false);
        }
        let slots = e.slots.insert(index, c.data@);
        assert(slots =~= expected_slots(data, m, order, p)) by {
            assert forall|j: u32| #[trigger] slot_seen(order, p, j) implies slots.contains_key(j)
                && slots[j] == spec_piece(data, m, j as int - 1) by {
                let i = choose|i: int| 0 <= i < p && #[trigger] order[i] + 1 == j as int;
                if i < q {
                    assert(slot_seen(order, q, j));
                    assert(e.slots.contains_key(j));
                } else {
                    assert(j == index);
                }
            }
            assert forall|j: u32| #[trigger] slots.contains_key(j) implies slot_seen(
                order,
                p,
                j,
            ) by {
                if e.slots.contains_key(j) {
                    let i = choose|i: int| 0 <= i < q && #[trigger] order[i] + 1 == j as int;
                    assert(slot_seen(order, p, j));
                } else {
                    assert(j == index);
                    assert(order[q] + 1 == j as int);
                }
            }
        }
        // Completion is impossible: fewer than `total` positions are fed.
        if new_total is Some && all_slots_present(slots, total32) {
            assert forall|k2: int| 0 <= k2 < total implies #[trigger] position_seen(
                order,
                p,
                k2,
            ) by {
                assert(slots.contains_key((k2 + 1) as u32));
                assert(slot_seen(order, p, (k2 + 1) as u32));
                let i = choose|i: int|
                    0 <= i < p && #[trigger] order[i] + 1 == ((k2 + 1) as u32) as int;
                assert(order[i] == k2);
            }
            lemma_coverage_needs_total(order, total, p);
            assert(false);
        }
        assert(expected_entry(data, m, order, p).total == new_total) by {
            if slot_seen(order, p, 1) {
                let i = choose|i: int| 0 <= i < p && #[trigger] order[i] + 1 == 1int;
                if i < q {
                    assert(slot_seen(order, q, 1));
                } else {
                    assert(k == 0);
                }
            } else {
                assert(!slot_seen(order, q, 1));
                assert(k != 0) by {
                    if k == 0 {
                        assert(order[q] + 1 == 1int);
                        assert(slot_seen(order, p, 1));
                    }
                }
            }
        }
        assert(run_steps(st0, chunks, order, p).0 =~= st0.insert(
            id,
            expected_entry(data, m, order, p),
        ));
    }
}

/// Reassembly is order independent: feeding the chunks of
/// `split(id, data, m)` into a table that does not yet know `id`, in any
/// permuted order, leaves the message pending until the last chunk, which
/// delivers exactly the original payload.
pub proof fn lemma_split_reassembles_any_order(
    st0: Map<u64, EntryModel>,
    id: u64,
    data: Seq<u8>,
    m: int,
    chunks: Seq<Chunk>,
    order: Seq<int>,
)
    requires
        order_run_wf(st0, id, data, m, chunks, order),
    ensures
        forall|p: int| 1 <= p < order.len() ==> (#[trigger] run_steps(st0, chunks, order, p)).1
            is Pending,
        run_steps(st0, chunks, order, order.len() as int).1 == StepResult::Delivered(data),
{
    let total = spec_total_chunks(data.len() as int, m);
    let total32 = total as u32;
    assert forall|p: int| 1 <= p < order.len() implies (#[trigger] run_steps(
        st0,
        chunks,
        order,
        p,
    )).1 is Pending by {
        lemma_run_partial(st0, id, data, m, chunks, order, p);
    }
    let q = total - 1;
    lemma_run_partial(st0, id, data, m, chunks, order, q);
    let prev = run_steps(st0, chunks, order, q).0;
    let k = order[q];
    let c = chunks[k];
    assert(is_split_chunk(c, id, data, m, k));
    lemma_descriptor_round_trip(k as u32, total32);
    let first = spec_descriptor_is_first(c.chunk_x);
    let number = spec_descriptor_number(c.chunk_x);
    let index = spec_descriptor_index(c.chunk_x);
    assert(first == (k == 0));
    assert(number != 0);
    assert(index == (k + 1) as u32);
    let e = if prev.contains_key(id) {
        prev[id]
    } else {
        EntryModel { total: None, message_length: c.message_length, slots: Map::empty() }
    };
    if q == 0 {
        assert(!prev.contains_key(id));
        assert(e.slots =~= expected_slots(data, m, order, 0));
        assert(e == expected_entry(data, m, order, q));
    } else {
        assert(e == expected_entry(data, m, order, q));
    }
    assert(e.message_length == c.message_length);
    if first && e.total is Some {
        let i = choose|i: int| 0 <= i < q && #[trigger] order[i] + 1 == 1int;
        assert(order[i] == order[q]);
        assert(false);
    }
    let new_total = if first {
        Some(number)
    } else {
        e.total
    };
    // The count is known once all chunks are in: position 0 was fed.
    lemma_full_order_covers(order, total, 0);
    assert(new_total == Some(total32)) by {
        if !first {
            assert(position_seen(order, total, 0));
            let i = choose|i: int| 0 <= i < total && #[trigger] order[i] == 0int;
            assert(i != q);
            assert(i < q);
            assert(order[i] + 1 == 1int);
            assert(slot_seen(order, q, 1));
        }
    }
    assert forall|j: u32| #[trigger] e.slots.contains_key(j) implies 1 <= j <= total32 by {
        let i = choose|i: int| 0 <= i < q && #[trigger] order[i] + 1 == j as int;
        assert(0 <= order[i] < total);
    }
    assert(!(index > total32));
    assert(!has_slot_above(e.slots, total32));
    if e.slots.contains_key(index) {
        let i = choose|i: int| 0 <= i < q && #[trigger] order[i] + 1 == index as int;
        assert(order[i] == order[q]);
        assert(false);
    }
    let slots = e.slots.insert(index, c.data@);
    // Every reassembly index is now filled, by the fed position it names.
    assert forall|j: u32| 1 <= j <= total32 implies #[trigger] slots.contains_key(j) && slots[j]
        == spec_piece(data, m, j as int - 1) by {
        lemma_full_order_covers(order, total, j as int - 1);
        assert(position_seen(order, total, j as int - 1));
        let i = choose|i: int| 0 <= i < total && #[trigger] order[i] == j as int - 1;
        if i == q {
            assert(j == index);
        } else {
            assert(i < q);
            assert(order[i] + 1 == j as int);
            assert(slot_seen(order, q, j));
            assert(e.slots.contains_key(j));
            assert(e.slots[j] == spec_piece(data, m, j as int - 1));
        }
    }
    assert(all_slots_present(slots, total32));
    assert forall|j: u32| 1 <= j as int <= total implies #[trigger] slots.contains_key(j) by {
        assert(1 <= j <= total32);
    }
    assert forall|j: u32| 1 <= j as int <= total implies #[trigger] slots[j] == spec_piece(
        data,
        m,
        j as int - 1,
    ) by {
        assert(1 <= j <= total32);
        assert(slots.contains_key(j) && slots[j] == spec_piece(data, m, j as int - 1));
    }
    lemma_concat_slots_matches_pieces(data, m, slots, total);
    lemma_concat_pieces_all(data, m);
    assert(spec_concat_slots(slots, total32 as int) == data);
    assert(accept_step(prev, c).1 == StepResult::Delivered(data));
    assert(run_steps(st0, chunks, order, order.len() as int).1 == StepResult::Delivered(data));
}

} // verus!

