//! Reassembling logical messages from chunks.
//!
//! The reassembler keeps one accumulator per in-flight message identifier.
//! Chunks of different messages may interleave arbitrarily and the chunks
//! of one message may arrive in any index order; a message is delivered
//! once every index from 1 up to the count declared by its first chunk has
//! been seen.  Conflicting or duplicate chunk metadata is a protocol error
//! that discards the partially built message.

use vstd::prelude::*;
use std::collections::HashMap;
use crate::chunk::Chunk;
use crate::descriptor::{
    spec_descriptor_index, spec_descriptor_is_first, spec_descriptor_number, MAX_CHUNK_COUNT,
};
use crate::VstError;

verus! {

broadcast use vstd::std_specs::hash::group_hash_axioms, vstd::map::group_map_axioms;

/// A fully reassembled logical message.
pub struct LogicalMessage {
    /// The identifier all its chunks carried.
    pub message_id: u64,
    /// The declared total payload length; always equals `payload.len()`.
    pub total_length: u64,
    /// The chunk payloads, concatenated in index order.
    pub payload: Vec<u8>,
}

/// One per-message accumulator.
struct Entry {
    /// The expected chunk count, known once a first chunk has arrived.
    total: Option<u32>,
    /// The declared total payload length of the message.
    message_length: u64,
    /// The largest index stored in `slots` (0 while no chunk is stored).
    max_index: u32,
    /// Received payloads, keyed by 1-based chunk index.
    slots: HashMap<u32, Vec<u8>>,
}

/// The mathematical content of one accumulator: what is known of the
/// expected count, the declared message length, and the payloads received
/// so far by 1-based chunk index.
pub struct EntryModel {
    pub total: Option<u32>,
    pub message_length: u64,
    pub slots: Map<u32, Seq<u8>>,
}

/// The stored payloads as mathematical sequences, keyed as stored.
spec fn slots_model(m: Map<u32, Vec<u8>>) -> Map<u32, Seq<u8>> {
    Map::new(|k: u32| m.contains_key(k), |k: u32| m[k]@)
}

impl View for Entry {
    type V = EntryModel;

    closed spec fn view(&self) -> EntryModel {
        EntryModel {
            total: self.total,
            message_length: self.message_length,
            slots: slots_model(self.slots@),
        }
    }
}

/// Whether some stored index lies beyond a declared chunk count.
pub open spec fn has_slot_above(slots: Map<u32, Seq<u8>>, total: u32) -> bool {
    exists|j: u32| #[trigger] slots.contains_key(j) && j > total
}

/// Whether every index from 1 through `total` has a stored payload.
pub open spec fn all_slots_present(slots: Map<u32, Seq<u8>>, total: u32) -> bool {
    forall|j: u32| 1 <= j <= total ==> #[trigger] slots.contains_key(j)
}

/// The stored payloads of indices 1 through `t`, concatenated in index
/// order (a missing index contributes nothing).
pub open spec fn spec_concat_slots(slots: Map<u32, Seq<u8>>, t: int) -> Seq<u8>
    decreases t,
{
    if t <= 0 {
        Seq::empty()
    } else {
        spec_concat_slots(slots, t - 1) + if slots.contains_key(t as u32) {
            slots[t as u32]
        } else {
            Seq::empty()
        }
    }
}

/// What one call of `accept` does or reports.
pub enum StepResult {
    /// The chunk was rejected as a protocol error; the partial state of its
    /// message identifier is discarded.
    Rejected,
    /// The chunk was stored; its message is still incomplete.
    Pending,
    /// The chunk completed its message, whose payload this is; the entry is
    /// removed.
    Delivered(Seq<u8>),
}

/// The transition one chunk makes on the reassembly table.  This is the
/// authoritative description of `accept`: given the table and a chunk it
/// yields the next table and the outcome.
pub open spec fn accept_step(st: Map<u64, EntryModel>, c: Chunk) -> (Map<u64, EntryModel>,
    StepResult) {
    let id = c.message_id;
    let first = spec_descriptor_is_first(c.chunk_x);
    let number = spec_descriptor_number(c.chunk_x);
    let index = spec_descriptor_index(c.chunk_x);
    if id == 0 {
        (st, StepResult::Rejected)
    } else if number == 0 {
        // A first chunk declaring zero chunks, or a continuation claiming
        // position 0: position 0 belongs to the first chunk alone.
        (st.remove(id), StepResult::Rejected)
    } else {
        let e = if st.contains_key(id) {
            st[id]
        } else {
            EntryModel { total: None, message_length: c.message_length, slots: Map::empty() }
        };
        if st.contains_key(id) && e.message_length != c.message_length {
            (st.remove(id), StepResult::Rejected)
        } else if first && e.total is Some && e.total->Some_0 != number {
            (st.remove(id), StepResult::Rejected)
        } else {
            let total = if first {
                Some(number)
            } else {
                e.total
            };
            if total is Some && (index > total->Some_0 || has_slot_above(e.slots, total->Some_0)) {
                (st.remove(id), StepResult::Rejected)
            } else if e.slots.contains_key(index) {
                if e.slots[index].len() != c.data@.len() {
                    (st.remove(id), StepResult::Rejected)
                } else {
                    // A retransmitted chunk of unchanged size is ignored.
                    (
                        st.insert(
                            id,
                            EntryModel { total, message_length: e.message_length, slots: e.slots },
                        ),
                        StepResult::Pending,
                    )
                }
            } else {
                let slots = e.slots.insert(index, c.data@);
                if total is Some && all_slots_present(slots, total->Some_0) {
                    let payload = spec_concat_slots(slots, total->Some_0 as int);
                    if payload.len() == e.message_length {
                        (st.remove(id), StepResult::Delivered(payload))
                    } else {
                        (st.remove(id), StepResult::Rejected)
                    }
                } else {
                    (
                        st.insert(
                            id,
                            EntryModel { total, message_length: e.message_length, slots },
                        ),
                        StepResult::Pending,
                    )
                }
            }
        }
    }
}

/// Process-wide keyed reassembly state: one accumulator per in-flight
/// message identifier.
pub struct MessageReassembler {
    entries: HashMap<u64, Entry>,
}

/// The table's entries as their mathematical content, keyed as stored.
spec fn table_model(m: Map<u64, Entry>) -> Map<u64, EntryModel> {
    Map::new(|k: u64| m.contains_key(k), |k: u64| m[k]@)
}

impl View for MessageReassembler {
    type V = Map<u64, EntryModel>;

    closed spec fn view(&self) -> Map<u64, EntryModel> {
        table_model(self.entries@)
    }
}

spec fn entry_wf(e: Entry) -> bool {
    &&& forall|j: u32| #[trigger] e.slots@.contains_key(j) ==> 1 <= j <= e.max_index
    &&& e.max_index > 0 ==> e.slots@.contains_key(e.max_index)
    &&& e.total is Some ==> e.total->Some_0 <= MAX_CHUNK_COUNT
}

impl MessageReassembler {
    /// Internal bookkeeping is consistent; established by `new` and kept by
    /// every method.
    pub closed spec fn wf(&self) -> bool {
        forall|id: u64| #[trigger] self.entries@.contains_key(id) ==> entry_wf(self.entries@[id])
    }

    /// An empty reassembly table.
    pub fn new() -> (r: Self)
        ensures
            r@ == Map::<u64, EntryModel>::empty(),
            r.wf(),
    {
        let r = MessageReassembler { entries: HashMap::new() };
        proof {
            assert(r@ =~= Map::<u64, EntryModel>::empty());
        }
        r
    }

    /// Drops whatever partial state the given message identifier has; the
    /// eviction hook for callers that bound the table's lifetime.
    pub fn evict(&mut self, message_id: u64)
        requires
            old(self).wf(),
        ensures
            final(self)@ == old(self)@.remove(message_id),
            final(self).wf(),
    {
        self.entries.remove(&message_id);
        proof {
            assert(self@ =~= old(self)@.remove(message_id));
        }
    }

    /// How many message identifiers have partial state pending.
    pub fn pending_messages(&self) -> (r: usize)
        ensures
            r == self@.dom().len(),
    {
        let r = self.entries.len();
        proof {
            assert(self@.dom() =~= self.entries@.dom());
        }
        r
    }

    /// Whether partial state is pending for the given message identifier.
    pub fn is_pending(&self, message_id: u64) -> (r: bool)
        ensures
            r == self@.contains_key(message_id),
    {
        self.entries.contains_key(&message_id)
    }

    /// How many chunks have been stored for the given message identifier,
    /// or nothing if it has no pending state; lets a caller bound entries
    /// by size.
    pub fn chunks_received(&self, message_id: u64) -> (r: Option<usize>)
        ensures
            match r {
                Some(n) => self@.contains_key(message_id) && n == self@[message_id].slots.dom().len(),
                None => !self@.contains_key(message_id),
            },
    {
        match self.entries.get(&message_id) {
            Some(e) => {
                let n = e.slots.len();
                proof {
                    assert(self@[message_id].slots.dom() =~= e.slots@.dom());
                }
                Some(n)
            },
            None => None,
        }
    }

    /// Feeds one chunk into the table and performs exactly the transition
    /// `accept_step` describes: a protocol error discards the chunk's
    /// message, a stored chunk leaves the message pending, and the chunk
    /// completing its message delivers the payload concatenated in index
    /// order and removes the entry.
    pub fn accept(&mut self, chunk: Chunk) -> (r: Result<Option<LogicalMessage>, VstError>)
        requires
            old(self).wf(),
        ensures
            final(self).wf(),
            final(self)@ == accept_step(old(self)@, chunk).0,
            match r {
                Ok(None) => accept_step(old(self)@, chunk).1 is Pending,
                Ok(Some(msg)) => {
                    &&& accept_step(old(self)@, chunk).1 == StepResult::Delivered(msg.payload@)
                    &&& msg.message_id == chunk.message_id
                    &&& msg.total_length == chunk.message_length
                    &&& msg.payload@.len() == msg.total_length
                },
                Err(e) => accept_step(old(self)@, chunk).1 is Rejected && e == VstError::Protocol,
            },
    {
        let ghost st0 = self@;
        let id = chunk.message_id;
        if id == 0 {
            return Err(VstError::Protocol);
        }
        let number = chunk.get_chunk();
        proof {
            let x = chunk.chunk_x;
            assert(x >> 1u32 <= 0x7FFF_FFFFu32) by (bit_vector);
        }
        if number == 0 {
            self.entries.remove(&id);
            proof {
                assert(self@ =~= st0.remove(id));
                assert(self.wf());
            }
            return Err(VstError::Protocol);
        }
        let first = chunk.is_first_chunk();
        let index = chunk.get_chunk_number();
        let ghost spec_e = if st0.contains_key(id) {
            st0[id]
        } else {
            EntryModel { total: None, message_length: chunk.message_length, slots: Map::empty() }
        };
        let mut entry: Entry;
        let existed: bool;
        match self.entries.remove(&id) {
            Some(e) => {
                entry = e;
                existed = true;
            },
            None => {
                entry = Entry {
                    total: None,
                    message_length: chunk.message_length,
                    max_index: 0,
                    slots: HashMap::new(),
                };
                existed = false;
            },
        }
        proof {
            assert(self@ =~= st0.remove(id));
            assert(existed == st0.contains_key(id));
            if existed {
                assert(old(self).entries@.contains_key(id));
                assert(entry_wf(entry));
                assert(entry@ == spec_e);
            } else {
                assert(entry@.slots =~= Map::<u32, Seq<u8>>::empty());
                assert(entry@ == spec_e);
                assert(entry_wf(entry));
            }
            assert(self.wf());
        }
        if existed && entry.message_length != chunk.message_length {
            return Err(VstError::Protocol);
        }
        if first {
            match entry.total {
                Some(t) => {
                    if t != number {
                        return Err(VstError::Protocol);
                    }
                },
                None => {},
            }
            entry.total = Some(number);
        }
        // entry.total now holds the updated count-or-None of the transition.
        let ghost spec_total = if spec_descriptor_is_first(chunk.chunk_x) {
            Some(spec_descriptor_number(chunk.chunk_x))
        } else {
            spec_e.total
        };
        proof {
            assert(entry.total == spec_total);
            assert(entry@.slots == spec_e.slots);
            assert(entry_wf(entry));
        }
        match entry.total {
            Some(t) => {
                if index > t || entry.max_index > t {
                    proof {
                        if !(index > t) {
                            assert(entry.slots@.contains_key(entry.max_index));
                            assert(spec_e.slots.contains_key(entry.max_index) && entry.max_index
                                > t);
                            assert(has_slot_above(spec_e.slots, t));
                        }
                    }
                    return Err(VstError::Protocol);
                }
            },
            None => {},
        }
        proof {
            // No stored index exceeds a known count: all are bounded by
            // max_index, which the check above admitted.
            if spec_total is Some {
                assert forall|j: u32| #[trigger] spec_e.slots.contains_key(j) implies j
                    <= spec_total->Some_0 by {
                    assert(entry.slots@.contains_key(j));
                }
                assert(!has_slot_above(spec_e.slots, spec_total->Some_0));
            }
        }
        let dup_len: Option<usize> = match entry.slots.get(&index) {
            Some(v) => Some(v.len()),
            None => None,
        };
        match dup_len {
            Some(l) => {
                proof {
                    assert(spec_e.slots.contains_key(index));
                    assert(spec_e.slots[index].len() == l);
                }
                if l != chunk.data.len() {
                    return Err(VstError::Protocol);
                }
                proof {
                    assert(entry@ == EntryModel {
                        total: spec_total,
                        message_length: spec_e.message_length,
                        slots: spec_e.slots,
                    });
                }
                self.entries.insert(id, entry);
                proof {
                    assert(self@ =~= accept_step(st0, chunk).0);
                    assert(self.wf());
                }
                return Ok(None);
            },
            None => {
                proof {
                    assert(!spec_e.slots.contains_key(index));
                }
            },
        }
        let ghost chunk_data = chunk.data@;
        let data_len = chunk.data.len();
        entry.slots.insert(index, chunk.data);
        if index > entry.max_index {
            entry.max_index = index;
        }
        proof {
            assert(entry@.slots =~= spec_e.slots.insert(index, chunk_data));
            assert(entry_wf(entry));
        }
        let ghost new_slots = entry@.slots;
        match entry.total {
            Some(t) => {
                let mut all = true;
                let mut j: u32 = 1;
                while j <= t
                    invariant
                        1 <= j <= t + 1,
                        t <= MAX_CHUNK_COUNT,
                        entry@.slots == new_slots,
                        all == (forall|jj: u32|
                            1 <= jj < j ==> #[trigger] new_slots.contains_key(jj)),
                    decreases t + 1 - j,
                {
                    let present = entry.slots.contains_key(&j);
                    proof {
                        assert(present == new_slots.contains_key(j));
                    }
                    if !present {
                        all = false;
                    }
                    j = j + 1;
                }
                assert(all == all_slots_present(new_slots, t));
                if all {
                    let mut out: Vec<u8> = Vec::new();
                    let mut j: u32 = 1;
                    while j <= t
                        invariant
                            1 <= j <= t + 1,
                            t <= MAX_CHUNK_COUNT,
                            entry@.slots == new_slots,
                            all_slots_present(new_slots, t),
                            out@ == spec_concat_slots(new_slots, j - 1),
                        decreases t + 1 - j,
                    {
                        proof {
                            assert(new_slots.contains_key(j));
                            assert(entry.slots@.contains_key(j));
                        }
                        let v = entry.slots.get(&j).unwrap();
                        proof {
                            assert(v@ == new_slots[j]);
                        }
                        out.extend_from_slice(v.as_slice());
                        j = j + 1;
                    }
                    proof {
                        assert(out@ == spec_concat_slots(new_slots, t as int));
                    }
                    if out.len() as u64 == entry.message_length {
                        let msg = LogicalMessage {
                            message_id: id,
                            total_length: entry.message_length,
                            payload: out,
                        };
                        proof {
                            assert(self@ =~= accept_step(st0, chunk).0);
                            assert(accept_step(st0, chunk).1 == StepResult::Delivered(
                                msg.payload@,
                            ));
                            assert(self.wf());
                        }
                        return Ok(Some(msg));
                    } else {
                        return Err(VstError::Protocol);
                    }
                }
            },
            None => {},
        }
        self.entries.insert(id, entry);
        proof {
            assert(entry@ == EntryModel {
                total: spec_total,
                message_length: spec_e.message_length,
                slots: new_slots,
            });
            assert(self@ =~= accept_step(st0, chunk).0);
            assert(self.wf());
        }
        Ok(None)
    }
}

/// Feeding two first chunks that declare different counts for one message
/// identifier is a protocol error: if the first of them was accepted, the
/// second is rejected, whatever else the chunks carry.
pub proof fn lemma_conflicting_first_chunks(st: Map<u64, EntryModel>, c1: Chunk, c2: Chunk)
    requires
        c1.message_id != 0,
        c2.message_id == c1.message_id,
        spec_descriptor_is_first(c1.chunk_x),
        spec_descriptor_is_first(c2.chunk_x),
        spec_descriptor_number(c2.chunk_x) != spec_descriptor_number(c1.chunk_x),
        accept_step(st, c1).1 is Pending,
    ensures
        accept_step(accept_step(st, c1).0, c2).1 is Rejected,
{
}

} // verus!
