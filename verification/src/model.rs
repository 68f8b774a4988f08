//! What a page holds, apart from where it holds it: one entry per slot of the
//! directory, `Some` of the record's bytes where the slot is live, `None`
//! where it is free. Inserting and deleting are defined on this sequence, and
//! the rules for slot ids and for space follow from the definitions.

use crate::format::{SlotId, BYTES_PER_SLOT_META, FIXED_PAGE_META_SIZE, PAGE_SIZE};
use vstd::prelude::*;

verus! {

/// The records of a page by slot id.
pub type Records = Seq<Option<Seq<u8>>>;

/// The record stored under `slot`, or `None` where the slot is free or out
/// of range.
pub open spec fn record_under(recs: Records, slot: int) -> Option<Seq<u8>> {
    if 0 <= slot < recs.len() {
        recs[slot]
    } else {
        None
    }
}

/// Total length of the records in the first `upto` slots.
pub open spec fn stored_upto(recs: Records, upto: int) -> int
    decreases upto,
{
    if upto <= 0 {
        0
    } else {
        stored_upto(recs, upto - 1) + match recs[upto - 1] {
            Some(record) => record.len() as int,
            None => 0,
        }
    }
}

/// Total length of the records.
pub open spec fn stored_bytes(recs: Records) -> int {
    stored_upto(recs, recs.len() as int)
}

/// Bytes that the fixed header and the directory take.
pub open spec fn header_bytes(recs: Records) -> int {
    FIXED_PAGE_META_SIZE + recs.len() * BYTES_PER_SLOT_META
}

/// Bytes left in a page that holds `recs`.
pub open spec fn space_left(recs: Records) -> int {
    PAGE_SIZE - header_bytes(recs) - stored_bytes(recs)
}

/// `recs` is what a page can hold: header, directory and records fit.
pub open spec fn fits(recs: Records) -> bool {
    space_left(recs) >= 0
}

/// `slot` is the lowest slot id that an insert can take: every lower slot is
/// live, and `slot` itself is free or is the first id past the directory.
pub open spec fn is_lowest_free(recs: Records, slot: int) -> bool {
    &&& 0 <= slot <= recs.len()
    &&& slot < recs.len() ==> recs[slot] is None
    &&& forall|lower: int| 0 <= lower < slot ==> (#[trigger] recs[lower]) is Some
}

/// The lowest free slot id at or after `from`.
pub open spec fn lowest_free_from(recs: Records, from: int) -> int
    decreases recs.len() - from,
{
    if from >= recs.len() {
        recs.len() as int
    } else if recs[from] is None {
        from
    } else {
        lowest_free_from(recs, from + 1)
    }
}

/// The slot id that the next insert takes.
pub open spec fn lowest_free(recs: Records) -> int {
    lowest_free_from(recs, 0)
}

/// The next insert has to add an entry to the directory.
pub open spec fn needs_new_slot(recs: Records) -> bool {
    lowest_free(recs) == recs.len()
}

/// Bytes that inserting a record of `len` bytes takes: the record, and six
/// more where the directory has to grow.
pub open spec fn space_needed(recs: Records, len: int) -> int {
    len + if needs_new_slot(recs) {
        BYTES_PER_SLOT_META as int
    } else {
        0
    }
}

/// A record of `len` bytes can be inserted.
pub open spec fn admits(recs: Records, len: int) -> bool {
    space_needed(recs, len) <= space_left(recs)
}

/// `recs` with `record` stored under the lowest free slot id.
pub open spec fn inserted(recs: Records, record: Seq<u8>) -> Records {
    if needs_new_slot(recs) {
        recs.push(Some(record))
    } else {
        recs.update(lowest_free(recs), Some(record))
    }
}

/// `recs` with `slot` set free.
pub open spec fn deleted(recs: Records, slot: int) -> Records {
    if 0 <= slot < recs.len() {
        recs.update(slot, None)
    } else {
        recs
    }
}

/// The live records from slot `from` on, each with its slot id, in ascending
/// order of slot id.
pub open spec fn live_from(recs: Records, from: int) -> Seq<(Seq<u8>, SlotId)>
    decreases recs.len() - from,
{
    if from < 0 || from >= recs.len() {
        Seq::empty()
    } else {
        match recs[from] {
            Some(record) => seq![(record, from as SlotId)] + live_from(recs, from + 1),
            None => live_from(recs, from + 1),
        }
    }
}

/// The live records, each with its slot id, in ascending order of slot id.
pub open spec fn live_pairs(recs: Records) -> Seq<(Seq<u8>, SlotId)> {
    live_from(recs, 0)
}

/// `lowest_free_from` finds the lowest free slot id at or after `from`.
pub proof fn lemma_lowest_free_from(recs: Records, from: int)
    requires
        0 <= from <= recs.len(),
    ensures
        from <= lowest_free_from(recs, from) <= recs.len(),
        lowest_free_from(recs, from) < recs.len() ==> recs[lowest_free_from(recs, from)] is None,
        forall|lower: int|
            from <= lower < lowest_free_from(recs, from) ==> (#[trigger] recs[lower]) is Some,
    decreases recs.len() - from,
{
    if from < recs.len() && recs[from] is Some {
        lemma_lowest_free_from(recs, from + 1);
    }
}

/// The slot id that an insert takes is the least `i` such that slot `i` is
/// free or `i` is the number of slots; no other id is the least such.
pub proof fn lemma_lowest_free(recs: Records)
    ensures
        is_lowest_free(recs, lowest_free(recs)),
        forall|slot: int| is_lowest_free(recs, slot) ==> slot == lowest_free(recs),
{
    lemma_lowest_free_from(recs, 0);
}

/// `recs` after an attempt to insert `record`: with the record where it is
/// admitted, unchanged where it is not.
pub open spec fn after_insert(recs: Records, record: Seq<u8>) -> Records {
    if admits(recs, record.len() as int) {
        inserted(recs, record)
    } else {
        recs
    }
}

/// One change to a page.
pub enum PageOp {
    /// An attempt to insert a record.
    Insert(Seq<u8>),
    /// The deletion of a slot.
    Delete(int),
}

/// `recs` after `op`.
pub open spec fn apply(recs: Records, op: PageOp) -> Records {
    match op {
        PageOp::Insert(record) => after_insert(recs, record),
        PageOp::Delete(slot) => deleted(recs, slot),
    }
}

/// `recs` after the changes `ops`, the first of them first.
pub open spec fn apply_all(recs: Records, ops: Seq<PageOp>) -> Records
    decreases ops.len(),
{
    if ops.len() == 0 {
        recs
    } else {
        apply(apply_all(recs, ops.drop_last()), ops.last())
    }
}

/// The number of inserts among `ops`.
pub open spec fn insert_count(ops: Seq<PageOp>) -> int
    decreases ops.len(),
{
    if ops.len() == 0 {
        0
    } else {
        insert_count(ops.drop_last()) + if ops.last() is Insert {
            1int
        } else {
            0int
        }
    }
}

/// The total length of the records up to a slot does not depend on what the
/// slots from there on hold.
proof fn lemma_stored_upto_same(a: Records, b: Records, upto: int)
    requires
        0 <= upto <= a.len(),
        upto <= b.len(),
        forall|s: int| 0 <= s < upto ==> a[s] == b[s],
    ensures
        stored_upto(a, upto) == stored_upto(b, upto),
    decreases upto,
{
    if upto > 0 {
        lemma_stored_upto_same(a, b, upto - 1);
    }
}

/// Changing what one slot holds changes the total length by the difference
/// of the two lengths.
proof fn lemma_stored_upto_update(recs: Records, slot: int, entry: Option<Seq<u8>>, upto: int)
    requires
        0 <= slot < recs.len(),
        0 <= upto <= recs.len(),
    ensures
        stored_upto(recs.update(slot, entry), upto) == stored_upto(recs, upto) + if slot < upto {
            entry_len(entry) - entry_len(recs[slot])
        } else {
            0
        },
    decreases upto,
{
    if upto > 0 {
        lemma_stored_upto_update(recs, slot, entry, upto - 1);
    }
}

/// Length of the record in a slot; 0 for a free slot.
pub open spec fn entry_len(entry: Option<Seq<u8>>) -> int {
    match entry {
        Some(record) => record.len() as int,
        None => 0,
    }
}

/// An admitted insert takes the space that it needs, neither more nor less,
/// and leaves records that fit.
pub proof fn lemma_insert_takes_space(recs: Records, record: Seq<u8>)
    requires
        admits(recs, record.len() as int),
    ensures
        space_left(inserted(recs, record)) == space_left(recs) - space_needed(
            recs,
            record.len() as int,
        ),
        fits(inserted(recs, record)),
{
    lemma_lowest_free(recs);
    let slot = lowest_free(recs);
    let grown = inserted(recs, record);
    if needs_new_slot(recs) {
        lemma_stored_upto_same(recs, grown, recs.len() as int);
    } else {
        lemma_stored_upto_update(recs, slot, Some(record), recs.len() as int);
    }
}

/// Deleting a live slot gives back the length of its record; the directory
/// keeps its size.
pub proof fn lemma_delete_gives_space(recs: Records, slot: int)
    requires
        0 <= slot < recs.len(),
    ensures
        deleted(recs, slot).len() == recs.len(),
        space_left(deleted(recs, slot)) == space_left(recs) + entry_len(recs[slot]),
{
    lemma_stored_upto_update(recs, slot, None, recs.len() as int);
}

/// A record that was inserted is read back under the slot id that the insert
/// returned, and every other slot holds what it held.
pub proof fn lemma_insert_reads_back(recs: Records, record: Seq<u8>)
    requires
        admits(recs, record.len() as int),
    ensures
        record_under(inserted(recs, record), lowest_free(recs)) == Some(record),
        forall|slot: int|
            slot != lowest_free(recs) ==> #[trigger] record_under(inserted(recs, record), slot)
                == record_under(recs, slot),
{
    lemma_lowest_free(recs);
}

/// A record stays readable under its slot id, byte for byte, through any
/// inserts and through any deletes of other slots.
pub proof fn lemma_record_stays(recs: Records, ops: Seq<PageOp>, slot: int, record: Seq<u8>)
    requires
        record_under(recs, slot) == Some(record),
        forall|k: int| 0 <= k < ops.len() ==> #[trigger] ops[k] != PageOp::Delete(slot),
    ensures
        record_under(apply_all(recs, ops), slot) == Some(record),
    decreases ops.len(),
{
    if ops.len() > 0 {
        lemma_record_stays(recs, ops.drop_last(), slot, record);
        // An insert takes a free slot, and none of the deletes names `slot`.
        lemma_lowest_free(apply_all(recs, ops.drop_last()));
    }
}

/// The header grows by at most one entry with each insert and by none with
/// a delete: after any changes it is at most six bytes larger for each
/// insert among them.
pub proof fn lemma_header_bound(recs: Records, ops: Seq<PageOp>)
    ensures
        header_bytes(apply_all(recs, ops)) <= header_bytes(recs) + BYTES_PER_SLOT_META
            * insert_count(ops),
    decreases ops.len(),
{
    if ops.len() > 0 {
        lemma_header_bound(recs, ops.drop_last());
        lemma_lowest_free(apply_all(recs, ops.drop_last()));
    }
}

/// After the deletion of a slot, the next insert takes a slot id that is no
/// higher.
pub proof fn lemma_reuse_after_delete(recs: Records, slot: int)
    requires
        0 <= slot < recs.len(),
    ensures
        lowest_free(deleted(recs, slot)) <= slot,
{
    let after = deleted(recs, slot);
    lemma_lowest_free(after);
    if slot < lowest_free(after) {
        assert(after[slot] is Some);
    }
}

/// After the deletion of a record, a record that is no longer than the
/// deleted one can be inserted, wherever in the page the freed bytes lie.
pub proof fn lemma_delete_makes_room(recs: Records, slot: int, record: Seq<u8>)
    requires
        fits(recs),
        0 <= slot < recs.len(),
        record.len() <= entry_len(recs[slot]),
    ensures
        admits(deleted(recs, slot), record.len() as int),
        lowest_free(deleted(recs, slot)) <= slot,
{
    lemma_delete_gives_space(recs, slot);
    lemma_reuse_after_delete(recs, slot);
}

/// What an iteration yields from slot `from` on: each item is a live record
/// with the slot that holds it, the slot ids ascend, and no live slot from
/// `from` on is left out.
pub proof fn lemma_live_from(recs: Records, from: int)
    requires
        0 <= from,
        recs.len() <= SlotId::MAX + 1,
    ensures
        forall|k: int|
            0 <= k < live_from(recs, from).len() ==> from <= (#[trigger] live_from(
                recs,
                from,
            )[k]).1 < recs.len() && recs[live_from(recs, from)[k].1 as int] == Some(
                live_from(recs, from)[k].0,
            ),
        forall|i: int, j: int|
            0 <= i < j < live_from(recs, from).len() ==> (#[trigger] live_from(recs, from)[i]).1
                < (#[trigger] live_from(recs, from)[j]).1,
        forall|slot: int|
            from <= slot < recs.len() && (#[trigger] recs[slot]) is Some ==> exists|k: int|
                0 <= k < live_from(recs, from).len() && #[trigger] live_from(recs, from)[k] == (
                    recs[slot]->0,
                    slot as SlotId,
                ),
    decreases recs.len() - from,
{
    let out = live_from(recs, from);
    if from < recs.len() {
        lemma_live_from(recs, from + 1);
        let rest = live_from(recs, from + 1);
        match recs[from] {
            Some(record) => {
                assert forall|slot: int|
                    from <= slot < recs.len() && (#[trigger] recs[slot]) is Some implies exists|
                    k: int,
                |
                    0 <= k < out.len() && #[trigger] out[k] == (recs[slot]->0, slot as SlotId) by {
                    if slot == from {
                        assert(out[0] == (recs[slot]->0, slot as SlotId));
                    } else {
                        let k = choose|k: int|
                            0 <= k < rest.len() && #[trigger] rest[k] == (
                                recs[slot]->0,
                                slot as SlotId,
                            );
                        assert(out[k + 1] == rest[k]);
                    }
                }
            },
            None => {},
        }
    }
}

} // verus!
