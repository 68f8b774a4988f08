//! The steps of an insert, one lemma each: which slot is taken, what a new
//! directory entry does to the page, and what writing the record does.

use crate::accounting::{lemma_records, lemma_space_left};
use crate::format::{
    free_space, free_start, header_size, num_slots, record_at, records, same_outside,
    slot_in_range, slot_in_use, slot_length, slot_live, slot_meta_offset, slot_offset,
    stored_free_start, used_bytes, well_formed, well_formed_except, with_bytes,
    BYTES_PER_SLOT_META, FIXED_PAGE_META_SIZE, PAGE_SIZE, SLOT_IN_USE_FREE, SLOT_IN_USE_VALID,
};
use crate::compaction::{compacted, order_kept};
use crate::growth::{lemma_shifted, shifted};
use crate::model::{
    admits, inserted, is_lowest_free, lemma_insert_takes_space, lemma_lowest_free, lowest_free,
    needs_new_slot,
};
use vstd::prelude::*;

verus! {

/// Bytes by which the header grows when `slot` is taken: six where the slot
/// is a new one, none where it is reused.
pub open spec fn growth(bytes: Seq<u8>, slot: int) -> int {
    if slot == num_slots(bytes) {
        BYTES_PER_SLOT_META as int
    } else {
        0
    }
}

/// The free-start pointer of `bytes` once the directory has gained an entry:
/// six higher; in a page without slots, the pointer itself or the new start
/// of the body, whichever is higher.
pub open spec fn grown_free_start(bytes: Seq<u8>) -> int {
    if num_slots(bytes) > 0 {
        free_start(bytes) + BYTES_PER_SLOT_META
    } else if free_start(bytes) < FIXED_PAGE_META_SIZE + BYTES_PER_SLOT_META {
        FIXED_PAGE_META_SIZE + BYTES_PER_SLOT_META
    } else {
        free_start(bytes)
    }
}

/// `after` is `before` with one more directory entry, of which nothing is
/// said: but for that entry `after` is well formed, the old slots hold what
/// they held, and every record lies six bytes further right.
pub open spec fn entry_added(before: Seq<u8>, after: Seq<u8>) -> bool {
    &&& num_slots(after) == num_slots(before) + 1
    &&& well_formed_except(after, num_slots(before))
    &&& forall|i: int| 0 <= i < 2 || 6 <= i < 8 ==> after[i] == before[i]
    &&& forall|s: int|
        0 <= s < num_slots(before) ==> #[trigger] record_at(after, s) == record_at(before, s)
    &&& free_start(after) == grown_free_start(before)
    &&& forall|s: int|
        #![trigger slot_live(after, s)]
        #![trigger slot_offset(after, s)]
        slot_live(before, s) ==> slot_live(after, s) && slot_offset(after, s) == slot_offset(
            before,
            s,
        ) + BYTES_PER_SLOT_META
}

/// Where the records of `after` lie when a record of `len` bytes has been
/// stored under `slot` of `before`.
///
/// The new record lies last, and the free-start pointer stands behind it.
/// No record has overtaken another. Where the space behind the last record
/// sufficed, every record lies where it lay, or six bytes further right
/// where the directory has grown. Where it did not suffice, the records lie
/// packed: no hole is left between the directory and the free-start pointer.
pub open spec fn placed(before: Seq<u8>, after: Seq<u8>, slot: int, len: int) -> bool {
    &&& slot_live(after, slot)
    &&& slot_length(after, slot) == len
    &&& slot_offset(after, slot) + len == free_start(after)
    &&& order_kept(before, after)
    &&& if free_start(before) + growth(before, slot) + len <= PAGE_SIZE {
        &&& forall|s: int|
            slot_live(before, s) ==> #[trigger] slot_offset(after, s) == slot_offset(before, s)
                + growth(before, slot)
        &&& slot_offset(after, slot) == if slot == num_slots(before) {
            grown_free_start(before)
        } else {
            free_start(before)
        }
    } else {
        free_start(after) == header_size(after) + used_bytes(after)
    }
}

/// `after` is `ready` with `record` written at the free-start pointer and
/// entered under `slot`, and with the pointer moved behind the record. The
/// two bytes of the pointer, the first five bytes of the entry and the bytes
/// of the record are what differs; every other byte is that of `ready`.
pub open spec fn record_entered(
    ready: Seq<u8>,
    after: Seq<u8>,
    slot: int,
    record: Seq<u8>,
) -> bool {
    let at = free_start(ready);
    let base = slot_meta_offset(slot);
    &&& after.len() == ready.len()
    &&& forall|i: int|
        0 <= i < ready.len() && !(4 <= i < 6) && !(base <= i < base + 5) && !(at <= i < at
            + record.len()) ==> after[i] == ready[i]
    &&& stored_free_start(after) == at + record.len()
    &&& slot_offset(after, slot) == at
    &&& slot_length(after, slot) == record.len()
    &&& slot_in_use(after, slot) == SLOT_IN_USE_VALID
    &&& after.subrange(at, at + record.len()) == record
}

/// `grown` is `before` with one more directory entry: where the page has
/// slots, the body has made room as `shifted` says; then the number of slots
/// is one higher. Nothing else differs.
pub open spec fn directory_grown(before: Seq<u8>, grown: Seq<u8>) -> bool {
    exists|moved: Seq<u8>|
        {
            &&& #[trigger] same_outside(moved, grown, 2, 4)
            &&& num_slots(grown) == num_slots(before) + 1
            &&& if num_slots(before) > 0 {
                shifted(before, moved)
            } else {
                moved == before
            }
        }
}

/// The steps of an insert from `before` to `after` by way of `packed` and
/// `ready`: the records are compacted where the space behind the last record
/// does not hold the record and a new entry; the directory grows where the
/// slot is a new one; the record is entered.
pub open spec fn steps_by_way_of(
    before: Seq<u8>,
    packed: Seq<u8>,
    ready: Seq<u8>,
    after: Seq<u8>,
    slot: int,
    record: Seq<u8>,
) -> bool {
    &&& if free_start(before) + growth(before, slot) + record.len() <= PAGE_SIZE {
        packed == before
    } else {
        compacted(before, packed)
    }
    &&& if slot < num_slots(before) {
        ready == packed
    } else {
        directory_grown(packed, ready)
    }
    &&& record_entered(ready, after, slot, record)
}

/// `after` is what the steps of an insert of `record` under `slot` make of
/// `before`, byte for byte.
pub open spec fn insert_steps(before: Seq<u8>, after: Seq<u8>, slot: int, record: Seq<u8>) -> bool {
    exists|packed: Seq<u8>, ready: Seq<u8>|
        steps_by_way_of(before, packed, ready, after, slot, record)
}

/// In a well-formed page, the first slot whose flag says free, or the number
/// of slots where there is none, is the slot id that the next insert takes;
/// and the records admit `len` more bytes exactly if the free space holds
/// them and the directory entry that a new slot needs.
pub proof fn lemma_slot_choice(bytes: Seq<u8>, slot: int, len: int)
    requires
        well_formed(bytes),
        0 <= slot <= num_slots(bytes),
        slot < num_slots(bytes) ==> !slot_in_range(bytes, slot) || slot_in_use(bytes, slot)
            == SLOT_IN_USE_FREE,
        forall|lower: int|
            #![trigger slot_in_range(bytes, lower)]
            #![trigger slot_in_use(bytes, lower)]
            0 <= lower < slot ==> slot_in_range(bytes, lower) && slot_in_use(bytes, lower)
                != SLOT_IN_USE_FREE,
    ensures
        slot == lowest_free(records(bytes)),
        needs_new_slot(records(bytes)) <==> slot == num_slots(bytes),
        admits(records(bytes), len) <==> len + (if slot == num_slots(bytes) {
            BYTES_PER_SLOT_META as int
        } else {
            0
        }) <= free_space(bytes),
{
    let recs = records(bytes);
    lemma_records(bytes);
    lemma_space_left(bytes);
    assert(is_lowest_free(recs, slot));
    lemma_lowest_free(recs);
}

/// Closing the holes where the space behind the last record does not
/// suffice leaves a well-formed page with the same records whose free space
/// lies behind the last record.
pub proof fn lemma_packed(bytes: Seq<u8>, packed: Seq<u8>, needed: int)
    requires
        well_formed(bytes),
        0 <= needed <= free_space(bytes),
        if free_start(bytes) + needed > PAGE_SIZE {
            compacted(bytes, packed)
        } else {
            packed == bytes
        },
    ensures
        well_formed(packed),
        num_slots(packed) == num_slots(bytes),
        records(packed) == records(bytes),
        forall|i: int| 0 <= i < 4 || 6 <= i < 8 ==> packed[i] == bytes[i],
        free_start(packed) + needed <= PAGE_SIZE,
        order_kept(bytes, packed),
        free_start(bytes) + needed > PAGE_SIZE ==> free_start(packed) == header_size(packed)
            + used_bytes(bytes),
{
    reveal(compacted);
}

/// A page whose directory has gained an entry: `shifted` is the page with
/// the body moved out of the way, or the page itself where it has no slot
/// yet; `grown` is `shifted` with the number of slots raised by one. But for
/// the new slot, whose entry holds what lay there, `grown` is well formed,
/// and the old slots hold what they held.
pub proof fn lemma_grown(bytes: Seq<u8>, moved: Seq<u8>, grown: Seq<u8>)
    requires
        well_formed(bytes),
        free_start(bytes) + BYTES_PER_SLOT_META <= PAGE_SIZE,
        if num_slots(bytes) > 0 {
            shifted(bytes, moved)
        } else {
            moved == bytes
        },
        same_outside(moved, grown, 2, 4),
        num_slots(grown) == num_slots(bytes) + 1,
    ensures
        entry_added(bytes, grown),
        directory_grown(bytes, grown),
        free_start(grown) <= free_start(bytes) + BYTES_PER_SLOT_META,
{
    // `moved` is what `directory_grown` asks for.
    assert(same_outside(moved, grown, 2, 4));
    if num_slots(bytes) > 0 {
        lemma_shifted(bytes, moved);
        reveal(shifted);
        assert forall|s: int| slot_live(bytes, s) implies slot_live(grown, s)
            && #[trigger] slot_offset(grown, s) == slot_offset(bytes, s)
            + BYTES_PER_SLOT_META by {}
        assert forall|s: int| 0 <= s < num_slots(bytes) implies #[trigger] record_at(grown, s)
            == record_at(bytes, s) by {
            assert(records(moved)[s] == records(bytes)[s]);
        }
    }
}

/// Writing a record at the free-start pointer, storing it under a slot that
/// the layout rules left out of account, and moving the pointer behind it
/// gives a well-formed page that holds the record under that slot and, under
/// every other slot, what it held.
pub proof fn lemma_record_placed(
    bytes: Seq<u8>,
    written: Seq<u8>,
    entered: Seq<u8>,
    after: Seq<u8>,
    slot: int,
    record: Seq<u8>,
)
    requires
        well_formed_except(bytes, slot),
        0 <= slot < num_slots(bytes),
        free_start(bytes) + record.len() <= PAGE_SIZE,
        written == with_bytes(bytes, free_start(bytes), record),
        same_outside(written, entered, slot_meta_offset(slot), slot_meta_offset(slot) + 5),
        slot_offset(entered, slot) == free_start(bytes),
        slot_length(entered, slot) == record.len(),
        slot_in_use(entered, slot) == SLOT_IN_USE_VALID,
        same_outside(entered, after, 4, 6),
        stored_free_start(after) == free_start(bytes) + record.len(),
    ensures
        well_formed(after),
        num_slots(after) == num_slots(bytes),
        forall|i: int| 0 <= i < 4 || 6 <= i < 8 ==> after[i] == bytes[i],
        records(after) == records(bytes).update(slot, Some(record)),
        free_start(after) == free_start(bytes) + record.len(),
        slot_live(after, slot),
        slot_offset(after, slot) == free_start(bytes),
        slot_length(after, slot) == record.len(),
        forall|s: int|
            0 <= s < num_slots(bytes) && s != slot ==> #[trigger] slot_offset(after, s)
                == slot_offset(bytes, s),
        record_entered(bytes, after, slot, record),
{
    let n = num_slots(bytes);
    let fs = free_start(bytes);
    let base = slot_meta_offset(slot);
    // The record is written behind every live record, the entry into the
    // directory, the pointer into the header: nothing else changes.
    assert forall|i: int|
        0 <= i < header_size(bytes) && !(base <= i < base + 5) && !(4 <= i < 6) implies after[i]
        == bytes[i] by {}
    assert forall|s: int| 0 <= s < n && s != slot implies slot_live(after, s) == slot_live(
        bytes,
        s,
    ) && slot_offset(after, s) == slot_offset(bytes, s) && slot_length(after, s) == slot_length(
        bytes,
        s,
    ) && slot_in_use(after, s) == slot_in_use(bytes, s) by {
        assert(slot_meta_offset(s) != base);
    }
    assert(slot_offset(after, slot) == fs && slot_length(after, slot) == record.len()
        && slot_in_use(after, slot) == SLOT_IN_USE_VALID);
    assert forall|s: int| 0 <= s < n implies #[trigger] records(after)[s] == records(
        bytes,
    ).update(slot, Some(record))[s] by {
        if s == slot {
            assert(after.subrange(fs, fs + record.len()) =~= record);
        } else if slot_live(bytes, s) {
            let from = slot_offset(bytes, s);
            let to = from + slot_length(bytes, s);
            assert(after.subrange(from, to) =~= bytes.subrange(from, to));
        }
    }
    assert(record_entered(bytes, after, slot, record)) by {
        assert(after.subrange(fs, fs + record.len()) =~= record);
        assert forall|i: int|
            0 <= i < bytes.len() && !(4 <= i < 6) && !(base <= i < base + 5) && !(fs <= i < fs
                + record.len()) implies after[i] == bytes[i] by {
            assert(written[i] == bytes[i]);
            assert(entered[i] == written[i]);
        }
    }
}

/// The whole of an insert: `packed` is the page with its holes closed or
/// the page itself, `ready` is `packed` with the directory grown where the
/// slot is a new one, the record is then written, entered and accounted for.
pub proof fn lemma_inserted(
    bytes: Seq<u8>,
    packed: Seq<u8>,
    ready: Seq<u8>,
    written: Seq<u8>,
    entered: Seq<u8>,
    after: Seq<u8>,
    slot: int,
    record: Seq<u8>,
)
    requires
        well_formed(bytes),
        slot == lowest_free(records(bytes)),
        admits(records(bytes), record.len() as int),
        well_formed(packed),
        num_slots(packed) == num_slots(bytes),
        records(packed) == records(bytes),
        forall|i: int| 0 <= i < 4 || 6 <= i < 8 ==> packed[i] == bytes[i],
        order_kept(bytes, packed),
        if free_start(bytes) + growth(bytes, slot) + record.len() <= PAGE_SIZE {
            packed == bytes
        } else {
            compacted(bytes, packed) && free_start(packed) == header_size(packed) + used_bytes(
                bytes,
            )
        },
        if slot < num_slots(bytes) {
            ready == packed
        } else {
            entry_added(packed, ready) && directory_grown(packed, ready)
        },
        free_start(ready) + record.len() <= PAGE_SIZE,
        written == with_bytes(ready, free_start(ready), record),
        same_outside(written, entered, slot_meta_offset(slot), slot_meta_offset(slot) + 5),
        slot_offset(entered, slot) == free_start(ready),
        slot_length(entered, slot) == record.len(),
        slot_in_use(entered, slot) == SLOT_IN_USE_VALID,
        same_outside(entered, after, 4, 6),
        stored_free_start(after) == free_start(ready) + record.len(),
    ensures
        well_formed(after),
        forall|i: int| 0 <= i < 2 || 6 <= i < 8 ==> after[i] == bytes[i],
        records(after) == inserted(records(bytes), record),
        placed(bytes, after, slot, record.len() as int),
        insert_steps(bytes, after, slot, record),
{
    let recs = records(bytes);
    lemma_lowest_free(recs);
    lemma_record_placed(ready, written, entered, after, slot, record);
    assert(steps_by_way_of(bytes, packed, ready, after, slot, record));
    assert(records(after) =~= inserted(recs, record));
    // Where the records lie.
    let g = growth(bytes, slot);
    assert forall|s: int| slot_live(bytes, s) implies slot_live(packed, s) && s != slot
        && #[trigger] slot_offset(after, s) == slot_offset(packed, s) + g by {
        assert(records(packed)[s] is Some);
    }
    if free_start(bytes) + g + record.len() > PAGE_SIZE {
        lemma_space_left(bytes);
        lemma_space_left(after);
        lemma_insert_takes_space(recs, record);
    }
}

} // verus!
