//! Compaction: the live records slide towards the start of the body, in the
//! order of their offsets, until no hole is left between them.
//!
//! An empty record shares its offset with the record behind it. So that
//! packed records stay where they are when they are packed again, the empty
//! records come first among the records at one offset; the slot id settles
//! what is left. `compacted` says what compaction leaves, byte for byte, and
//! `lemma_compacting_packed` that it leaves a packed page as it is.

use crate::format::{
    free_start, header_size, num_slots, records, same_outside, slot_in_use, slot_length,
    slot_live, slot_meta_offset, slot_offset, stored_free_start, used_bytes, used_upto,
    well_formed, with_bytes, Offset, SlotId, SlotLength, BYTES_PER_SLOT_META,
    FIXED_PAGE_META_SIZE, PAGE_SIZE, SLOT_IN_USE_VALID,
};
use crate::accounting::{lemma_packed_covers, slot_covers};
use crate::page::Page;
use vstd::prelude::*;

verus! {

/// A live record: its slot, where it lies, and how long it is.
#[derive(Clone, Copy)]
pub struct Extent {
    /// The slot that holds the record.
    pub slot_id: SlotId,
    /// Position of the record's first byte.
    pub offset: usize,
    /// Number of bytes of the record.
    pub length: usize,
}

/// Total length of the first `upto` extents of `list`.
pub open spec fn total_length(list: Seq<Extent>, upto: int) -> int
    decreases upto,
{
    if upto <= 0 {
        0
    } else {
        total_length(list, upto - 1) + list[upto - 1].length
    }
}

/// `extent` is what the directory of `bytes` stores for a live slot.
pub open spec fn is_extent_of(bytes: Seq<u8>, extent: Extent) -> bool {
    &&& slot_live(bytes, extent.slot_id as int)
    &&& extent.offset == slot_offset(bytes, extent.slot_id as int)
    &&& extent.length == slot_length(bytes, extent.slot_id as int)
}

/// The place of a record in the order in which compaction packs: by offset;
/// at the same offset the empty records first; then by slot id. A lower key
/// is packed first.
pub open spec fn order_key(offset: int, length: int, slot: int) -> int {
    (2 * offset + if length > 0 {
        1int
    } else {
        0int
    }) * 65536 + slot
}

/// The key of what the directory stores for `slot`.
pub open spec fn slot_key(bytes: Seq<u8>, slot: int) -> int {
    order_key(slot_offset(bytes, slot), slot_length(bytes, slot), slot)
}

/// The key of an extent.
pub open spec fn extent_key(extent: Extent) -> int {
    order_key(extent.offset as int, extent.length as int, extent.slot_id as int)
}

/// Total length of the live records among the first `upto` slots whose key
/// is below `key`.
pub open spec fn length_below(bytes: Seq<u8>, key: int, upto: int) -> int
    decreases upto,
{
    if upto <= 0 {
        0
    } else {
        length_below(bytes, key, upto - 1) + if slot_live(bytes, upto - 1) && slot_key(
            bytes,
            upto - 1,
        ) < key {
            slot_length(bytes, upto - 1)
        } else {
            0
        }
    }
}

/// Total length of the live records among the first `upto` slots that lie
/// before `offset`.
pub open spec fn length_before(bytes: Seq<u8>, offset: int, upto: int) -> int
    decreases upto,
{
    if upto <= 0 {
        0
    } else {
        length_before(bytes, offset, upto - 1) + if slot_live(bytes, upto - 1) && slot_offset(
            bytes,
            upto - 1,
        ) < offset {
            slot_length(bytes, upto - 1)
        } else {
            0
        }
    }
}

/// Where the record of the live slot `slot` lies once the page is compacted:
/// behind the header and the live records that lie before it.
pub open spec fn packed_offset(bytes: Seq<u8>, slot: int) -> int {
    header_size(bytes) + length_before(bytes, slot_offset(bytes, slot), num_slots(bytes))
}

/// `list` holds every live slot below `upto` once, and no other, in
/// ascending order of key; the lengths before each extent add up to those of
/// the live records below `upto` with a lower key.
#[verifier::opaque]
pub open spec fn lists_live_slots(bytes: Seq<u8>, list: Seq<Extent>, upto: int) -> bool {
    &&& forall|k: int|
        0 <= k < list.len() ==> is_extent_of(bytes, #[trigger] list[k]) && list[k].slot_id < upto
    &&& forall|i: int, j: int|
        0 <= i < j < list.len() ==> extent_key(#[trigger] list[i]) < extent_key(
            #[trigger] list[j],
        )
    &&& forall|k: int|
        0 <= k < list.len() ==> total_length(list, k) == length_below(
            bytes,
            extent_key(#[trigger] list[k]),
            upto,
        )
    &&& forall|i: int, j: int|
        0 <= i < list.len() && 0 <= j < list.len() && i != j ==> (#[trigger] list[i]).slot_id
            != (#[trigger] list[j]).slot_id
    &&& forall|s: int|
        0 <= s < upto && #[trigger] slot_live(bytes, s) ==> exists|k: int|
            0 <= k < list.len() && (#[trigger] list[k]).slot_id == s
    &&& total_length(list, list.len() as int) == used_upto(bytes, upto)
}

/// The lengths of a list with one extent put in add up to those of the list
/// and that of the extent.
proof fn lemma_total_length_insert(list: Seq<Extent>, at: int, extent: Extent, upto: int)
    requires
        0 <= at <= list.len(),
        0 <= upto <= list.len() + 1,
    ensures
        total_length(list.insert(at, extent), upto) == if upto <= at {
            total_length(list, upto)
        } else {
            total_length(list, upto - 1) + extent.length
        },
    decreases upto,
{
    if upto > 0 {
        lemma_total_length_insert(list, at, extent, upto - 1);
    }
}

/// The empty list holds the live slots below slot 0.
proof fn lemma_lists_none(bytes: Seq<u8>)
    ensures
        lists_live_slots(bytes, Seq::empty(), 0),
{
    reveal(lists_live_slots);
}

/// A list of the live slots below `upto` is one of those below `upto + 1`
/// where slot `upto` is not live.
proof fn lemma_lists_skip(bytes: Seq<u8>, list: Seq<Extent>, upto: int)
    requires
        lists_live_slots(bytes, list, upto),
        !slot_live(bytes, upto),
    ensures
        lists_live_slots(bytes, list, upto + 1),
{
    reveal(lists_live_slots);
}

/// Two keys that the same live records among the first `upto` slots lie
/// below have the same total length below them.
proof fn lemma_length_below_agree(bytes: Seq<u8>, key: int, other: int, upto: int)
    requires
        forall|t: int|
            0 <= t < upto && #[trigger] slot_live(bytes, t) ==> (slot_key(bytes, t) < key
                <==> slot_key(bytes, t) < other),
    ensures
        length_below(bytes, key, upto) == length_below(bytes, other, upto),
    decreases upto,
{
    if upto > 0 {
        lemma_length_below_agree(bytes, key, other, upto - 1);
    }
}

/// A key that every live record among the first `upto` slots lies below has
/// the total length of them all below it.
proof fn lemma_length_below_all(bytes: Seq<u8>, key: int, upto: int)
    requires
        forall|t: int| 0 <= t < upto && #[trigger] slot_live(bytes, t) ==> slot_key(bytes, t) < key,
    ensures
        length_below(bytes, key, upto) == used_upto(bytes, upto),
    decreases upto,
{
    if upto > 0 {
        lemma_length_below_all(bytes, key, upto - 1);
    }
}

/// Before the extent of slot `upto` is put in at `at`, the lengths before
/// `at` add up to those of the live records below `upto` that the extent
/// comes behind.
#[verifier::spinoff_prover]
#[verifier::rlimit(30)]
proof fn lemma_insert_place(bytes: Seq<u8>, list: Seq<Extent>, upto: int, at: int, extent: Extent)
    requires
        insert_at(bytes, list, upto, at, extent),
    ensures
        total_length(list, at) == length_below(bytes, extent_key(extent), upto),
{
    reveal(lists_live_slots);
    if at == list.len() {
        assert forall|t: int| 0 <= t < upto && #[trigger] slot_live(bytes, t) implies slot_key(
            bytes,
            t,
        ) < extent_key(extent) by {
            let k = choose|k: int| 0 <= k < list.len() && (#[trigger] list[k]).slot_id == t;
            assert(is_extent_of(bytes, list[k]));
        }
        lemma_length_below_all(bytes, extent_key(extent), upto);
    } else {
        assert forall|t: int| 0 <= t < upto && #[trigger] slot_live(bytes, t) implies (slot_key(
            bytes,
            t,
        ) < extent_key(extent) <==> slot_key(bytes, t) < extent_key(list[at])) by {
            let k = choose|k: int| 0 <= k < list.len() && (#[trigger] list[k]).slot_id == t;
            assert(is_extent_of(bytes, list[k]));
            if k < at {
                assert(extent_key(list[k]) < extent_key(list[at]));
            } else if k > at {
                assert(extent_key(list[at]) < extent_key(list[k]));
            }
        }
        lemma_length_below_agree(bytes, extent_key(extent), extent_key(list[at]), upto);
        assert(total_length(list, at) == length_below(bytes, extent_key(list[at]), upto));
    }
}

/// What putting the extent of the live slot `upto` into a list of the live
/// slots below `upto` starts from: the extent comes behind the extents
/// before `at` and before those from `at` on.
pub open spec fn insert_at(
    bytes: Seq<u8>,
    list: Seq<Extent>,
    upto: int,
    at: int,
    extent: Extent,
) -> bool {
    &&& lists_live_slots(bytes, list, upto)
    &&& is_extent_of(bytes, extent)
    &&& extent.slot_id == upto
    &&& 0 <= at <= list.len()
    &&& forall|k: int| 0 <= k < at ==> extent_key(#[trigger] list[k]) < extent_key(extent)
    &&& forall|k: int| at <= k < list.len() ==> extent_key(#[trigger] list[k]) > extent_key(extent)
}

/// With the extent put in, the list is in ascending order of key.
#[verifier::spinoff_prover]
#[verifier::rlimit(30)]
proof fn lemma_insert_sorted(bytes: Seq<u8>, list: Seq<Extent>, upto: int, at: int, extent: Extent)
    requires
        insert_at(bytes, list, upto, at, extent),
    ensures
        forall|i: int, j: int|
            0 <= i < j < list.insert(at, extent).len() ==> extent_key(
                #[trigger] list.insert(at, extent)[i],
            ) < extent_key(#[trigger] list.insert(at, extent)[j]),
{
    reveal(lists_live_slots);
    let grown = list.insert(at, extent);
    assert forall|i: int, j: int| 0 <= i < j < grown.len() implies extent_key(
        #[trigger] grown[i],
    ) < extent_key(#[trigger] grown[j]) by {
        if j < at {
            assert(grown[i] == list[i] && grown[j] == list[j]);
        } else if j == at {
            assert(grown[i] == list[i] && grown[j] == extent);
        } else if i < at {
            assert(grown[i] == list[i] && grown[j] == list[j - 1]);
            assert(i == j - 1 || extent_key(list[i]) < extent_key(list[j - 1]));
        } else if i == at {
            assert(grown[i] == extent && grown[j] == list[j - 1]);
        } else {
            assert(grown[i] == list[i - 1] && grown[j] == list[j - 1]);
        }
    }
}

/// With the extent put in, the lengths before each extent add up to those
/// of the live records up to slot `upto` with a lower key.
#[verifier::spinoff_prover]
#[verifier::rlimit(30)]
proof fn lemma_insert_positions(
    bytes: Seq<u8>,
    list: Seq<Extent>,
    upto: int,
    at: int,
    extent: Extent,
)
    requires
        insert_at(bytes, list, upto, at, extent),
    ensures
        forall|k: int|
            0 <= k < list.insert(at, extent).len() ==> total_length(list.insert(at, extent), k)
                == length_below(bytes, extent_key(#[trigger] list.insert(at, extent)[k]), upto + 1),
{
    lemma_insert_place(bytes, list, upto, at, extent);
    let grown = list.insert(at, extent);
    assert forall|k: int| 0 <= k < grown.len() implies total_length(grown, k) == length_below(
        bytes,
        extent_key(#[trigger] grown[k]),
        upto + 1,
    ) by {
        lemma_total_length_insert(list, at, extent, k);
        assert(slot_key(bytes, upto) == extent_key(extent));
        if k < at {
            assert(grown[k] == list[k]);
            assert(extent_key(list[k]) < extent_key(extent));
            assert(total_length(list, k) == length_below(bytes, extent_key(list[k]), upto)) by {
                reveal(lists_live_slots);
            }
        } else if k > at {
            assert(grown[k] == list[k - 1]);
            assert(extent_key(list[k - 1]) > extent_key(extent));
            assert(total_length(list, k - 1) == length_below(
                bytes,
                extent_key(list[k - 1]),
                upto,
            )) by {
                reveal(lists_live_slots);
            }
        } else {
            assert(grown[k] == extent);
        }
    }
}

/// With the extent put in, the list holds every live slot up to `upto`
/// once, and no other.
#[verifier::spinoff_prover]
#[verifier::rlimit(30)]
proof fn lemma_insert_members(bytes: Seq<u8>, list: Seq<Extent>, upto: int, at: int, extent: Extent)
    requires
        insert_at(bytes, list, upto, at, extent),
    ensures
        forall|k: int|
            0 <= k < list.insert(at, extent).len() ==> is_extent_of(
                bytes,
                #[trigger] list.insert(at, extent)[k],
            ) && list.insert(at, extent)[k].slot_id < upto + 1,
        forall|i: int, j: int|
            0 <= i < list.insert(at, extent).len() && 0 <= j < list.insert(at, extent).len() && i
                != j ==> (#[trigger] list.insert(at, extent)[i]).slot_id != (#[trigger] list.insert(
                at,
                extent,
            )[j]).slot_id,
        forall|s: int|
            0 <= s < upto + 1 && #[trigger] slot_live(bytes, s) ==> exists|k: int|
                0 <= k < list.insert(at, extent).len() && (#[trigger] list.insert(
                    at,
                    extent,
                )[k]).slot_id == s,
        total_length(list.insert(at, extent), list.insert(at, extent).len() as int) == used_upto(
            bytes,
            upto + 1,
        ),
{
    reveal(lists_live_slots);
    let grown = list.insert(at, extent);
    lemma_total_length_insert(list, at, extent, grown.len() as int);
    assert forall|k: int| 0 <= k < grown.len() implies is_extent_of(bytes, #[trigger] grown[k])
        && grown[k].slot_id < upto + 1 by {
        if k < at {
            assert(grown[k] == list[k]);
        } else if k > at {
            assert(grown[k] == list[k - 1]);
        }
    }
    assert forall|i: int, j: int|
        0 <= i < grown.len() && 0 <= j < grown.len() && i != j implies (
    #[trigger] grown[i]).slot_id != (#[trigger] grown[j]).slot_id by {
        let a = if i < at { i } else { i - 1 };
        let b = if j < at { j } else { j - 1 };
        if i != at && j != at {
            assert(grown[i] == list[a] && grown[j] == list[b]);
        } else if i == at {
            assert(grown[j] == list[b]);
        } else {
            assert(grown[i] == list[a]);
        }
    }
    assert forall|s: int| 0 <= s < upto + 1 && #[trigger] slot_live(bytes, s) implies exists|
        k: int,
    |
        0 <= k < grown.len() && (#[trigger] grown[k]).slot_id == s by {
        if s == upto {
            assert(grown[at].slot_id == s);
        } else {
            let k = choose|k: int| 0 <= k < list.len() && (#[trigger] list[k]).slot_id == s;
            if k < at {
                assert(grown[k].slot_id == s);
            } else {
                assert(grown[k + 1] == list[k]);
            }
        }
    }
}

/// A list of the live slots below `upto`, with the extent of the live slot
/// `upto` put in behind the extents of a lower key, is a list of the live
/// slots below `upto + 1`.
#[verifier::spinoff_prover]
#[verifier::rlimit(30)]
proof fn lemma_lists_insert(bytes: Seq<u8>, list: Seq<Extent>, upto: int, at: int, extent: Extent)
    requires
        insert_at(bytes, list, upto, at, extent),
    ensures
        lists_live_slots(bytes, list.insert(at, extent), upto + 1),
{
    lemma_insert_sorted(bytes, list, upto, at, extent);
    lemma_insert_positions(bytes, list, upto, at, extent);
    lemma_insert_members(bytes, list, upto, at, extent);
    reveal(lists_live_slots);
}

/// The extent of slot `upto` comes behind every extent before `at` where it
/// comes behind the one just before `at`.
proof fn lemma_insert_at(bytes: Seq<u8>, list: Seq<Extent>, upto: int, at: int, extent: Extent)
    requires
        lists_live_slots(bytes, list, upto),
        is_extent_of(bytes, extent),
        extent.slot_id == upto,
        0 <= at <= list.len(),
        at > 0 ==> extent_key(list[at - 1]) <= extent_key(extent),
        forall|k: int| at <= k < list.len() ==> extent_key(#[trigger] list[k]) > extent_key(extent),
    ensures
        insert_at(bytes, list, upto, at, extent),
{
    reveal(lists_live_slots);
    assert forall|k: int| 0 <= k < at implies extent_key(#[trigger] list[k]) < extent_key(
        extent,
    ) by {
        assert(list[at - 1].slot_id < upto);
        if k < at - 1 {
            assert(extent_key(list[k]) < extent_key(list[at - 1]));
        }
    }
}

/// The first `i` lengths add up to no more than the first `j`, and to less
/// by the length of extent `i` where `i < j`.
proof fn lemma_total_length_grows(list: Seq<Extent>, i: int, j: int)
    requires
        0 <= i <= j <= list.len(),
    ensures
        total_length(list, i) <= total_length(list, j),
        i < j ==> total_length(list, i) + list[i].length <= total_length(list, j),
    decreases j - i,
{
    if i < j {
        lemma_total_length_grows(list, i, j - 1);
    }
}

/// Where the record that `list` names at `index` lies once the records
/// before it are packed.
pub open spec fn packed_at(bytes: Seq<u8>, list: Seq<Extent>, index: int) -> int {
    header_size(bytes) + total_length(list, index)
}

/// The entry of `slot` in `after` is byte for byte that in `before`, but for
/// the stored offset where the slot is live.
pub open spec fn entry_kept(before: Seq<u8>, after: Seq<u8>, slot: int) -> bool {
    let base = slot_meta_offset(slot);
    &&& after[base + 2] == before[base + 2]
    &&& after[base + 3] == before[base + 3]
    &&& after[base + 4] == before[base + 4]
    &&& after[base + 5] == before[base + 5]
    &&& !slot_live(before, slot) ==> after[base] == before[base] && after[base + 1] == before[base
        + 1]
}

/// `after` is `before` compacted. Every live record lies at its packed
/// offset with the bytes that it had, and its entry stores that offset; the
/// free-start pointer stands behind the last record. Nothing else differs:
/// the fixed header but for the free-start pointer, every entry but for the
/// offsets of the live slots, and the bytes from the new free-start pointer
/// on are byte for byte those of `before`.
#[verifier::opaque]
pub open spec fn compacted(before: Seq<u8>, after: Seq<u8>) -> bool {
    &&& well_formed(after)
    &&& forall|i: int| 0 <= i < 4 || 6 <= i < 8 ==> after[i] == before[i]
    &&& stored_free_start(after) == header_size(before) + used_bytes(before)
    &&& free_start(after) == header_size(before) + used_bytes(before)
    &&& forall|s: int|
        #![trigger slot_meta_offset(s)]
        0 <= s < num_slots(before) ==> entry_kept(before, after, s)
    &&& forall|s: int|
        slot_live(before, s) ==> #[trigger] slot_offset(after, s) == packed_offset(before, s)
    &&& records(after) == records(before)
    &&& forall|i: int|
        header_size(before) + used_bytes(before) <= i < PAGE_SIZE ==> after[i] == before[i]
    &&& order_kept(before, after)
}

/// A live record of `before` that lay before another does not lie behind it
/// in `after`.
pub open spec fn order_kept(before: Seq<u8>, after: Seq<u8>) -> bool {
    forall|s: int, t: int|
        #![trigger slot_offset(after, s), slot_offset(after, t)]
        slot_live(before, s) && slot_live(before, t) && slot_offset(before, s) < slot_offset(
            before,
            t,
        ) ==> slot_offset(after, s) <= slot_offset(after, t)
}

/// The record that `list` names at `index` lies packed in `cur`, with the
/// bytes that it had in `before`.
pub open spec fn moved(before: Seq<u8>, cur: Seq<u8>, list: Seq<Extent>, index: int) -> bool {
    let to = packed_at(before, list, index);
    &&& slot_offset(cur, list[index].slot_id as int) == to
    &&& cur.subrange(to, to + list[index].length) == before.subrange(
        list[index].offset as int,
        list[index].offset + list[index].length,
    )
}

/// `cur` is `before` with the first `done` records of `list` packed: those
/// lie at the start of the body with their new offsets stored; the others
/// lie where they lay, none of them before the end of the packed ones.
#[verifier::opaque]
pub open spec fn compacting(before: Seq<u8>, cur: Seq<u8>, list: Seq<Extent>, done: int) -> bool {
    let pos = packed_at(before, list, done);
    &&& cur.len() == PAGE_SIZE
    &&& pos <= free_start(before)
    &&& forall|i: int| 0 <= i < 8 || pos <= i < PAGE_SIZE ==> cur[i] == before[i]
    &&& forall|s: int|
        #![trigger slot_meta_offset(s)]
        0 <= s < num_slots(before) ==> entry_kept(before, cur, s)
    &&& forall|j: int| 0 <= j < done ==> #[trigger] moved(before, cur, list, j)
    &&& forall|j: int|
        done <= j < list.len() ==> slot_offset(cur, (#[trigger] list[j]).slot_id as int)
            == list[j].offset
    &&& forall|j: int|
        done <= j < list.len() && (#[trigger] list[j]).length > 0 ==> pos <= list[j].offset
}

/// Before any record is packed, the page is as it was.
proof fn lemma_compact_start(before: Seq<u8>, list: Seq<Extent>)
    requires
        well_formed(before),
        lists_live_slots(before, list, num_slots(before)),
    ensures
        compacting(before, before, list, 0),
{
    reveal(compacting);
    reveal(lists_live_slots);
}

/// What a step of the compaction starts from and does: `prev` is on its way
/// with `done` records packed, `mid` is `prev` with the next record copied
/// to its place, `cur` is `mid` with the new offset stored.
pub open spec fn compact_step(
    before: Seq<u8>,
    prev: Seq<u8>,
    mid: Seq<u8>,
    cur: Seq<u8>,
    list: Seq<Extent>,
    done: int,
) -> bool {
    &&& well_formed(before)
    &&& lists_live_slots(before, list, num_slots(before))
    &&& 0 <= done < list.len()
    &&& compacting(before, prev, list, done)
    &&& mid == with_bytes(
        prev,
        packed_at(before, list, done),
        prev.subrange(list[done].offset as int, list[done].offset + list[done].length),
    )
    &&& same_outside(
        mid,
        cur,
        slot_meta_offset(list[done].slot_id as int),
        slot_meta_offset(list[done].slot_id as int) + 5,
    )
    &&& slot_offset(cur, list[done].slot_id as int) == packed_at(before, list, done)
    &&& slot_length(cur, list[done].slot_id as int) == list[done].length
    &&& slot_in_use(cur, list[done].slot_id as int) == SLOT_IN_USE_VALID
}

/// A step changes the entry of the record that it packs and the bytes that
/// the record comes to lie on, and nothing else; the entry lies in the
/// directory, the record behind it.
#[verifier::spinoff_prover]
#[verifier::rlimit(30)]
proof fn lemma_step_frame(
    before: Seq<u8>,
    prev: Seq<u8>,
    mid: Seq<u8>,
    cur: Seq<u8>,
    list: Seq<Extent>,
    done: int,
)
    requires
        compact_step(before, prev, mid, cur, list, done),
    ensures
        is_extent_of(before, list[done]),
        slot_meta_offset(list[done].slot_id as int) + 6 <= header_size(before) <= packed_at(
            before,
            list,
            done,
        ),
        packed_at(before, list, done + 1) == packed_at(before, list, done) + list[done].length
            <= free_start(before),
        list[done].length > 0 ==> packed_at(before, list, done) <= list[done].offset,
        cur.len() == PAGE_SIZE,
        forall|i: int|
            0 <= i < PAGE_SIZE && !(packed_at(before, list, done) <= i < packed_at(
                before,
                list,
                done + 1,
            )) && !(slot_meta_offset(list[done].slot_id as int) <= i < slot_meta_offset(
                list[done].slot_id as int,
            ) + 5) ==> cur[i] == prev[i],
        forall|i: int|
            packed_at(before, list, done) <= i < packed_at(before, list, done + 1) ==> cur[i]
                == prev[i - packed_at(before, list, done) + list[done].offset],
        forall|i: int|
            0 <= i < 8 || packed_at(before, list, done) <= i < PAGE_SIZE ==> prev[i] == before[i],
{
    reveal(compacting);
    reveal(lists_live_slots);
    assert(is_extent_of(before, list[done]));
    lemma_total_length_grows(list, 0, done);
}

/// Packing the next record keeps the page on its way.
#[verifier::spinoff_prover]
#[verifier::rlimit(30)]
proof fn lemma_compact_step(
    before: Seq<u8>,
    prev: Seq<u8>,
    mid: Seq<u8>,
    cur: Seq<u8>,
    list: Seq<Extent>,
    done: int,
)
    requires
        compact_step(before, prev, mid, cur, list, done),
    ensures
        compacting(before, cur, list, done + 1),
{
    lemma_step_frame(before, prev, mid, cur, list, done);
    let sid = list[done].slot_id as int;
    let off = list[done].offset as int;
    let len = list[done].length as int;
    let pos = packed_at(before, list, done);
    let base = slot_meta_offset(sid);
    assert forall|s: int|
        #![trigger slot_meta_offset(s)]
        0 <= s < num_slots(before) implies entry_kept(before, cur, s) by {
        reveal(compacting);
        assert(entry_kept(before, prev, s));
        if s != sid {
            assert(slot_meta_offset(s) + 6 <= base || base + 6 <= slot_meta_offset(s));
        } else {
            // The entry is written with the length and the flag that it had.
            assert(slot_length(cur, s) == slot_length(prev, s));
            assert(slot_in_use(cur, s) == slot_in_use(prev, s));
            assert(cur[base + 5] == prev[base + 5]);
        }
    }
    assert forall|j: int| 0 <= j < done + 1 implies #[trigger] moved(before, cur, list, j) by {
        if j < done {
            let to = packed_at(before, list, j);
            let entry = slot_meta_offset(list[j].slot_id as int);
            assert(moved(before, prev, list, j)) by {
                reveal(compacting);
            }
            lemma_total_length_grows(list, j, done);
            lemma_total_length_grows(list, 0, j);
            assert(list[j].slot_id != list[done].slot_id && is_extent_of(before, list[j])) by {
                reveal(lists_live_slots);
            }
            assert(entry + 6 <= base || base + 6 <= entry);
            assert(cur.subrange(to, to + list[j].length) =~= prev.subrange(
                to,
                to + list[j].length,
            ));
        } else {
            assert(cur.subrange(pos, pos + len) =~= before.subrange(off, off + len));
        }
    }
    assert forall|j: int| done + 1 <= j < list.len() implies slot_offset(
        cur,
        (#[trigger] list[j]).slot_id as int,
    ) == list[j].offset && (list[j].length > 0 ==> pos + len <= list[j].offset) by {
        reveal(compacting);
        reveal(lists_live_slots);
        let entry = slot_meta_offset(list[j].slot_id as int);
        assert(list[j].slot_id != list[done].slot_id);
        assert(is_extent_of(before, list[j]));
        assert(entry + 6 <= base || base + 6 <= entry);
        if list[j].length > 0 && len > 0 {
            // The two records lie apart, and this one does not lie first.
            assert(off <= list[j].offset);
            assert(slot_live(before, list[j].slot_id as int) && slot_live(before, sid));
        }
    }
    assert(compacting(before, cur, list, done + 1)) by {
        reveal(compacting);
    }
}

/// The place of slot `s` in `list`.
pub open spec fn index_of(list: Seq<Extent>, s: int) -> int {
    choose|j: int| 0 <= j < list.len() && (#[trigger] list[j]).slot_id == s
}

/// Once every record is packed, the header and the flags and lengths of the
/// directory are what they were.
proof fn lemma_compact_kept(before: Seq<u8>, last: Seq<u8>, after: Seq<u8>, list: Seq<Extent>)
    requires
        well_formed(before),
        lists_live_slots(before, list, num_slots(before)),
        compacting(before, last, list, list.len() as int),
        same_outside(last, after, 4, 6),
        stored_free_start(after) == packed_at(before, list, list.len() as int),
    ensures
        after.len() == PAGE_SIZE,
        forall|i: int| 0 <= i < 4 || 6 <= i < 8 ==> after[i] == before[i],
        num_slots(after) == num_slots(before),
        stored_free_start(after) == header_size(before) + used_bytes(before),
        free_start(after) == header_size(before) + used_bytes(before),
        forall|s: int|
            #![trigger slot_meta_offset(s)]
            0 <= s < num_slots(before) ==> entry_kept(before, after, s),
        forall|i: int|
            header_size(before) + used_bytes(before) <= i < PAGE_SIZE ==> after[i] == before[i],
{
    reveal(compacting);
    reveal(lists_live_slots);
    lemma_total_length_grows(list, 0, list.len() as int);
    assert forall|s: int|
        #![trigger slot_meta_offset(s)]
        0 <= s < num_slots(before) implies entry_kept(before, after, s) by {
        assert(entry_kept(before, last, s));
    }
}

/// Once every record is packed, the live slot `s` stores the packed place of
/// its record, and the record lies there with the bytes that it had.
#[verifier::spinoff_prover]
#[verifier::rlimit(30)]
proof fn lemma_compact_placed(
    before: Seq<u8>,
    last: Seq<u8>,
    after: Seq<u8>,
    list: Seq<Extent>,
    s: int,
)
    requires
        well_formed(before),
        lists_live_slots(before, list, num_slots(before)),
        compacting(before, last, list, list.len() as int),
        same_outside(last, after, 4, 6),
        slot_live(before, s),
    ensures
        0 <= index_of(list, s) < list.len(),
        list[index_of(list, s)].slot_id == s,
        list[index_of(list, s)].length == slot_length(before, s),
        list[index_of(list, s)].offset == slot_offset(before, s),
        slot_offset(after, s) == packed_at(before, list, index_of(list, s)),
        slot_offset(after, s) == packed_offset(before, s),
        header_size(before) <= slot_offset(after, s),
        slot_offset(after, s) + slot_length(before, s) <= packed_at(
            before,
            list,
            list.len() as int,
        ) <= PAGE_SIZE,
        after.subrange(slot_offset(after, s), slot_offset(after, s) + slot_length(before, s))
            == before.subrange(slot_offset(before, s), slot_offset(before, s) + slot_length(
            before,
            s,
        )),
{
    reveal(compacting);
    reveal(lists_live_slots);
    let j = index_of(list, s);
    assert(moved(before, last, list, j));
    lemma_total_length_grows(list, 0, j);
    lemma_total_length_grows(list, j, list.len() as int);
    assert(slot_offset(after, s) == slot_offset(last, s));
    assert(is_extent_of(before, list[j]));
    assert(extent_key(list[j]) == slot_key(before, s));
    lemma_below_is_before(before, s, num_slots(before));
}

/// Once every record is packed and the free-start pointer stands behind the
/// last, the page is compacted.
#[verifier::spinoff_prover]
#[verifier::rlimit(30)]
proof fn lemma_compact_done(before: Seq<u8>, last: Seq<u8>, after: Seq<u8>, list: Seq<Extent>)
    requires
        well_formed(before),
        lists_live_slots(before, list, num_slots(before)),
        compacting(before, last, list, list.len() as int),
        same_outside(last, after, 4, 6),
        stored_free_start(after) == packed_at(before, list, list.len() as int),
    ensures
        compacted(before, after),
{
    reveal(compacted);
    lemma_compact_kept(before, last, after, list);
    assert forall|s: int| 0 <= s < num_slots(before) implies slot_in_use(after, s) == slot_in_use(
        before,
        s,
    ) && slot_length(after, s) == slot_length(before, s) by {
        assert(entry_kept(before, after, s));
    }
    assert forall|s: int| slot_live(before, s) implies #[trigger] slot_offset(after, s)
        == packed_offset(before, s) by {
        lemma_compact_placed(before, last, after, list, s);
    }
    assert forall|s: int| #[trigger] slot_live(after, s) implies header_size(after)
        <= slot_offset(after, s) && slot_offset(after, s) + slot_length(after, s) <= free_start(
        after,
    ) by {
        lemma_compact_placed(before, last, after, list, s);
    }
    assert forall|s: int, t: int|
        #[trigger] slot_live(after, s) && #[trigger] slot_live(after, t) && s
            != t implies crate::format::slots_disjoint(after, s, t) by {
        lemma_compact_placed(before, last, after, list, s);
        lemma_compact_placed(before, last, after, list, t);
        let j = index_of(list, s);
        let k = index_of(list, t);
        if j < k {
            lemma_total_length_grows(list, j, k);
        } else {
            lemma_total_length_grows(list, k, j);
        }
    }
    assert forall|s: int| 0 <= s < num_slots(before) implies #[trigger] records(after)[s]
        == records(before)[s] by {
        if slot_live(before, s) {
            lemma_compact_placed(before, last, after, list, s);
        }
    }
    assert(records(after) =~= records(before));
    assert forall|s: int, t: int|
        #![trigger slot_offset(after, s), slot_offset(after, t)]
        slot_live(before, s) && slot_live(before, t) && slot_offset(before, s) < slot_offset(
            before,
            t,
        ) implies slot_offset(after, s) <= slot_offset(after, t) by {
        lemma_compact_placed(before, last, after, list, s);
        lemma_compact_placed(before, last, after, list, t);
        let j = index_of(list, s);
        let k = index_of(list, t);
        assert(j < k) by {
            reveal(lists_live_slots);
        }
        lemma_total_length_grows(list, j, k);
    }
}

/// The live records among the first `upto` slots are as long together in
/// two pages whose entries agree on flag and length.
proof fn lemma_used_upto_same(a: Seq<u8>, b: Seq<u8>, upto: int)
    requires
        forall|s: int|
            #![trigger slot_live(a, s)]
            0 <= s < upto ==> slot_live(a, s) == slot_live(b, s) && slot_length(a, s)
                == slot_length(b, s),
    ensures
        used_upto(a, upto) == used_upto(b, upto),
    decreases upto,
{
    if upto > 0 {
        lemma_used_upto_same(a, b, upto - 1);
    }
}

/// A higher key has no less below it.
proof fn lemma_length_below_grows(bytes: Seq<u8>, key: int, higher: int, upto: int)
    requires
        key <= higher,
    ensures
        0 <= length_below(bytes, key, upto) <= length_below(bytes, higher, upto),
    decreases upto,
{
    if upto > 0 {
        lemma_length_below_grows(bytes, key, higher, upto - 1);
    }
}

/// A key above that of the live slot `t` has the record of `t` below it, and
/// all that the key of `t` has below it.
proof fn lemma_packed_apart(bytes: Seq<u8>, t: int, key: int, upto: int)
    requires
        0 <= t < upto,
        slot_live(bytes, t),
        slot_key(bytes, t) < key,
    ensures
        length_below(bytes, slot_key(bytes, t), upto) + slot_length(bytes, t) <= length_below(
            bytes,
            key,
            upto,
        ),
    decreases upto,
{
    if upto - 1 == t {
        lemma_length_below_grows(bytes, slot_key(bytes, t), key, t);
    } else {
        lemma_packed_apart(bytes, t, key, upto - 1);
    }
}

/// In a well-formed page the records with a key below that of the live slot
/// `slot` are, but for empty ones, the records that lie before it: both are
/// as long together.
pub proof fn lemma_below_is_before(bytes: Seq<u8>, slot: int, upto: int)
    requires
        well_formed(bytes),
        slot_live(bytes, slot),
        upto <= num_slots(bytes),
    ensures
        length_below(bytes, slot_key(bytes, slot), upto) == length_before(
            bytes,
            slot_offset(bytes, slot),
            upto,
        ),
    decreases upto,
{
    if upto > 0 {
        lemma_below_is_before(bytes, slot, upto - 1);
        let other = upto - 1;
        if slot_live(bytes, other) && other != slot && slot_offset(bytes, other) == slot_offset(
            bytes,
            slot,
        ) {
            // Two records at one offset lie apart: one of them is empty.
            assert(crate::format::slots_disjoint(bytes, other, slot));
        }
    }
}

/// Two pages whose entries agree on flag and length, and two offsets, one
/// for each, that the same records of one byte or more lie before, have the
/// same total length before the offsets.
proof fn lemma_length_before_same(a: Seq<u8>, at_a: int, b: Seq<u8>, at_b: int, upto: int)
    requires
        forall|t: int|
            #![trigger slot_live(a, t)]
            0 <= t < upto ==> {
                &&& slot_live(a, t) == slot_live(b, t)
                &&& slot_length(a, t) == slot_length(b, t)
                &&& slot_live(a, t) && slot_length(a, t) > 0 ==> (slot_offset(a, t) < at_a
                    <==> slot_offset(b, t) < at_b)
            },
    ensures
        length_before(a, at_a, upto) == length_before(b, at_b, upto),
    decreases upto,
{
    if upto > 0 {
        lemma_length_before_same(a, at_a, b, at_b, upto - 1);
    }
}

/// The live records lie packed: each where compaction would put it, with
/// the free-start pointer behind the last.
pub open spec fn lies_packed(bytes: Seq<u8>) -> bool {
    &&& stored_free_start(bytes) == header_size(bytes) + used_bytes(bytes)
    &&& forall|s: int|
        slot_live(bytes, s) ==> #[trigger] slot_offset(bytes, s) == packed_offset(bytes, s)
}

/// The records of a compacted page lie packed, and they are as long
/// together as they were.
#[verifier::spinoff_prover]
#[verifier::rlimit(30)]
pub proof fn lemma_compacted_is_packed(before: Seq<u8>, after: Seq<u8>)
    requires
        well_formed(before),
        compacted(before, after),
    ensures
        well_formed(after),
        num_slots(after) == num_slots(before),
        used_bytes(after) == used_bytes(before),
        lies_packed(after),
{
    reveal(compacted);
    let n = num_slots(before);
    assert forall|s: int|
        #![trigger slot_meta_offset(s)]
        0 <= s < n implies slot_live(before, s) == slot_live(after, s) && slot_length(before, s)
        == slot_length(after, s) by {
        assert(entry_kept(before, after, s));
    }
    lemma_used_upto_same(before, after, n);
    assert forall|s: int| slot_live(after, s) implies #[trigger] slot_offset(after, s)
        == packed_offset(after, s) by {
        assert(entry_kept(before, after, s));
        assert(slot_live(before, s));
        assert(slot_offset(after, s) == packed_offset(before, s));
        lemma_below_is_before(before, s, n);
        assert forall|t: int|
            #![trigger slot_live(before, t)]
            0 <= t < n implies {
            &&& slot_live(before, t) == slot_live(after, t)
            &&& slot_length(before, t) == slot_length(after, t)
            &&& slot_live(before, t) && slot_length(before, t) > 0 ==> (slot_offset(before, t)
                < slot_offset(before, s) <==> slot_offset(after, t) < slot_offset(after, s))
        } by {
            assert(entry_kept(before, after, t));
            if slot_live(before, t) && slot_length(before, t) > 0 && t != s {
                assert(slot_offset(after, t) == packed_offset(before, t));
                lemma_below_is_before(before, t, n);
                assert(crate::format::slots_disjoint(before, t, s));
                if slot_key(before, t) < slot_key(before, s) {
                    lemma_packed_apart(before, t, slot_key(before, s), n);
                } else {
                    lemma_packed_apart(before, s, slot_key(before, t), n);
                }
            }
        }
        lemma_length_before_same(
            before,
            slot_offset(before, s),
            after,
            slot_offset(after, s),
            n,
        );
    }
}

/// Compacting a page whose records lie packed changes no byte.
#[verifier::spinoff_prover]
#[verifier::rlimit(30)]
pub proof fn lemma_compacting_packed(packed: Seq<u8>, after: Seq<u8>)
    requires
        well_formed(packed),
        lies_packed(packed),
        compacted(packed, after),
    ensures
        after == packed,
{
    reveal(compacted);
    let hs = header_size(packed);
    let end = hs + used_bytes(packed);
    assert(after.len() == packed.len());
    assert forall|i: int| 0 <= i < PAGE_SIZE implies after[i] == packed[i] by {
        if i < 8 {
            assert(stored_free_start(after) == stored_free_start(packed));
        } else if i < hs {
            let s = (i - 8) / 6;
            let base = slot_meta_offset(s);
            assert(base <= i < base + 6);
            assert(entry_kept(packed, after, s));
            if slot_live(packed, s) {
                assert(slot_offset(after, s) == packed_offset(packed, s));
                assert(slot_offset(after, s) == slot_offset(packed, s));
            }
        } else if i < end {
            lemma_packed_covers(packed, i);
            let s = choose|s: int| slot_covers(packed, s, i);
            let from = slot_offset(packed, s);
            let to = from + slot_length(packed, s);
            assert(entry_kept(packed, after, s));
            assert(slot_offset(after, s) == packed_offset(packed, s));
            assert(records(after)[s] == records(packed)[s]);
            assert(after.subrange(from, to) == packed.subrange(from, to));
            assert(after.subrange(from, to)[i - from] == packed.subrange(from, to)[i - from]);
        }
    }
    assert(after =~= packed);
}

/// Compacting a compacted page changes no byte.
pub proof fn lemma_compaction_idempotent(before: Seq<u8>, once: Seq<u8>, twice: Seq<u8>)
    requires
        well_formed(before),
        compacted(before, once),
        compacted(once, twice),
    ensures
        twice == once,
{
    lemma_compacted_is_packed(before, once);
    lemma_compacting_packed(once, twice);
}

/// Whether `a` is packed after `b`: whether it lies at a higher offset, or at
/// the same offset and is not empty while `b` is, or at the same offset,
/// empty or not as `b` is, in a higher slot.
fn packs_after(a: Extent, b: Extent) -> (after: bool)
    ensures
        after == (extent_key(a) > extent_key(b)),
{
    if a.offset != b.offset {
        a.offset > b.offset
    } else if (a.length > 0) != (b.length > 0) {
        a.length > 0
    } else {
        a.slot_id > b.slot_id
    }
}

impl Page {
    /// Moves every live record towards the start of the body until no hole
    /// is left, stores the new offsets, and sets the free-start pointer
    /// behind the last record. The entries of free slots, the flags, lengths
    /// and padding bytes of all entries, and the bytes behind the new
    /// free-start pointer stay as they are. A page whose records lie packed
    /// is left as it is.
    pub(crate) fn compact(&mut self)
        requires
            well_formed(old(self)@),
        ensures
            compacted(old(self)@, final(self)@),
            well_formed(final(self)@),
            lies_packed(final(self)@),
            lies_packed(old(self)@) ==> final(self)@ == old(self)@,
    {
        let slot_count = self.get_num_slots();
        let body_start = FIXED_PAGE_META_SIZE + slot_count * BYTES_PER_SLOT_META;

        // In ascending order of offset no copy runs over a record that has
        // yet to move.
        let used = self.live_slots_by_offset();
        let ghost before = self@;
        proof {
            lemma_compact_start(before, used@);
        }

        let mut write_pos = body_start;
        let mut k: usize = 0;
        while k < used.len()
            invariant
                k <= used@.len(),
                well_formed(before),
                lists_live_slots(before, used@, num_slots(before)),
                compacting(before, self@, used@, k as int),
                write_pos == packed_at(before, used@, k as int),
            decreases used@.len() - k,
        {
            let extent = used[k];
            let ghost prev = self@;
            proof {
                reveal(compacting);
                reveal(lists_live_slots);
            }
            if extent.offset != write_pos {
                self.copy_within(extent.offset, extent.offset + extent.length, write_pos);
            }
            let ghost mid = self@;
            assert(mid =~= with_bytes(
                prev,
                write_pos as int,
                prev.subrange(extent.offset as int, extent.offset + extent.length),
            ));
            self.write_slot(
                extent.slot_id,
                write_pos as Offset,
                extent.length as SlotLength,
                SLOT_IN_USE_VALID,
            );
            proof {
                lemma_compact_step(before, prev, mid, self@, used@, k as int);
            }
            write_pos += extent.length;
            k += 1;
        }
        let ghost last = self@;
        proof {
            reveal(compacting);
        }
        self.set_free_start(write_pos);
        proof {
            lemma_compact_done(before, last, self@, used@);
            lemma_compacted_is_packed(before, self@);
            if lies_packed(before) {
                lemma_compacting_packed(before, self@);
            }
        }
    }

    /// The live slots with offset and length, in the order in which they are
    /// packed: by offset, at one offset the empty records first, then by
    /// slot id.
    pub(crate) fn live_slots_by_offset(&self) -> (used: Vec<Extent>)
        requires
            self@.len() == PAGE_SIZE,
        ensures
            lists_live_slots(self@, used@, num_slots(self@)),
    {
        let slot_count = self.get_num_slots();
        let mut used: Vec<Extent> = Vec::new();
        let mut i: usize = 0;
        proof {
            lemma_lists_none(self@);
        }
        while i < slot_count
            invariant
                i <= slot_count == num_slots(self@),
                slot_count <= u16::MAX,
                self@.len() == PAGE_SIZE,
                used@.len() <= i,
                lists_live_slots(self@, used@, i as int),
            decreases slot_count - i,
        {
            let sid = i as SlotId;
            let mut live: Option<Extent> = None;
            match self.get_slot_in_use(sid) {
                Some(flag) => {
                    if flag == SLOT_IN_USE_VALID {
                        match self.get_slot_offset_length(sid) {
                            Some((off, len)) => {
                                live = Some(
                                    Extent {
                                        slot_id: sid,
                                        offset: off as usize,
                                        length: len as usize,
                                    },
                                );
                            },
                            None => {},
                        }
                    }
                },
                None => {},
            }
            match live {
                Some(extent) => {
                    let mut at: usize = used.len();
                    while at > 0 && packs_after(used[at - 1], extent)
                        invariant
                            at <= used@.len(),
                            forall|k: int|
                                at <= k < used@.len() ==> extent_key(#[trigger] used@[k])
                                    > extent_key(extent),
                        decreases at,
                    {
                        at -= 1;
                    }
                    proof {
                        if at > 0 {
                            assert(extent_key(used@[at - 1]) <= extent_key(extent));
                        }
                        lemma_insert_at(self@, used@, i as int, at as int, extent);
                        lemma_lists_insert(self@, used@, i as int, at as int, extent);
                    }
                    used.insert(at, extent);
                },
                None => {
                    proof {
                        lemma_lists_skip(self@, used@, i as int);
                    }
                },
            }
            i += 1;
        }
        used
    }
}

} // verus!
