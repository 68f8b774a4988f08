//! The byte format of a page, as functions of its bytes.
//!
//! A page is `PAGE_SIZE` bytes. The first eight hold the page id, the number
//! of slots, the position of the first unused body byte and two reserved
//! bytes, each number as two little-endian bytes. The slot directory follows:
//! six bytes per slot (record offset, record length, in-use flag, padding).
//! The record body fills the rest.
//!
//! Everything a page does is stated over these functions, so two pages with
//! the same bytes are the same page.

use vstd::prelude::*;

verus! {

/// Size in bytes of every page.
pub const PAGE_SIZE: usize = 4096;

/// Identifier of a page.
pub type PageId = u16;

/// Identifier of a record within a page: an index into the slot directory.
pub type SlotId = u16;

/// A position inside a page.
pub type Offset = u16;

/// Byte length of a stored record.
pub type SlotLength = u16;

/// Position of the slot count in the fixed header.
pub const PAGE_META_NUM_SLOTS_OFFSET: usize = 2;

/// Position of the free-start pointer in the fixed header.
pub const PAGE_META_FREE_START_OFFSET: usize = 4;

/// Position of the reserved bytes in the fixed header.
pub const PAGE_META_RESERVED_OFFSET: usize = 6;

/// Size of the fixed header.
pub const FIXED_PAGE_META_SIZE: usize = 8;

/// Size of one slot directory entry.
pub const BYTES_PER_SLOT_META: usize = 6;

/// Position of the record offset within a slot entry.
pub const SLOT_OFFSET_OFFSET: usize = 0;

/// Position of the record length within a slot entry.
pub const SLOT_LENGTH_OFFSET: usize = 2;

/// Position of the in-use flag within a slot entry.
pub const SLOT_IN_USE_OFFSET: usize = 4;

/// Flag value of a slot that holds a live record.
pub const SLOT_IN_USE_VALID: u8 = 1;

/// Flag value of a slot that is free.
pub const SLOT_IN_USE_FREE: u8 = 0;

/// The number that the two bytes at `at` and `at + 1` hold, low byte first.
pub open spec fn le16(bytes: Seq<u8>, at: int) -> int {
    bytes[at] as int + 256 * (bytes[at + 1] as int)
}

/// The page id stored in the header.
pub open spec fn page_id(bytes: Seq<u8>) -> int {
    le16(bytes, 0)
}

/// The number of slot entries in the directory.
pub open spec fn num_slots(bytes: Seq<u8>) -> int {
    le16(bytes, PAGE_META_NUM_SLOTS_OFFSET as int)
}

/// The free-start pointer as the header stores it.
pub open spec fn stored_free_start(bytes: Seq<u8>) -> int {
    le16(bytes, PAGE_META_FREE_START_OFFSET as int)
}

/// Size of the fixed header and the slot directory together; the body starts
/// here.
pub open spec fn header_size(bytes: Seq<u8>) -> int {
    FIXED_PAGE_META_SIZE + num_slots(bytes) * BYTES_PER_SLOT_META
}

/// Position of the first unused body byte: the stored pointer, raised to the
/// start of the body where it lies before it, and lowered to the page's end
/// where it lies behind it.
pub open spec fn free_start(bytes: Seq<u8>) -> int {
    let stored = stored_free_start(bytes);
    let raw = if stored < header_size(bytes) {
        header_size(bytes)
    } else {
        stored
    };
    if raw < PAGE_SIZE {
        raw
    } else {
        PAGE_SIZE as int
    }
}

/// Position of the directory entry of `slot`.
pub open spec fn slot_meta_offset(slot: int) -> int {
    FIXED_PAGE_META_SIZE + slot * BYTES_PER_SLOT_META
}

/// `slot` has a directory entry, and the entry lies inside the page.
pub open spec fn slot_in_range(bytes: Seq<u8>, slot: int) -> bool {
    &&& 0 <= slot < num_slots(bytes)
    &&& slot_meta_offset(slot) + BYTES_PER_SLOT_META <= PAGE_SIZE
}

/// The record offset stored in the entry of `slot`.
pub open spec fn slot_offset(bytes: Seq<u8>, slot: int) -> int {
    le16(bytes, slot_meta_offset(slot) + SLOT_OFFSET_OFFSET)
}

/// The record length stored in the entry of `slot`.
pub open spec fn slot_length(bytes: Seq<u8>, slot: int) -> int {
    le16(bytes, slot_meta_offset(slot) + SLOT_LENGTH_OFFSET)
}

/// The in-use flag stored in the entry of `slot`.
pub open spec fn slot_in_use(bytes: Seq<u8>, slot: int) -> u8 {
    bytes[slot_meta_offset(slot) + SLOT_IN_USE_OFFSET]
}

/// `slot` holds a live record.
pub open spec fn slot_live(bytes: Seq<u8>, slot: int) -> bool {
    slot_in_range(bytes, slot) && slot_in_use(bytes, slot) == SLOT_IN_USE_VALID
}

/// The stored ranges of `s` and `t` share no byte.
pub open spec fn slots_disjoint(bytes: Seq<u8>, s: int, t: int) -> bool {
    ||| slot_offset(bytes, s) + slot_length(bytes, s) <= slot_offset(bytes, t)
    ||| slot_offset(bytes, t) + slot_length(bytes, t) <= slot_offset(bytes, s)
}

/// The layout rules, with the entry of slot `skip` left out of account.
///
/// The directory lies inside the page; every flag is 0 or 1; every live
/// record lies between the end of the directory and the free-start pointer;
/// no two live records share a byte.
pub open spec fn well_formed_except(bytes: Seq<u8>, skip: int) -> bool {
    &&& bytes.len() == PAGE_SIZE
    &&& header_size(bytes) <= PAGE_SIZE
    &&& forall|s: int|
        0 <= s < num_slots(bytes) && s != skip ==> #[trigger] slot_in_use(bytes, s) <= 1
    &&& forall|s: int|
        #[trigger] slot_live(bytes, s) && s != skip ==> {
            &&& header_size(bytes) <= slot_offset(bytes, s)
            &&& slot_offset(bytes, s) + slot_length(bytes, s) <= free_start(bytes)
        }
    &&& forall|s: int, t: int|
        #[trigger] slot_live(bytes, s) && #[trigger] slot_live(bytes, t) && s != t && s != skip
            && t != skip ==> slots_disjoint(bytes, s, t)
}

/// The layout rules that every page upholds between operations.
pub open spec fn well_formed(bytes: Seq<u8>) -> bool {
    well_formed_except(bytes, -1)
}

/// Total length of the live records among the first `upto` slots.
pub open spec fn used_upto(bytes: Seq<u8>, upto: int) -> int
    decreases upto,
{
    if upto <= 0 {
        0
    } else {
        used_upto(bytes, upto - 1) + if slot_live(bytes, upto - 1) {
            slot_length(bytes, upto - 1)
        } else {
            0
        }
    }
}

/// Total length of the live records.
pub open spec fn used_bytes(bytes: Seq<u8>) -> int {
    used_upto(bytes, num_slots(bytes))
}

/// Bytes left for new records and their directory entries: the page size
/// less the header and less the live records, never below zero.
pub open spec fn free_space(bytes: Seq<u8>) -> int {
    let after_header = if header_size(bytes) <= PAGE_SIZE {
        PAGE_SIZE - header_size(bytes)
    } else {
        0
    };
    if used_bytes(bytes) <= after_header {
        after_header - used_bytes(bytes)
    } else {
        0
    }
}

/// `slot` holds a live record whose stored range lies inside the page.
pub open spec fn slot_readable(bytes: Seq<u8>, slot: int) -> bool {
    slot_live(bytes, slot) && slot_offset(bytes, slot) + slot_length(bytes, slot) <= PAGE_SIZE
}

/// The record that `slot` holds, if it holds one that can be read.
pub open spec fn record_at(bytes: Seq<u8>, slot: int) -> Option<Seq<u8>> {
    if slot_readable(bytes, slot) {
        Some(
            bytes.subrange(
                slot_offset(bytes, slot),
                slot_offset(bytes, slot) + slot_length(bytes, slot),
            ),
        )
    } else {
        None
    }
}

/// What the page holds: for each slot of the directory its record, or `None`
/// where the slot is free or its record cannot be read.
pub open spec fn records(bytes: Seq<u8>) -> Seq<Option<Seq<u8>>> {
    Seq::new(num_slots(bytes) as nat, |slot: int| record_at(bytes, slot))
}

/// `before` and `after` are pages that agree on every byte outside
/// `[from, to)`.
pub open spec fn same_outside(before: Seq<u8>, after: Seq<u8>, from: int, to: int) -> bool {
    &&& before.len() == after.len()
    &&& forall|i: int| 0 <= i < before.len() && !(from <= i < to) ==> after[i] == before[i]
}

/// `bytes` with `patch` written over it from position `at` on.
pub open spec fn with_bytes(bytes: Seq<u8>, at: int, patch: Seq<u8>) -> Seq<u8> {
    Seq::new(
        bytes.len(),
        |i: int|
            if at <= i < at + patch.len() {
                patch[i - at]
            } else {
                bytes[i]
            },
    )
}

/// The live slots among the first `upto`, each with its record length, in
/// ascending order of slot id.
pub open spec fn live_lengths(bytes: Seq<u8>, upto: int) -> Seq<(SlotId, SlotLength)>
    decreases upto,
{
    if upto <= 0 {
        Seq::empty()
    } else if slot_live(bytes, upto - 1) {
        live_lengths(bytes, upto - 1).push(
            ((upto - 1) as SlotId, slot_length(bytes, upto - 1) as SlotLength),
        )
    } else {
        live_lengths(bytes, upto - 1)
    }
}

/// Sum of the lengths in a list of slots.
pub open spec fn lengths_sum(slots: Seq<(SlotId, SlotLength)>) -> int
    decreases slots.len(),
{
    if slots.len() == 0 {
        0
    } else {
        lengths_sum(slots.drop_last()) + slots.last().1
    }
}

/// The lengths of the live slots add up to the used bytes.
pub proof fn lemma_live_lengths_sum(bytes: Seq<u8>, upto: int)
    ensures
        lengths_sum(live_lengths(bytes, upto)) == used_upto(bytes, upto),
        0 <= used_upto(bytes, upto),
        upto >= 0 ==> used_upto(bytes, upto) <= 65535 * upto,
        upto >= 0 ==> live_lengths(bytes, upto).len() <= upto,
    decreases upto,
{
    if upto > 0 {
        lemma_live_lengths_sum(bytes, upto - 1);
        if slot_live(bytes, upto - 1) {
            assert(live_lengths(bytes, upto).drop_last() == live_lengths(bytes, upto - 1));
        }
    }
}

} // verus!
