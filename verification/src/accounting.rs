//! Free-space accounting: in a well-formed page the live records fit between
//! the directory and the free-start pointer, so the free space is the page
//! size less the header and less the live records, with nothing cut off.

use crate::format::{
    free_space, free_start, header_size, num_slots, record_at, records, slot_in_use, slot_length,
    slot_live, slot_offset, slots_disjoint, used_bytes, used_upto, well_formed, PAGE_SIZE,
};
use crate::model::{fits, header_bytes, space_left, stored_bytes, stored_upto};
use vstd::prelude::*;
use vstd::set_lib::{
    lemma_int_range, lemma_len_subset, lemma_set_disjoint_lens, lemma_subset_equality,
    set_int_range,
};

verus! {

/// The record of slot `s` is live and occupies position `p`.
pub open spec fn slot_covers(bytes: Seq<u8>, s: int, p: int) -> bool {
    slot_live(bytes, s) && slot_offset(bytes, s) <= p < slot_offset(bytes, s) + slot_length(
        bytes,
        s,
    )
}

/// The positions that the live records among the first `upto` slots occupy.
pub open spec fn covered(bytes: Seq<u8>, upto: int) -> Set<int> {
    Set::new(|p: int| exists|s: int| 0 <= s < upto && slot_covers(bytes, s, p))
}

/// The live records among the first `upto` slots occupy as many positions as
/// their lengths add up to, all of them in the body before the free-start
/// pointer.
proof fn lemma_covered(bytes: Seq<u8>, upto: int)
    requires
        well_formed(bytes),
        0 <= upto,
    ensures
        covered(bytes, upto).finite(),
        covered(bytes, upto).len() == used_upto(bytes, upto),
        covered(bytes, upto).subset_of(set_int_range(header_size(bytes), free_start(bytes))),
    decreases upto,
{
    if upto == 0 {
        assert(covered(bytes, upto) =~= Set::empty());
    } else {
        lemma_covered(bytes, upto - 1);
        let s = upto - 1;
        let before = covered(bytes, upto - 1);
        let all = covered(bytes, upto);
        if slot_live(bytes, s) {
            let from = slot_offset(bytes, s);
            let to = from + slot_length(bytes, s);
            let range = set_int_range(from, to);
            lemma_int_range(from, to);
            assert forall|p: int| all.contains(p) <==> (before + range).contains(p) by {
                if range.contains(p) {
                    assert(slot_covers(bytes, s, p));
                }
            }
            assert(all =~= before + range);
            lemma_set_disjoint_lens(before, range);
        } else {
            assert(all =~= before);
        }
    }
}

/// In a well-formed page the live records fit between the directory and the
/// free-start pointer.
pub proof fn lemma_used_bytes_fit(bytes: Seq<u8>)
    requires
        well_formed(bytes),
    ensures
        0 <= used_bytes(bytes),
        header_size(bytes) + used_bytes(bytes) <= free_start(bytes) <= PAGE_SIZE,
{
    let n = num_slots(bytes);
    lemma_covered(bytes, n);
    lemma_int_range(header_size(bytes), free_start(bytes));
    lemma_len_subset(covered(bytes, n), set_int_range(header_size(bytes), free_start(bytes)));
}

/// In a well-formed page whose free-start pointer stands where the live
/// records end when they lie packed, every position between the directory
/// and the pointer belongs to a live record.
pub proof fn lemma_packed_covers(bytes: Seq<u8>, p: int)
    requires
        well_formed(bytes),
        free_start(bytes) == header_size(bytes) + used_bytes(bytes),
        header_size(bytes) <= p < free_start(bytes),
    ensures
        exists|s: int| slot_covers(bytes, s, p),
{
    let n = num_slots(bytes);
    let body = set_int_range(header_size(bytes), free_start(bytes));
    lemma_covered(bytes, n);
    lemma_int_range(header_size(bytes), free_start(bytes));
    lemma_subset_equality(covered(bytes, n), body);
    assert(body.contains(p));
    assert(covered(bytes, n).contains(p));
    let s = choose|s: int| 0 <= s < n && slot_covers(bytes, s, p);
    assert(slot_covers(bytes, s, p));
}

/// The free space of a well-formed page is the page size less the header
/// size and less the total length of the live records.
pub proof fn lemma_accounting(bytes: Seq<u8>)
    requires
        well_formed(bytes),
    ensures
        free_space(bytes) == PAGE_SIZE - header_size(bytes) - used_bytes(bytes),
{
    lemma_used_bytes_fit(bytes);
}

/// Any two live records of a well-formed page lie apart, each of them
/// between the end of the directory and the end of the page.
pub proof fn lemma_live_records_apart(bytes: Seq<u8>, s: int, t: int)
    requires
        well_formed(bytes),
        slot_live(bytes, s),
        slot_live(bytes, t),
        s != t,
    ensures
        slots_disjoint(bytes, s, t),
        header_size(bytes) <= slot_offset(bytes, s),
        slot_offset(bytes, s) + slot_length(bytes, s) <= PAGE_SIZE,
{
}

/// In a well-formed page every slot of the directory is live or free, a
/// live slot holds a record of the stored length, and a free slot holds none.
pub proof fn lemma_records(bytes: Seq<u8>)
    requires
        well_formed(bytes),
    ensures
        records(bytes).len() == num_slots(bytes),
        forall|s: int|
            0 <= s < num_slots(bytes) ==> (slot_live(bytes, s) <==> (#[trigger] records(
                bytes,
            )[s]) is Some),
        forall|s: int|
            0 <= s < num_slots(bytes) ==> (slot_in_use(bytes, s) == 0 <==> (#[trigger] records(
                bytes,
            )[s]) is None),
        forall|s: int|
            0 <= s < num_slots(bytes) && slot_live(bytes, s) ==> (#[trigger] records(
                bytes,
            )[s])->0.len() == slot_length(bytes, s),
{
    assert forall|s: int| 0 <= s < num_slots(bytes) implies (slot_live(bytes, s) <==> (
    #[trigger] records(bytes)[s]) is Some) && (slot_in_use(bytes, s) == 0 <==> records(
        bytes,
    )[s] is None) && (slot_live(bytes, s) ==> records(bytes)[s]->0.len() == slot_length(
        bytes,
        s,
    )) by {
        assert(records(bytes)[s] == record_at(bytes, s));
    }
}

/// The records of the first `upto` slots are as long together as the live
/// records that the directory lists for them.
proof fn lemma_stored_upto(bytes: Seq<u8>, upto: int)
    requires
        well_formed(bytes),
        0 <= upto <= num_slots(bytes),
    ensures
        stored_upto(records(bytes), upto) == used_upto(bytes, upto),
    decreases upto,
{
    if upto > 0 {
        lemma_stored_upto(bytes, upto - 1);
    }
}

/// The space that the records of a well-formed page leave is the page's free
/// space, and it is not negative.
pub proof fn lemma_space_left(bytes: Seq<u8>)
    requires
        well_formed(bytes),
    ensures
        stored_bytes(records(bytes)) == used_bytes(bytes),
        header_bytes(records(bytes)) == header_size(bytes),
        space_left(records(bytes)) == free_space(bytes),
        fits(records(bytes)),
{
    lemma_stored_upto(bytes, num_slots(bytes));
    lemma_accounting(bytes);
}

} // verus!
