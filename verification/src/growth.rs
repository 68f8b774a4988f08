//! Growing the slot directory by one entry: the body moves six bytes to the
//! right, and every live record's stored offset moves with it.

use crate::format::{
    free_start, header_size, num_slots, records, slot_in_use, slot_length, slot_live,
    slot_meta_offset, slot_offset, stored_free_start, well_formed, Offset, SlotId,
    BYTES_PER_SLOT_META, FIXED_PAGE_META_SIZE, PAGE_SIZE, SLOT_IN_USE_VALID,
};
use crate::page::Page;
use vstd::prelude::*;

verus! {

/// The directory of `after` is that of `before`, but that the stored offset
/// of each of the first `patched` slots is six higher where the slot is live.
pub open spec fn directory_shifted(before: Seq<u8>, after: Seq<u8>, patched: int) -> bool {
    forall|s: int|
        #![trigger slot_meta_offset(s)]
        0 <= s < num_slots(before) ==> {
            &&& slot_in_use(after, s) == slot_in_use(before, s)
            &&& slot_length(after, s) == slot_length(before, s)
            &&& after[slot_meta_offset(s) + 5] == before[slot_meta_offset(s) + 5]
            &&& slot_offset(after, s) == slot_offset(before, s) + if s < patched && slot_live(
                before,
                s,
            ) {
                BYTES_PER_SLOT_META as int
            } else {
                0
            }
        }
}

/// The body of `after` is that of `before` moved six bytes to the right,
/// with six zero bytes where the body of `before` began.
pub open spec fn body_shifted(before: Seq<u8>, after: Seq<u8>) -> bool {
    &&& forall|i: int|
        header_size(before) <= i < header_size(before) + BYTES_PER_SLOT_META ==> after[i] == 0
    &&& forall|i: int|
        header_size(before) <= i < free_start(before) ==> #[trigger] after[i
            + BYTES_PER_SLOT_META] == before[i]
    &&& forall|i: int|
        free_start(before) + BYTES_PER_SLOT_META <= i < PAGE_SIZE ==> after[i] == before[i]
}

/// `after` is `before` with room made for one more directory entry: the
/// fixed header but for the free-start pointer is the same, the body lies
/// six bytes further right, and the live offsets and the free-start pointer
/// are six higher.
#[verifier::opaque]
pub open spec fn shifted(before: Seq<u8>, after: Seq<u8>) -> bool {
    &&& after.len() == PAGE_SIZE
    &&& forall|i: int| 0 <= i < 4 || 6 <= i < 8 ==> after[i] == before[i]
    &&& stored_free_start(after) == free_start(before) + BYTES_PER_SLOT_META
    &&& directory_shifted(before, after, num_slots(before))
    &&& body_shifted(before, after)
}

/// Making room for a directory entry keeps a page well formed and keeps its
/// records; afterwards no live record lies in the six bytes behind the
/// directory.
pub proof fn lemma_shifted(before: Seq<u8>, after: Seq<u8>)
    requires
        well_formed(before),
        free_start(before) + BYTES_PER_SLOT_META <= PAGE_SIZE,
        shifted(before, after),
    ensures
        well_formed(after),
        num_slots(after) == num_slots(before),
        free_start(after) == free_start(before) + BYTES_PER_SLOT_META,
        records(after) == records(before),
        forall|s: int|
            #[trigger] slot_live(after, s) ==> header_size(after) + BYTES_PER_SLOT_META
                <= slot_offset(after, s),
{
    reveal(shifted);
    assert forall|s: int| 0 <= s < num_slots(before) implies #[trigger] records(after)[s]
        == records(before)[s] by {
        if slot_live(before, s) {
            let from = slot_offset(before, s);
            let to = from + slot_length(before, s);
            assert forall|k: int| 0 <= k < to - from implies after.subrange(from + 6, to + 6)[k]
                == before.subrange(from, to)[k] by {
                assert(after[(from + k) + BYTES_PER_SLOT_META] == before[from + k]);
            }
        }
    }
}

impl Page {
    /// Moves the body six bytes to the right to make room for one more
    /// directory entry, clears the six bytes that the entry will take, and
    /// raises the stored offset of every live record and the free-start
    /// pointer by six. The number of slots stays as it is.
    pub(crate) fn shift_body_for_new_slot(&mut self)
        requires
            well_formed(old(self)@),
            free_start(old(self)@) + BYTES_PER_SLOT_META <= PAGE_SIZE,
        ensures
            shifted(old(self)@, final(self)@),
    {
        let slot_count = self.get_num_slots();
        let old_body_start = FIXED_PAGE_META_SIZE + slot_count * BYTES_PER_SLOT_META;
        let new_body_start = old_body_start + BYTES_PER_SLOT_META;

        let free_pos = self.get_free_start();
        let body_len = free_pos.saturating_sub(old_body_start);

        if body_len > 0 {
            let room = PAGE_SIZE - new_body_start;
            let shift_len = if body_len < room {
                body_len
            } else {
                room
            };
            self.copy_within(old_body_start, old_body_start + shift_len, new_body_start);
        }
        // The entry that the directory gains must not show what the body held.
        self.fill_zero(old_body_start, new_body_start);

        let ghost before = old(self)@;

        let mut i: usize = 0;
        while i < slot_count
            invariant
                i <= slot_count == num_slots(before),
                slot_count <= u16::MAX,
                well_formed(before),
                free_start(before) + BYTES_PER_SLOT_META <= PAGE_SIZE,
                old_body_start == header_size(before),
                self@.len() == PAGE_SIZE,
                forall|k: int| 0 <= k < 8 ==> self@[k] == before[k],
                body_shifted(before, self@),
                directory_shifted(before, self@, i as int),
            decreases slot_count - i,
        {
            let sid = i as SlotId;
            match self.get_slot_in_use(sid) {
                Some(flag) => {
                    if flag == SLOT_IN_USE_VALID {
                        match self.get_slot_offset_length(sid) {
                            Some((off, len)) => {
                                self.write_slot(
                                    sid,
                                    (off as usize + BYTES_PER_SLOT_META) as Offset,
                                    len,
                                    SLOT_IN_USE_VALID,
                                );
                            },
                            None => {},
                        }
                    }
                },
                None => {},
            }
            i += 1;
        }

        let new_free = if free_pos + BYTES_PER_SLOT_META < PAGE_SIZE {
            free_pos + BYTES_PER_SLOT_META
        } else {
            PAGE_SIZE
        };
        self.set_free_start(new_free);
        proof {
            reveal(shifted);
        }
    }
}

} // verus!
