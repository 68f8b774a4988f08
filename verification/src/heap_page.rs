//! Records in a page: insertion, lookup, deletion with reuse of slot ids,
//! compaction, and iteration over the live records.

use crate::format::{
    free_space, free_start, header_size, lemma_live_lengths_sum, lengths_sum, live_lengths,
    num_slots, records, same_outside, slot_in_range, slot_in_use, slot_length, slot_live,
    slot_meta_offset, slot_offset, slots_disjoint, stored_free_start, well_formed, Offset,
    SlotId, SlotLength, BYTES_PER_SLOT_META, FIXED_PAGE_META_SIZE, PAGE_META_FREE_START_OFFSET,
    PAGE_META_NUM_SLOTS_OFFSET, PAGE_SIZE, SLOT_IN_USE_FREE, SLOT_IN_USE_OFFSET, SLOT_IN_USE_VALID,
    SLOT_LENGTH_OFFSET, SLOT_OFFSET_OFFSET,
};
use crate::accounting::{lemma_records, lemma_space_left, lemma_used_bytes_fit};
use crate::model::{
    admits, after_insert, deleted, live_from, live_pairs, lowest_free, record_under,
};
use crate::placement::{
    insert_steps, lemma_grown, lemma_inserted, lemma_packed, lemma_slot_choice, placed,
};
use crate::page::Page;
use vstd::prelude::*;

verus! {

impl Page {
    /// Number of slot entries in the directory.
    pub(crate) fn get_num_slots(&self) -> (n: usize)
        ensures
            n == num_slots(self@),
            n <= u16::MAX,
    {
        self.read_u16(PAGE_META_NUM_SLOTS_OFFSET) as usize
    }

    /// Stores the number of slot entries.
    pub(crate) fn set_num_slots(&mut self, n: usize)
        requires
            n <= u16::MAX,
        ensures
            num_slots(final(self)@) == n,
            same_outside(
                old(self)@,
                final(self)@,
                PAGE_META_NUM_SLOTS_OFFSET as int,
                PAGE_META_NUM_SLOTS_OFFSET + 2,
            ),
    {
        self.write_u16(PAGE_META_NUM_SLOTS_OFFSET, n as u16);
    }

    /// Position of the first unused body byte. A stored value that lies
    /// before the body counts as the start of the body.
    pub(crate) fn get_free_start(&self) -> (pos: usize)
        ensures
            pos == free_start(self@),
    {
        let slot_count = self.get_num_slots();
        let body_start = FIXED_PAGE_META_SIZE + slot_count * BYTES_PER_SLOT_META;
        let stored = self.read_u16(PAGE_META_FREE_START_OFFSET) as usize;
        let raw = if stored < body_start {
            body_start
        } else {
            stored
        };
        if raw < PAGE_SIZE {
            raw
        } else {
            PAGE_SIZE
        }
    }

    /// Stores the free-start pointer, lowered to the page's end where it lies
    /// behind it.
    pub(crate) fn set_free_start(&mut self, pos: usize)
        ensures
            stored_free_start(final(self)@) == if pos < PAGE_SIZE {
                pos
            } else {
                PAGE_SIZE
            },
            same_outside(
                old(self)@,
                final(self)@,
                PAGE_META_FREE_START_OFFSET as int,
                PAGE_META_FREE_START_OFFSET + 2,
            ),
    {
        let pos = if pos < PAGE_SIZE {
            pos
        } else {
            PAGE_SIZE
        };
        self.write_u16(PAGE_META_FREE_START_OFFSET, pos as Offset);
    }

    /// Position of the directory entry of `slot_id`.
    pub(crate) fn slot_meta_offset(&self, slot_id: SlotId) -> (base: usize)
        ensures
            base == slot_meta_offset(slot_id as int),
    {
        FIXED_PAGE_META_SIZE + (slot_id as usize) * BYTES_PER_SLOT_META
    }

    /// Offset and length stored for `slot_id`, or `None` where the slot has
    /// no entry inside the page.
    pub(crate) fn get_slot_offset_length(&self, slot_id: SlotId) -> (entry: Option<(Offset, SlotLength)>)
        ensures
            match entry {
                Some((offset, length)) => {
                    &&& slot_in_range(self@, slot_id as int)
                    &&& offset == slot_offset(self@, slot_id as int)
                    &&& length == slot_length(self@, slot_id as int)
                },
                None => !slot_in_range(self@, slot_id as int),
            },
    {
        if slot_id as usize >= self.get_num_slots() {
            return None;
        }
        let base = self.slot_meta_offset(slot_id);
        if base + BYTES_PER_SLOT_META > PAGE_SIZE {
            return None;
        }
        let offset = self.read_u16(base + SLOT_OFFSET_OFFSET);
        let length = self.read_u16(base + SLOT_LENGTH_OFFSET);
        Some((offset, length))
    }

    /// In-use flag stored for `slot_id`, or `None` where the slot has no
    /// entry inside the page.
    pub(crate) fn get_slot_in_use(&self, slot_id: SlotId) -> (flag: Option<u8>)
        ensures
            match flag {
                Some(in_use) => {
                    &&& slot_in_range(self@, slot_id as int)
                    &&& in_use == slot_in_use(self@, slot_id as int)
                },
                None => !slot_in_range(self@, slot_id as int),
            },
    {
        if slot_id as usize >= self.get_num_slots() {
            return None;
        }
        let base = self.slot_meta_offset(slot_id);
        if base + BYTES_PER_SLOT_META > PAGE_SIZE {
            return None;
        }
        Some(self.data[base + SLOT_IN_USE_OFFSET])
    }

    /// Stores the in-use flag of `slot_id`.
    pub(crate) fn set_slot_in_use(&mut self, slot_id: SlotId, in_use: u8)
        requires
            slot_meta_offset(slot_id as int) + BYTES_PER_SLOT_META <= PAGE_SIZE,
        ensures
            final(self)@ == old(self)@.update(
                slot_meta_offset(slot_id as int) + SLOT_IN_USE_OFFSET,
                in_use,
            ),
    {
        let base = self.slot_meta_offset(slot_id);
        self.data[base + SLOT_IN_USE_OFFSET] = in_use;
    }

    /// Stores offset, length and in-use flag of `slot_id`; the padding byte
    /// of the entry stays as it is.
    pub(crate) fn write_slot(&mut self, slot_id: SlotId, offset: Offset, length: SlotLength, in_use: u8)
        requires
            slot_meta_offset(slot_id as int) + BYTES_PER_SLOT_META <= PAGE_SIZE,
        ensures
            slot_offset(final(self)@, slot_id as int) == offset,
            slot_length(final(self)@, slot_id as int) == length,
            slot_in_use(final(self)@, slot_id as int) == in_use,
            same_outside(
                old(self)@,
                final(self)@,
                slot_meta_offset(slot_id as int),
                slot_meta_offset(slot_id as int) + 5,
            ),
    {
        let base = self.slot_meta_offset(slot_id);
        self.write_u16(base, offset);
        self.write_u16(base + 2, length);
        self.data[base + SLOT_IN_USE_OFFSET] = in_use;
    }

    /// Slot id and record length of every live slot, in ascending order of
    /// slot id.
    fn iter_used_slots(&self) -> (used: Vec<(SlotId, SlotLength)>)
        ensures
            used@ == live_lengths(self@, num_slots(self@)),
    {
        let slot_count = self.get_num_slots();
        let mut used: Vec<(SlotId, SlotLength)> = Vec::new();
        let mut i: usize = 0;
        while i < slot_count
            invariant
                i <= slot_count == num_slots(self@),
                used@ == live_lengths(self@, i as int),
            decreases slot_count - i,
        {
            let sid = i as SlotId;
            match self.get_slot_in_use(sid) {
                Some(flag) => {
                    if flag == SLOT_IN_USE_VALID {
                        match self.get_slot_offset_length(sid) {
                            Some((_, len)) => {
                                used.push((sid, len));
                            },
                            None => {},
                        }
                    }
                },
                None => {},
            }
            i += 1;
        }
        used
    }

    /// The lowest slot id that is free, or the number of slots where every
    /// slot is in use.
    fn find_lowest_free_slot_id(&self) -> (slot: SlotId)
        ensures
            0 <= slot <= num_slots(self@),
            slot < num_slots(self@) ==> !slot_in_range(self@, slot as int) || slot_in_use(
                self@,
                slot as int,
            ) == SLOT_IN_USE_FREE,
            forall|lower: int|
                #![trigger slot_in_range(self@, lower)]
                #![trigger slot_in_use(self@, lower)]
                0 <= lower < slot ==> slot_in_range(self@, lower) && slot_in_use(self@, lower)
                    != SLOT_IN_USE_FREE,
    {
        let slot_count = self.get_num_slots();
        let mut i: usize = 0;
        while i < slot_count
            invariant
                i <= slot_count == num_slots(self@),
                slot_count <= u16::MAX,
                forall|lower: int|
                    #![trigger slot_in_range(self@, lower)]
                    #![trigger slot_in_use(self@, lower)]
                    0 <= lower < i ==> slot_in_range(self@, lower) && slot_in_use(self@, lower)
                        != SLOT_IN_USE_FREE,
            decreases slot_count - i,
        {
            match self.get_slot_in_use(i as SlotId) {
                Some(flag) => {
                    if flag == SLOT_IN_USE_FREE {
                        return i as SlotId;
                    }
                },
                None => {
                    return i as SlotId;
                },
            }
            i += 1;
        }
        slot_count as SlotId
    }
}

/// Setting the flag of a live slot to free keeps a page well formed, frees
/// that slot and leaves every other record as it is.
proof fn lemma_delete(before: Seq<u8>, after: Seq<u8>, slot: int)
    requires
        well_formed(before),
        slot_live(before, slot),
        after == before.update(slot_meta_offset(slot) + SLOT_IN_USE_OFFSET, SLOT_IN_USE_FREE),
    ensures
        well_formed(after),
        records(after) == deleted(records(before), slot),
{
    assert forall|s: int| 0 <= s < num_slots(before) implies slot_offset(after, s) == slot_offset(
        before,
        s,
    ) && slot_length(after, s) == slot_length(before, s) && (s != slot ==> slot_in_use(after, s)
        == slot_in_use(before, s)) by {}
    assert forall|s: int| #[trigger] slot_live(after, s) implies slot_live(before, s) && s
        != slot by {}
    assert forall|s: int| 0 <= s < num_slots(before) implies #[trigger] records(after)[s]
        == deleted(records(before), slot)[s] by {}
}

/// The operations of a page that stores records under slot ids.
pub trait HeapPage {
    /// The bytes of the page.
    spec fn page_bytes(&self) -> Seq<u8>;

    /// Stores `bytes` as a record under the lowest free slot id and returns
    /// that id. The slot id is that of the first free slot of the directory,
    /// or the number of slots where none is free; the directory then grows
    /// by one entry. The insert succeeds exactly if the free space holds the
    /// record and, where the directory grows, the new entry; holes that
    /// deleted records left are closed where the space behind the last
    /// record does not suffice. `None`, and nothing changes, where the space
    /// does not suffice. Every other record stays under its slot id.
    /// `insert_steps` says what the page is afterwards, byte for byte.
    fn add_value(&mut self, bytes: &[u8]) -> (slot: Option<SlotId>)
        requires
            well_formed(old(self).page_bytes()),
        ensures
            well_formed(final(self).page_bytes()),
            forall|i: int|
                0 <= i < 2 || 6 <= i < 8 ==> final(self).page_bytes()[i] == old(
                    self,
                ).page_bytes()[i],
            records(final(self).page_bytes()) == after_insert(
                records(old(self).page_bytes()),
                bytes@,
            ),
            match slot {
                Some(slot_id) => {
                    &&& admits(records(old(self).page_bytes()), bytes@.len() as int)
                    &&& slot_id == lowest_free(records(old(self).page_bytes()))
                    &&& placed(
                        old(self).page_bytes(),
                        final(self).page_bytes(),
                        slot_id as int,
                        bytes@.len() as int,
                    )
                    &&& insert_steps(
                        old(self).page_bytes(),
                        final(self).page_bytes(),
                        slot_id as int,
                        bytes@,
                    )
                },
                None => {
                    &&& !admits(records(old(self).page_bytes()), bytes@.len() as int)
                    &&& final(self).page_bytes() == old(self).page_bytes()
                },
            },
    ;

    /// The record stored under `slot_id`: a copy of its bytes, or `None`
    /// where the slot id is out of range, the slot is free, or the stored
    /// range does not lie inside the page.
    fn get_value(&self, slot_id: SlotId) -> (value: Option<Vec<u8>>)
        ensures
            match value {
                Some(v) => record_under(records(self.page_bytes()), slot_id as int) == Some(v@),
                None => record_under(records(self.page_bytes()), slot_id as int) is None,
            },
    ;

    /// Sets the slot free. `None`, and nothing changes, where the slot id is
    /// out of range or the slot is free already. The record's bytes stay
    /// where they are, and so does the free-start pointer.
    fn delete_value(&mut self, slot_id: SlotId) -> (done: Option<()>)
        ensures
            match done {
                Some(_) => {
                    &&& slot_live(old(self).page_bytes(), slot_id as int)
                    &&& final(self).page_bytes() == old(self).page_bytes().update(
                        slot_meta_offset(slot_id as int) + SLOT_IN_USE_OFFSET,
                        SLOT_IN_USE_FREE,
                    )
                },
                None => {
                    &&& !slot_live(old(self).page_bytes(), slot_id as int)
                    &&& final(self).page_bytes() == old(self).page_bytes()
                },
            },
            well_formed(old(self).page_bytes()) ==> {
                &&& well_formed(final(self).page_bytes())
                &&& done is Some <==> record_under(
                    records(old(self).page_bytes()),
                    slot_id as int,
                ) is Some
                &&& records(final(self).page_bytes()) == deleted(
                    records(old(self).page_bytes()),
                    slot_id as int,
                )
            },
    ;

    /// Size of the fixed header and the slot directory together.
    fn get_header_size(&self) -> (size: usize)
        ensures
            size == header_size(self.page_bytes()),
    ;

    /// Bytes left for new records and their directory entries.
    fn get_free_space(&self) -> (space: usize)
        ensures
            space == free_space(self.page_bytes()),
    ;
}

impl HeapPage for Page {
    open spec fn page_bytes(&self) -> Seq<u8> {
        self@
    }

    fn get_header_size(&self) -> (size: usize) {
        FIXED_PAGE_META_SIZE + self.get_num_slots() * BYTES_PER_SLOT_META
    }

    fn get_free_space(&self) -> (space: usize) {
        let header_size = self.get_header_size();
        let used = self.iter_used_slots();
        let mut used_bytes: usize = 0;
        let mut i: usize = 0;
        proof {
            lemma_live_lengths_sum(self@, num_slots(self@));
        }
        while i < used.len()
            invariant
                i <= used.len() <= 65535,
                used_bytes == lengths_sum(used@.take(i as int)),
                used_bytes <= 65535 * i,
            decreases used.len() - i,
        {
            proof {
                assert(used@.take(i + 1).drop_last() == used@.take(i as int));
            }
            used_bytes += used[i].1 as usize;
            i += 1;
        }
        proof {
            assert(used@.take(i as int) == used@);
        }
        PAGE_SIZE.saturating_sub(header_size).saturating_sub(used_bytes)
    }

    fn add_value(&mut self, bytes: &[u8]) -> (slot: Option<SlotId>) {
        let value_len = bytes.len();
        let ghost start = self@;
        proof {
            lemma_space_left(start);
            lemma_used_bytes_fit(start);
        }
        if value_len > PAGE_SIZE {
            return None;
        }
        let slot_id = self.find_lowest_free_slot_id();
        let slot_count = self.get_num_slots();
        let need_new_slot = (slot_id as usize) >= slot_count;

        let extra_header = if need_new_slot {
            BYTES_PER_SLOT_META
        } else {
            0
        };
        proof {
            lemma_slot_choice(start, slot_id as int, value_len as int);
        }
        if self.get_free_space() < value_len + extra_header {
            return None;
        }
        // The holes are closed before the directory grows, so that the body
        // that moves is the packed one.
        let free_pos = self.get_free_start();
        if free_pos + extra_header + value_len > PAGE_SIZE {
            self.compact();
        }
        let ghost packed = self@;
        proof {
            lemma_packed(start, packed, extra_header + value_len);
        }

        if need_new_slot {
            if slot_count > 0 {
                self.shift_body_for_new_slot();
            }
            let ghost moved = self@;
            self.set_num_slots(slot_count + 1);
            proof {
                lemma_grown(packed, moved, self@);
            }
        }
        let ghost ready = self@;

        let insert_offset = self.get_free_start();
        self.write_bytes(insert_offset, bytes);
        let ghost written = self@;
        self.write_slot(
            slot_id,
            insert_offset as Offset,
            value_len as SlotLength,
            SLOT_IN_USE_VALID,
        );
        let ghost entered = self@;
        self.set_free_start(insert_offset + value_len);
        proof {
            lemma_inserted(
                start,
                packed,
                ready,
                written,
                entered,
                self@,
                slot_id as int,
                bytes@,
            );
        }
        Some(slot_id)
    }

    fn delete_value(&mut self, slot_id: SlotId) -> (done: Option<()>) {
        proof {
            if well_formed(self@) {
                lemma_records(self@);
            }
        }
        if (slot_id as usize) >= self.get_num_slots() {
            return None;
        }
        match self.get_slot_in_use(slot_id) {
            Some(flag) => {
                if flag != SLOT_IN_USE_VALID {
                    return None;
                }
            },
            None => {
                return None;
            },
        }
        self.set_slot_in_use(slot_id, SLOT_IN_USE_FREE);
        proof {
            if well_formed(old(self)@) {
                lemma_delete(old(self)@, self@, slot_id as int);
            }
        }
        Some(())
    }

    fn get_value(&self, slot_id: SlotId) -> (value: Option<Vec<u8>>) {
        match self.get_slot_in_use(slot_id) {
            Some(flag) => {
                if flag != SLOT_IN_USE_VALID {
                    return None;
                }
            },
            None => {
                return None;
            },
        }
        match self.get_slot_offset_length(slot_id) {
            Some((offset, length)) => {
                let offset = offset as usize;
                let length = length as usize;
                if offset + length > PAGE_SIZE {
                    return None;
                }
                Some(self.read_bytes(offset, length))
            },
            None => None,
        }
    }
}

/// Walks the live records of a page that it owns, in ascending order of
/// slot id. It runs once and cannot be started again.
pub struct HeapPageIntoIter {
    page: Page,
    current_slot: SlotId,
    num_slots: usize,
}

impl HeapPageIntoIter {
    #[verifier::type_invariant]
    spec fn counts_slots(self) -> bool {
        self.num_slots == num_slots(self.page@)
    }

    /// The records that are still to come, each with its slot id.
    pub closed spec fn remaining(self) -> Seq<(Seq<u8>, SlotId)> {
        live_from(records(self.page@), self.current_slot as int)
    }

    /// The next live record with its slot id, or `None` when no live record
    /// is left.
    pub fn next(&mut self) -> (item: Option<(Vec<u8>, SlotId)>)
        ensures
            match item {
                Some((value, slot_id)) => {
                    &&& old(self).remaining().len() > 0
                    &&& (value@, slot_id) == old(self).remaining()[0]
                    &&& final(self).remaining() == old(self).remaining().drop_first()
                },
                None => {
                    &&& old(self).remaining().len() == 0
                    &&& final(self).remaining().len() == 0
                },
            },
    {
        proof {
            use_type_invariant(&*self);
        }
        let ghost recs = records(self.page@);
        while (self.current_slot as usize) < self.num_slots
            invariant
                self.page == old(self).page,
                self.num_slots == old(self).num_slots,
                self.num_slots == num_slots(self.page@),
                recs == records(self.page@),
                live_from(recs, self.current_slot as int) == old(self).remaining(),
            decreases self.num_slots - self.current_slot,
        {
            let slot_id = self.current_slot;
            self.current_slot += 1;
            match self.page.get_value(slot_id) {
                Some(value) => {
                    return Some((value, slot_id));
                },
                None => {},
            }
        }
        None
    }
}

impl Page {
    /// Whether `slot_id` is live, where its entry keeps the layout rules:
    /// the flag is 0 or 1, and the record of a live slot lies between the
    /// end of the directory and the free-start pointer. `None` where the
    /// entry breaks them.
    fn slot_is_sound(&self, slot_id: SlotId) -> (sound: Option<bool>)
        requires
            header_size(self@) <= PAGE_SIZE,
            slot_id < num_slots(self@),
        ensures
            match sound {
                Some(live) => {
                    &&& slot_in_use(self@, slot_id as int) <= 1
                    &&& live == slot_live(self@, slot_id as int)
                    &&& live ==> header_size(self@) <= slot_offset(self@, slot_id as int)
                        && slot_offset(self@, slot_id as int) + slot_length(
                        self@,
                        slot_id as int,
                    ) <= free_start(self@)
                },
                None => !well_formed(self@),
            },
    {
        let header = self.get_header_size();
        let free_pos = self.get_free_start();
        match (self.get_slot_in_use(slot_id), self.get_slot_offset_length(slot_id)) {
            (Some(flag), Some((off, len))) => {
                if flag == SLOT_IN_USE_FREE {
                    Some(false)
                } else if flag != SLOT_IN_USE_VALID {
                    assert(slot_in_use(self@, slot_id as int) > 1);
                    None
                } else if (off as usize) < header || off as usize + len as usize > free_pos {
                    assert(slot_live(self@, slot_id as int));
                    None
                } else {
                    Some(true)
                }
            },
            _ => None,
        }
    }

    /// Whether the page keeps the layout rules, so that records can be added
    /// to it. A page that was built by `new` and changed by `add_value` and
    /// `delete_value` keeps them; bytes from elsewhere may not.
    pub fn is_well_formed(&self) -> (ok: bool)
        ensures
            ok == well_formed(self@),
    {
        let slot_count = self.get_num_slots();
        if FIXED_PAGE_META_SIZE + slot_count * BYTES_PER_SLOT_META > PAGE_SIZE {
            return false;
        }
        let mut i: usize = 0;
        while i < slot_count
            invariant
                i <= slot_count == num_slots(self@),
                header_size(self@) <= PAGE_SIZE,
                self@.len() == PAGE_SIZE,
                forall|s: int| 0 <= s < i ==> #[trigger] slot_in_use(self@, s) <= 1,
                forall|s: int|
                    0 <= s < i && #[trigger] slot_live(self@, s) ==> header_size(self@)
                        <= slot_offset(self@, s) && slot_offset(self@, s) + slot_length(self@, s)
                        <= free_start(self@),
                forall|s: int, t: int|
                    0 <= s < i && 0 <= t < i && #[trigger] slot_live(self@, s)
                        && #[trigger] slot_live(self@, t) && s != t ==> slots_disjoint(
                        self@,
                        s,
                        t,
                    ),
            decreases slot_count - i,
        {
            match self.slot_is_sound(i as SlotId) {
                None => {
                    return false;
                },
                Some(false) => {},
                Some(true) => {
                    let mut j: usize = 0;
                    while j < i
                        invariant
                            j <= i < slot_count == num_slots(self@),
                            header_size(self@) <= PAGE_SIZE,
                            slot_live(self@, i as int),
                            forall|t: int|
                                0 <= t < j && #[trigger] slot_live(self@, t) ==> slots_disjoint(
                                    self@,
                                    i as int,
                                    t,
                                ),
                        decreases i - j,
                    {
                        if !self.slots_apart(i as SlotId, j as SlotId) {
                            return false;
                        }
                        j += 1;
                    }
                },
            }
            i += 1;
        }
        true
    }

    /// Whether the stored ranges of two slots share no byte, or one of the
    /// slots is not live.
    fn slots_apart(&self, s: SlotId, t: SlotId) -> (apart: bool)
        requires
            header_size(self@) <= PAGE_SIZE,
            s < num_slots(self@),
            t < num_slots(self@),
        ensures
            apart == (slot_live(self@, s as int) && slot_live(self@, t as int) ==> slots_disjoint(
                self@,
                s as int,
                t as int,
            )),
    {
        match (self.get_slot_in_use(t), self.get_slot_in_use(s)) {
            (Some(flag_t), Some(flag_s)) => {
                if flag_t != SLOT_IN_USE_VALID || flag_s != SLOT_IN_USE_VALID {
                    return true;
                }
            },
            _ => {
                return true;
            },
        }
        match (self.get_slot_offset_length(s), self.get_slot_offset_length(t)) {
            (Some((off_s, len_s)), Some((off_t, len_t))) => {
                off_s as usize + len_s as usize <= off_t as usize || off_t as usize
                    + len_t as usize <= off_s as usize
            },
            _ => true,
        }
    }

    /// Hands the page over to an iterator over its live records.
    pub fn into_iter(self) -> (iter: HeapPageIntoIter)
        ensures
            iter.remaining() == live_pairs(records(self@)),
    {
        let num_slots = self.get_num_slots();
        HeapPageIntoIter { page: self, current_slot: 0, num_slots }
    }
}

} // verus!
