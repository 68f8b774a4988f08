//! The page itself: a buffer of `PAGE_SIZE` bytes and its raw image.

use crate::format::{
    num_slots, records, stored_free_start, well_formed, Offset, PageId, FIXED_PAGE_META_SIZE,
    PAGE_SIZE,
};
use vstd::prelude::*;

verus! {

/// Slot count of a new page.
const INITIAL_NUM_SLOTS: u16 = 0;

/// Free-start pointer of a new page: the body begins after the fixed header.
const INITIAL_FREE_START: Offset = 8;

/// A fixed-size page: eight bytes of header, six bytes per slot, and the
/// record body.
pub struct Page {
    /// The raw bytes of the page.
    pub(crate) data: [u8; PAGE_SIZE],
}

impl View for Page {
    type V = Seq<u8>;

    /// The bytes of the page.
    open(crate) spec fn view(&self) -> Seq<u8> {
        self.data@
    }
}

/// Where the run of differing bytes that ends just before `pos` begins;
/// `pos` itself where the byte before `pos` is the same in `a` and `b`.
pub open spec fn run_start(a: Seq<u8>, b: Seq<u8>, pos: int) -> int
    decreases pos,
{
    if pos <= 0 || a[pos - 1] == b[pos - 1] {
        pos
    } else {
        run_start(a, b, pos - 1)
    }
}

/// The runs of bytes in which `a` differs from `b` and that end before
/// `upto`: for each run its first position and the bytes of `a` in it, in
/// ascending order. A run ends where a byte follows that is the same in
/// both; a run that reaches `upto` has not ended and is not listed.
pub open spec fn closed_runs(a: Seq<u8>, b: Seq<u8>, upto: int) -> Seq<(Offset, Seq<u8>)>
    decreases upto,
{
    if upto <= 0 {
        Seq::empty()
    } else if a[upto - 1] == b[upto - 1] && run_start(a, b, upto - 1) < upto - 1 {
        closed_runs(a, b, upto - 1).push(
            (
                run_start(a, b, upto - 1) as Offset,
                a.subrange(run_start(a, b, upto - 1), upto - 1),
            ),
        )
    } else {
        closed_runs(a, b, upto - 1)
    }
}

/// `list` holds the runs `runs`, each with its bytes.
pub open spec fn lists_runs(list: Seq<(Offset, Vec<u8>)>, runs: Seq<(Offset, Seq<u8>)>) -> bool {
    &&& list.len() == runs.len()
    &&& forall|k: int|
        0 <= k < list.len() ==> (#[trigger] list[k]).0 == runs[k].0 && list[k].1@ == runs[k].1
}

/// The run that ends before `pos` begins at or before `pos`, and not before
/// the start.
proof fn lemma_run_start(a: Seq<u8>, b: Seq<u8>, pos: int)
    requires
        0 <= pos,
    ensures
        0 <= run_start(a, b, pos) <= pos,
    decreases pos,
{
    if pos > 0 && a[pos - 1] != b[pos - 1] {
        lemma_run_start(a, b, pos - 1);
    }
}

/// A page that is rebuilt from the bytes of a page holds the same bytes, and
/// the bytes that it hands out are those that went in: `image` stands for
/// what `to_bytes` hands out for `page`, `copy` for what `from_bytes` builds
/// from that, `image_of_copy` for what `to_bytes` hands out for `copy`.
pub proof fn lemma_round_trip(
    page: Page,
    image: [u8; PAGE_SIZE],
    copy: Page,
    image_of_copy: [u8; PAGE_SIZE],
)
    requires
        image@ == page@,
        copy@ == image@,
        image_of_copy@ == copy@,
    ensures
        image_of_copy == image,
        copy@ == page@,
{
}

impl Page {
    /// A new, empty page with the given id.
    pub fn new(page_id: PageId) -> (page: Page)
        ensures
            well_formed(page@),
            page_id == crate::format::page_id(page@),
            num_slots(page@) == 0,
            stored_free_start(page@) == FIXED_PAGE_META_SIZE,
            forall|i: int| 6 <= i < PAGE_SIZE ==> page@[i] == 0,
            records(page@) == Seq::<Option<Seq<u8>>>::empty(),
    {
        let mut data = [0u8; PAGE_SIZE];
        data[0] = (page_id % 256) as u8;
        data[1] = (page_id / 256) as u8;
        data[2] = (INITIAL_NUM_SLOTS % 256) as u8;
        data[3] = (INITIAL_NUM_SLOTS / 256) as u8;
        data[4] = (INITIAL_FREE_START % 256) as u8;
        data[5] = (INITIAL_FREE_START / 256) as u8;
        Page { data }
    }

    /// The id stored in the page.
    pub fn get_page_id(&self) -> (id: PageId)
        ensures
            id == crate::format::page_id(self@),
    {
        self.data[0] as u16 + (self.data[1] as u16) * 256
    }

    /// The page that holds exactly the given bytes.
    pub fn from_bytes(data: [u8; PAGE_SIZE]) -> (page: Page)
        ensures
            page@ == data@,
    {
        Page { data }
    }

    /// The raw bytes of the page.
    pub fn to_bytes(&self) -> (bytes: &[u8; PAGE_SIZE])
        ensures
            bytes@ == self@,
    {
        &self.data
    }

    /// Where this page differs from `other_page`: each run of differing
    /// bytes that ends before the end of the page, with its first position
    /// and this page's bytes in it. A run that reaches the end of the page
    /// is not listed.
    pub fn compare_page(&self, other_page: Vec<u8>) -> (res: Vec<(Offset, Vec<u8>)>)
        requires
            other_page@.len() == PAGE_SIZE,
        ensures
            lists_runs(res@, closed_runs(self@, other_page@, PAGE_SIZE as int)),
    {
        let mut res: Vec<(Offset, Vec<u8>)> = Vec::new();
        let bytes = self.to_bytes();
        let mut in_diff = false;
        let mut diff_start: usize = 0;
        let mut diff_vec: Vec<u8> = Vec::new();
        let mut i: usize = 0;
        while i < PAGE_SIZE
            invariant
                i <= PAGE_SIZE,
                bytes@ == self@,
                bytes@.len() == PAGE_SIZE,
                other_page@.len() == PAGE_SIZE,
                lists_runs(res@, closed_runs(self@, other_page@, i as int)),
                in_diff <==> run_start(self@, other_page@, i as int) < i,
                in_diff ==> diff_start == run_start(self@, other_page@, i as int),
                in_diff ==> diff_vec@ == self@.subrange(diff_start as int, i as int),
                !in_diff ==> diff_vec@.len() == 0,
            decreases PAGE_SIZE - i,
        {
            proof {
                lemma_run_start(self@, other_page@, i as int);
            }
            let b1 = bytes[i];
            let b2 = other_page[i];
            if b1 != b2 {
                if !in_diff {
                    diff_start = i;
                    in_diff = true;
                }
                diff_vec.push(b1);
            } else if in_diff {
                // The run has ended.
                res.push((diff_start as Offset, diff_vec));
                diff_vec = Vec::new();
                in_diff = false;
            }
            i += 1;
        }
        res
    }
}

impl Clone for Page {
    /// A copy with the same bytes.
    fn clone(&self) -> (copy: Self)
        ensures
            copy@ == self@,
    {
        Page { data: self.data }
    }
}

} // verus!
