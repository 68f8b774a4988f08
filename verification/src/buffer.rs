//! Reading and writing runs of bytes in a page.

use crate::format::{le16, same_outside, with_bytes, PAGE_SIZE};
use crate::page::Page;
use vstd::prelude::*;

verus! {

impl Page {
    /// The two-byte little-endian number at `at`.
    pub(crate) fn read_u16(&self, at: usize) -> (value: u16)
        requires
            at + 2 <= PAGE_SIZE,
        ensures
            value == le16(self@, at as int),
    {
        self.data[at] as u16 + (self.data[at + 1] as u16) * 256
    }

    /// Stores `value` at `at` as two little-endian bytes.
    pub(crate) fn write_u16(&mut self, at: usize, value: u16)
        requires
            at + 2 <= PAGE_SIZE,
        ensures
            le16(final(self)@, at as int) == value,
            same_outside(old(self)@, final(self)@, at as int, at + 2),
    {
        self.data[at] = (value % 256) as u8;
        self.data[at + 1] = (value / 256) as u8;
    }

    /// A copy of the `len` bytes at `start`.
    pub(crate) fn read_bytes(&self, start: usize, len: usize) -> (bytes: Vec<u8>)
        requires
            start + len <= PAGE_SIZE,
        ensures
            bytes@ == self@.subrange(start as int, start + len),
    {
        let mut bytes: Vec<u8> = Vec::new();
        let mut i: usize = 0;
        while i < len
            invariant
                i <= len,
                start + len <= PAGE_SIZE,
                bytes@ == self@.subrange(start as int, start + i),
            decreases len - i,
        {
            bytes.push(self.data[start + i]);
            i += 1;
        }
        bytes
    }

    /// Writes `src` over the bytes from `at` on.
    pub(crate) fn write_bytes(&mut self, at: usize, src: &[u8])
        requires
            at + src@.len() <= PAGE_SIZE,
        ensures
            final(self)@ == with_bytes(old(self)@, at as int, src@),
    {
        let len = src.len();
        let mut i: usize = 0;
        while i < len
            invariant
                i <= len == src@.len(),
                at + len <= PAGE_SIZE,
                self@ == with_bytes(old(self)@, at as int, src@.take(i as int)),
            decreases len - i,
        {
            self.data[at + i] = src[i];
            i += 1;
        }
    }

    /// Copies the bytes of `[src_start, src_end)` to `dest` and the
    /// positions after it. Source and destination may overlap: the bytes
    /// that arrive are those that the source held before the call.
    pub(crate) fn copy_within(&mut self, src_start: usize, src_end: usize, dest: usize)
        requires
            src_start <= src_end <= PAGE_SIZE,
            dest + (src_end - src_start) <= PAGE_SIZE,
        ensures
            final(self)@ == with_bytes(
                old(self)@,
                dest as int,
                old(self)@.subrange(src_start as int, src_end as int),
            ),
    {
        let len = src_end - src_start;
        if dest <= src_start {
            let mut i: usize = 0;
            while i < len
                invariant
                    i <= len == src_end - src_start,
                    dest <= src_start,
                    src_end <= PAGE_SIZE,
                    self@ == with_bytes(
                        old(self)@,
                        dest as int,
                        old(self)@.subrange(src_start as int, src_start + i),
                    ),
                decreases len - i,
            {
                self.data[dest + i] = self.data[src_start + i];
                i += 1;
            }
        } else {
            let mut i: usize = len;
            while i > 0
                invariant
                    i <= len == src_end - src_start,
                    dest > src_start,
                    dest + len <= PAGE_SIZE,
                    self@ == with_bytes(
                        old(self)@,
                        dest + i,
                        old(self)@.subrange(src_start + i, src_end as int),
                    ),
                decreases i,
            {
                i -= 1;
                self.data[dest + i] = self.data[src_start + i];
            }
        }
    }

    /// Sets the bytes of `[from, to)` to zero.
    pub(crate) fn fill_zero(&mut self, from: usize, to: usize)
        requires
            from <= to <= PAGE_SIZE,
        ensures
            final(self)@ == with_bytes(
                old(self)@,
                from as int,
                Seq::new((to - from) as nat, |i: int| 0u8),
            ),
    {
        let mut i: usize = from;
        while i < to
            invariant
                from <= i <= to <= PAGE_SIZE,
                self@ == with_bytes(
                    old(self)@,
                    from as int,
                    Seq::new((i - from) as nat, |i: int| 0u8),
                ),
            decreases to - i,
        {
            self.data[i] = 0;
            i += 1;
        }
    }
}

} // verus!
