//! A slotted heap page: a fixed-size, self-describing byte buffer that stores
//! variable-length records under stable slot ids.
//!
//! A [`Page`] is `PAGE_SIZE` bytes and nothing else. [`HeapPage`] inserts,
//! reads and deletes records; an insert takes the lowest free slot id, grows
//! the slot directory where none is free, and closes the holes that deleted
//! records left where the space behind the last record does not suffice.
//!
//! - `format` says what the bytes mean and which layout rules a page keeps.
//! - `model` says what a page holds, slot by slot, and what inserting and
//!   deleting do to that; the rules on slot ids and space are proved there.
//! - `accounting` ties the two together: the free space of a page is what
//!   its records leave.
//! - `growth`, `compaction` and `placement` hold the steps of an insert.
//! - `config` holds the settings of the text-search utility.

pub mod accounting;
mod buffer;
pub mod compaction;
pub mod config;
pub mod format;
pub mod growth;
pub mod heap_page;
pub mod model;
pub mod page;
pub mod placement;

pub use crate::config::Config;
pub use crate::format::{Offset, PageId, SlotId, SlotLength, PAGE_SIZE};
pub use crate::heap_page::{HeapPage, HeapPageIntoIter};
pub use crate::page::Page;
