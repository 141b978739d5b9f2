//! A verified embedded filesystem engine together with the small, pure
//! kernel-side helpers that surround it: block-addressed storage behind a
//! block cache, a bitmap free-space allocator, a super-block descriptor,
//! multi-level indexed file extents, page-table arithmetic and a few
//! scheduler data structures.

use vstd::prelude::*;

pub mod address;
pub mod batch;
pub mod bitmap;
pub mod block_cache;
pub mod block_dev;
pub mod frame_allocator;
pub mod layout;
pub mod page_table;
pub mod task;
pub mod trap;
pub mod user;

verus! {

/// Size of one storage block in bytes.
pub const BLOCK_SZ: usize = 512;

} // verus!
