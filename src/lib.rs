//! A small disk-resident filesystem: block cache, bitmap allocators, on-disk
//! inodes with multi-level block indexing, and directories resolved by path.
use vstd::prelude::*;

pub mod bitmap;
pub mod block_cache;
pub mod block_dev;
pub mod disk_inode;
pub mod efs;
pub mod fd;
pub mod layout;
pub mod syscall;
pub mod task;
pub mod vfs;

verus! {

/// Size in bytes of one block, the unit of all storage I/O.
pub const BLOCK_SZ: usize = 512;

} // verus!
