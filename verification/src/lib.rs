//! A block-based filesystem engine: a free-space bitmap allocator, an
//! on-disk superblock and inode layout, a tiered indexed block map per file,
//! and a directory/file operation layer, all over a fixed-size block device.

use vstd::prelude::*;

pub mod disk;
pub mod block_cache;
pub mod bitmap;
pub mod layout;
pub mod efs;
pub mod vfs;
pub mod manager;

verus! {

/// Bytes in one device block.
pub const BLOCK_SZ: usize = 512;

/// Bits tracked by one bitmap block.
pub const BITS_PER_BLOCK: usize = 4096;

/// Direct block pointers held in a disk inode.
pub const INODE_DIRECT_COUNT: usize = 12;

/// Block pointers held in one index block.
pub const INODE_INDIRECT1_COUNT: usize = 128;

/// First logical block index served by the single-indirect tier.
pub const DIRECT_BOUND: usize = 12;

/// First logical block index served by the double-indirect tier.
pub const INDIRECT1_BOUND: usize = 140;

/// Bytes in one packed disk-inode record.
pub const INODE_SZ: usize = 64;

/// Disk-inode records packed in one block.
pub const INODES_PER_BLOCK: usize = 8;

/// Magic value stamped into a valid superblock.
pub const EFS_MAGIC: u32 = 0x3b800001;

/// Longest directory-entry name, in bytes.
pub const NAME_LENGTH_LIMIT: usize = 27;

/// Bytes in one packed directory entry.
pub const DIRENT_SZ: usize = 32;

} // verus!
