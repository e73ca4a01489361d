//! The filesystem facade: computes the five-region layout, formats or opens
//! an image, owns both bitmaps, and allocates and frees inode and data
//! blocks.

use vstd::prelude::*;
use crate::{BLOCK_SZ, BITS_PER_BLOCK, EFS_MAGIC, INODE_SZ, INODES_PER_BLOCK};
use crate::disk::{MemDisk, disk_wf};
use crate::bitmap::Bitmap;
use crate::layout::{SuperBlock, DiskInode, DiskInodeType, super_block_at, read_inode, write_inode, rec_matches, rec_direct_at, ty_code};
use crate::vfs::Inode;
use crate::block_cache::u32_at;
use vstd::arithmetic::div_mod::{lemma_fundamental_div_mod, lemma_div_multiples_vanish_fancy};

verus! {

/// How many blocks of packed inode records one inode-bitmap block demands.
pub const INODE_AREA_PER_BITMAP_BLOCK: usize = 512;

/// One filesystem instance: the device, the two bitmaps, and the region
/// boundaries.
pub struct EasyFileSystem {
    pub block_device: MemDisk,
    pub inode_bitmap: Bitmap,
    pub data_bitmap: Bitmap,
    pub inode_area_start_block: u32,
    pub data_area_start_block: u32,
}

/// The data-bitmap block count chosen for an image of `total` blocks with
/// `ibb` inode-bitmap blocks: one bitmap block tracks `BITS_PER_BLOCK` data
/// blocks, rounding so that bitmap plus data fill what is left.
pub open spec fn spec_data_bitmap_blocks(total: int, ibb: int) -> int {
    (total - 1 - ibb - INODE_AREA_PER_BITMAP_BLOCK * ibb + BITS_PER_BLOCK) / (BITS_PER_BLOCK
        + 1)
}

impl EasyFileSystem {
    /// Structural consistency: the regions sit in their fixed order -
    /// superblock, inode bitmap, inode area, data bitmap, data area - and
    /// all index arithmetic fits the machine.
    pub open spec fn wf(&self) -> bool {
        &&& disk_wf(self.block_device@)
        &&& 2 <= self.block_device@.len() <= u32::MAX
        &&& self.inode_bitmap.wf()
        &&& self.data_bitmap.wf()
        &&& self.inode_bitmap.start_block_id == 1
        &&& self.inode_bitmap.blocks >= 1
        &&& self.inode_area_start_block == 1 + self.inode_bitmap.blocks
        &&& self.data_bitmap.start_block_id == self.inode_area_start_block
            + INODE_AREA_PER_BITMAP_BLOCK * self.inode_bitmap.blocks
        &&& self.data_area_start_block == self.data_bitmap.start_block_id
            + self.data_bitmap.blocks
        &&& self.data_area_start_block <= self.block_device@.len()
        &&& self.inode_bitmap.spec_maximum() <= u32::MAX
        &&& self.data_area_start_block + self.data_bitmap.spec_maximum() <= u32::MAX
    }

    /// Whether inode record `id` exists in the inode area.
    pub open spec fn inode_in_range(&self, id: int) -> bool {
        0 <= id < self.inode_bitmap.spec_maximum()
    }

    /// The block holding inode record `id`.
    pub open spec fn spec_inode_block(&self, id: int) -> int {
        self.inode_area_start_block + id / (INODES_PER_BLOCK as int)
    }

    /// The byte offset of inode record `id` inside its block.
    pub open spec fn spec_inode_off(&self, id: int) -> int {
        (id % (INODES_PER_BLOCK as int)) * INODE_SZ
    }

    /// The record location of inode `id` lies inside the inode area.
    pub proof fn lemma_inode_loc(&self, id: int)
        requires
            self.wf(),
            self.inode_in_range(id),
        ensures
            self.inode_area_start_block <= self.spec_inode_block(id)
                < self.data_bitmap.start_block_id,
            0 <= self.spec_inode_off(id),
            self.spec_inode_off(id) + INODE_SZ <= BLOCK_SZ,
    {
        lemma_fundamental_div_mod(id, INODES_PER_BLOCK as int);
    }

    /// Two distinct inode ids in the same block occupy disjoint record
    /// byte ranges.
    pub proof fn lemma_rec_disjoint(&self, a: int, b: int)
        requires
            self.wf(),
            self.inode_in_range(a),
            self.inode_in_range(b),
            a != b,
            self.spec_inode_block(a) == self.spec_inode_block(b),
        ensures
            self.spec_inode_off(a) + INODE_SZ <= self.spec_inode_off(b)
                || self.spec_inode_off(b) + INODE_SZ <= self.spec_inode_off(a),
    {
        lemma_fundamental_div_mod(a, INODES_PER_BLOCK as int);
        lemma_fundamental_div_mod(b, INODES_PER_BLOCK as int);
    }

    /// Formats a fresh image: computes the region layout, zeroes every
    /// block, writes the superblock, and creates inode 0 as the root
    /// directory. The size bounds asked of the caller are conservative
    /// headroom for the layout arithmetic, well above every intended image
    /// size, not the exact machine limits.
    #[verifier::rlimit(100)]
    pub fn create(block_device: MemDisk, total_blocks: u32, inode_bitmap_blocks: u32) -> (r:
        Self)
        requires
            disk_wf(block_device@),
            block_device@.len() == total_blocks,
            1 <= inode_bitmap_blocks <= 64,
            total_blocks <= 0x4000000,
            3 + inode_bitmap_blocks + INODE_AREA_PER_BITMAP_BLOCK * inode_bitmap_blocks
                <= total_blocks,
        ensures
            r.wf(),
            r.block_device@.len() == total_blocks,
            r.inode_bitmap.blocks == inode_bitmap_blocks,
            r.data_bitmap.blocks == spec_data_bitmap_blocks(
                total_blocks as int, inode_bitmap_blocks as int),
            r.inode_area_start_block == 1 + inode_bitmap_blocks,
            super_block_at(r.block_device@) == (SuperBlock {
                magic: EFS_MAGIC,
                total_blocks,
                inode_bitmap_blocks,
                inode_area_blocks: (INODE_AREA_PER_BITMAP_BLOCK * inode_bitmap_blocks as usize)
                    as u32,
                data_bitmap_blocks: spec_data_bitmap_blocks(
                    total_blocks as int, inode_bitmap_blocks as int) as u32,
                data_area_blocks: (total_blocks - 1 - inode_bitmap_blocks
                    - INODE_AREA_PER_BITMAP_BLOCK as u32 * inode_bitmap_blocks
                    - spec_data_bitmap_blocks(
                    total_blocks as int, inode_bitmap_blocks as int)) as u32,
            }),
            r.inode_bitmap.bit(r.block_device@, 0),
            forall|j: int|
                1 <= j < r.inode_bitmap.spec_maximum() ==> !r.inode_bitmap.bit(
                    r.block_device@, j),
            forall|j: int|
                0 <= j < r.data_bitmap.spec_maximum() ==> !r.data_bitmap.bit(
                    r.block_device@, j),
            u32_at(r.block_device@[r.spec_inode_block(0)], r.spec_inode_off(0)) == 0,
            u32_at(r.block_device@[r.spec_inode_block(0)], r.spec_inode_off(0) + 4) == 1,
            forall|t: int|
                0 <= t < 12 ==> #[trigger] rec_direct_at(
                    r.block_device@[r.spec_inode_block(0)], r.spec_inode_off(0), t) == 0,
            u32_at(r.block_device@[r.spec_inode_block(0)], r.spec_inode_off(0) + 56) == 0,
            u32_at(r.block_device@[r.spec_inode_block(0)], r.spec_inode_off(0) + 60) == 0,
            forall|b: int, j: int|
                r.data_area_start_block <= b < total_blocks && 0 <= j < BLOCK_SZ
                    ==> r.block_device@[b][j] == 0u8,
    {
        let ibb = inode_bitmap_blocks;
        let inode_bitmap = Bitmap::new(1, ibb as usize);
        let inode_num = inode_bitmap.maximum();
        let inode_area_blocks = ((inode_num * INODE_SZ + BLOCK_SZ - 1) / BLOCK_SZ) as u32;
        proof {
            lemma_div_multiples_vanish_fancy(
                INODE_AREA_PER_BITMAP_BLOCK as int * ibb as int, (BLOCK_SZ - 1) as int,
                BLOCK_SZ as int);
        }
        let inode_total_blocks = ibb + inode_area_blocks;
        let data_total_blocks = total_blocks - 1 - inode_total_blocks;
        let data_bitmap_blocks = (data_total_blocks + BITS_PER_BLOCK as u32) / (
            BITS_PER_BLOCK as u32 + 1);
        proof {
            lemma_fundamental_div_mod(
                data_total_blocks as int + BITS_PER_BLOCK, (BITS_PER_BLOCK + 1) as int);
        }
        let data_area_blocks = data_total_blocks - data_bitmap_blocks;
        let data_bitmap = Bitmap::new((1 + inode_total_blocks) as usize,
            data_bitmap_blocks as usize);
        let mut efs = EasyFileSystem {
            block_device,
            inode_bitmap,
            data_bitmap,
            inode_area_start_block: 1 + ibb,
            data_area_start_block: 1 + inode_total_blocks + data_bitmap_blocks,
        };
        // clear all blocks
        let zero_block: Vec<u8> = vec![0u8; BLOCK_SZ];
        let mut i: usize = 0;
        let total = total_blocks as usize;
        while i < total
            invariant
                i <= total,
                efs.block_device@.len() == total,
                zero_block@.len() == BLOCK_SZ,
                forall|k: int| 0 <= k < BLOCK_SZ ==> zero_block@[k] == 0u8,
                disk_wf(efs.block_device@),
                forall|b: int, j: int|
                    0 <= b < i && 0 <= j < BLOCK_SZ ==> efs.block_device@[b][j] == 0u8,
                efs.inode_bitmap == inode_bitmap,
                efs.data_bitmap == data_bitmap,
                efs.inode_area_start_block == 1 + ibb,
                efs.data_area_start_block == 1 + inode_total_blocks + data_bitmap_blocks,
            decreases total - i,
        {
            efs.block_device.write_block(i, &zero_block);
            i = i + 1;
        }
        proof {
            assert(crate::bitmap::nth_bit(0u8, 0u8) == false) by (bit_vector);
            assert(forall|k: u8| k < 8 ==> !crate::bitmap::nth_bit(0u8, k)) by (bit_vector);
            assert(efs.wf());
        }
        // initialize the superblock
        let sb = SuperBlock::initialize(
            total_blocks,
            ibb,
            inode_area_blocks,
            data_bitmap_blocks,
            data_area_blocks,
        );
        sb.store(&mut efs.block_device);
        proof {
            lemma_all_bits_clear(&efs.inode_bitmap, efs.block_device@);
            lemma_all_bits_clear(&efs.data_bitmap, efs.block_device@);
        }
        // create an inode for the root directory
        let ghost d_pre = efs.block_device@;
        let ghost bm_pre = efs.inode_bitmap;
        let rid = efs.alloc_inode();
        proof {
            if rid is None {
                assert(bm_pre.bit(d_pre, 0));
                assert(false);
            }
            if rid->Some_0 != 0 {
                assert(bm_pre.bit(d_pre, 0));
                assert(false);
            }
        }
        let ghost d_alloc = efs.block_device@;
        let root = DiskInode::initialize(DiskInodeType::Directory);
        efs.set_disk_inode(0, &root);
        proof {
            let d_fin = efs.block_device@;
            let rec_b = efs.spec_inode_block(0);
            efs.lemma_inode_loc(0);
            assert forall|j: int|
                1 <= j < efs.inode_bitmap.spec_maximum() implies !efs.inode_bitmap.bit(
                d_fin, j) by {
                crate::bitmap::lemma_bit_recompose(j, efs.inode_bitmap.blocks as int);
                let bj = 1 + j / (BITS_PER_BLOCK as int);
                assert(d_fin[bj] == d_alloc[bj]);
                assert(efs.inode_bitmap.bit(d_alloc, j) == efs.inode_bitmap.bit(d_pre, j));
                assert(!efs.inode_bitmap.bit(d_pre, j));
            }
            assert forall|j: int|
                0 <= j < efs.data_bitmap.spec_maximum() implies !efs.data_bitmap.bit(
                d_fin, j) by {
                crate::bitmap::lemma_bit_recompose(j, efs.data_bitmap.blocks as int);
                let bj = efs.data_bitmap.start_block_id + j / (BITS_PER_BLOCK as int);
                assert(d_fin[bj] == d_alloc[bj]);
                assert(d_alloc[bj] == d_pre[bj]);
                assert(!efs.data_bitmap.bit(d_pre, j));
            }
            assert(efs.inode_bitmap.bit(d_fin, 0)) by {
                crate::bitmap::lemma_bit_recompose(0, efs.inode_bitmap.blocks as int);
                let bj = 1 + 0int / (BITS_PER_BLOCK as int);
                assert(d_fin[bj] == d_alloc[bj]);
            }
            assert forall|t: int|
                0 <= t < 12 implies #[trigger] rec_direct_at(
                d_fin[rec_b], efs.spec_inode_off(0), t) == 0 by {
                assert(u32_at(d_fin[rec_b], efs.spec_inode_off(0) + 8 + 4 * t)
                    == root.direct[t]);
            }
            // the data area keeps the zeroes the format pass wrote
            assert forall|b: int, j: int|
                efs.data_area_start_block <= b < total_blocks && 0 <= j < BLOCK_SZ
                implies d_fin[b][j] == 0u8 by {
                assert(d_fin[b] == d_alloc[b]);
                assert(d_alloc[b] == d_pre[b]);
            }
        }
        efs
    }

    /// Opens a formatted image: validates the superblock and re-derives the
    /// region boundaries from the persisted counts. Returns nothing when the
    /// magic or the recorded layout is not that of a valid image: the extra
    /// layout checks guard the invariants every later operation relies on,
    /// and every image this engine formats passes them.
    pub fn open(block_device: MemDisk) -> (r: Option<Self>)
        requires
            disk_wf(block_device@),
            block_device@.len() >= 1,
        ensures
            match r {
                Option::Some(fs) => {
                    &&& fs.wf()
                    &&& fs.block_device@ == block_device@
                    &&& super_block_at(block_device@).magic == EFS_MAGIC
                    &&& fs.inode_bitmap.blocks == super_block_at(
                        block_device@).inode_bitmap_blocks
                    &&& fs.data_bitmap.blocks == super_block_at(
                        block_device@).data_bitmap_blocks
                    &&& fs.inode_area_start_block == 1 + super_block_at(
                        block_device@).inode_bitmap_blocks
                    &&& fs.data_area_start_block == 1 + super_block_at(
                        block_device@).inode_bitmap_blocks + super_block_at(
                        block_device@).inode_area_blocks + super_block_at(
                        block_device@).data_bitmap_blocks
                },
                Option::None => true,
            },
            r is None <==> (super_block_at(block_device@).magic != EFS_MAGIC
                || !spec_layout_consistent(block_device@)),
    {
        let sb = SuperBlock::load(&block_device);
        if !sb.is_valid() {
            return None;
        }
        let ibb = sb.inode_bitmap_blocks;
        let iab = sb.inode_area_blocks;
        let dbb = sb.data_bitmap_blocks;
        // the layout checks a well-formed image satisfies by construction
        if !(1 <= ibb && ibb <= 64) {
            return None;
        }
        if iab != (INODE_AREA_PER_BITMAP_BLOCK as u32) * ibb {
            return None;
        }
        let total = block_device.num_blocks();
        if !(2 + (ibb as u64) + (iab as u64) + (dbb as u64) <= total as u64 && total
            <= 0x4000000 && dbb <= 16384) {
            return None;
        }
        let inode_total_blocks = ibb + iab;
        let efs = EasyFileSystem {
            block_device,
            inode_bitmap: Bitmap::new(1, ibb as usize),
            data_bitmap: Bitmap::new((1 + inode_total_blocks) as usize, dbb as usize),
            inode_area_start_block: 1 + ibb,
            data_area_start_block: 1 + inode_total_blocks + dbb,
        };
        Some(efs)
    }

    /// A handle on the root directory, which is always inode 0.
    pub fn root_inode(&self) -> (r: Inode)
        ensures
            r.inode_id == 0,
    {
        Inode::new(0)
    }

    /// Decodes inode record `inode_id` from the inode area.
    pub fn get_disk_inode(&self, inode_id: u32) -> (r: DiskInode)
        requires
            self.wf(),
            self.inode_in_range(inode_id as int),
        ensures
            r.direct.len() == 12,
            rec_ensures(self, inode_id as int, r),
    {
        proof {
            self.lemma_inode_loc(inode_id as int);
        }
        let block_id = self.inode_area_start_block + inode_id / (INODES_PER_BLOCK as u32);
        let off = (inode_id as usize % INODES_PER_BLOCK) * INODE_SZ;
        read_inode(&self.block_device, block_id as usize, off)
    }

    /// Encodes `ino` into inode record `inode_id`; nothing outside that one
    /// record changes.
    pub fn set_disk_inode(&mut self, inode_id: u32, ino: &DiskInode)
        requires
            old(self).wf(),
            old(self).inode_in_range(inode_id as int),
            ino.direct.len() == 12,
        ensures
            final(self).wf(),
            final(self).inode_bitmap == old(self).inode_bitmap,
            final(self).data_bitmap == old(self).data_bitmap,
            final(self).inode_area_start_block == old(self).inode_area_start_block,
            final(self).data_area_start_block == old(self).data_area_start_block,
            final(self).block_device@.len() == old(self).block_device@.len(),
            forall|b: int|
                0 <= b < old(self).block_device@.len() && b != old(self).spec_inode_block(
                    inode_id as int) ==> final(self).block_device@[b] == old(
                    self).block_device@[b],
            forall|j: int|
                0 <= j < BLOCK_SZ && !(old(self).spec_inode_off(inode_id as int) <= j < old(
                    self).spec_inode_off(inode_id as int) + INODE_SZ) ==> final(
                    self).block_device@[old(self).spec_inode_block(inode_id as int)][j] == old(
                    self).block_device@[old(self).spec_inode_block(inode_id as int)][j],
            rec_matches(
                final(self).block_device@[old(self).spec_inode_block(inode_id as int)], old(
                    self).spec_inode_off(inode_id as int), *ino),
    {
        proof {
            self.lemma_inode_loc(inode_id as int);
        }
        let block_id = self.inode_area_start_block + inode_id / (INODES_PER_BLOCK as u32);
        let off = (inode_id as usize % INODES_PER_BLOCK) * INODE_SZ;
        write_inode(&mut self.block_device, block_id as usize, off, ino);
    }

    /// A copy of data block `data_block_id`, addressed relative to the
    /// data area's start.
    pub fn get_data_block(&self, data_block_id: u32) -> (r: Vec<u8>)
        requires
            self.wf(),
            self.data_area_start_block + data_block_id < self.block_device@.len(),
        ensures
            r@ == self.block_device@[self.data_area_start_block + data_block_id],
    {
        self.block_device.read_block((self.data_area_start_block + data_block_id) as usize)
    }

    /// Allocates the lowest free inode id.
    pub fn alloc_inode(&mut self) -> (r: Option<u32>)
        requires
            old(self).wf(),
        ensures
            final(self).wf(),
            final(self).inode_bitmap == old(self).inode_bitmap,
            final(self).data_bitmap == old(self).data_bitmap,
            final(self).inode_area_start_block == old(self).inode_area_start_block,
            final(self).data_area_start_block == old(self).data_area_start_block,
            final(self).block_device@.len() == old(self).block_device@.len(),
            forall|b: int|
                0 <= b < old(self).block_device@.len() && !(1 <= b < 1
                    + old(self).inode_bitmap.blocks) ==> final(self).block_device@[b] == old(
                    self).block_device@[b],
            match r {
                Option::Some(i) => {
                    &&& 0 <= i < old(self).inode_bitmap.spec_maximum()
                    &&& !old(self).inode_bitmap.bit(old(self).block_device@, i as int)
                    &&& final(self).inode_bitmap.bit(final(self).block_device@, i as int)
                    &&& forall|j: int|
                        0 <= j < old(self).inode_bitmap.spec_maximum() && j != i ==> final(
                            self).inode_bitmap.bit(final(self).block_device@, j) == old(
                            self).inode_bitmap.bit(old(self).block_device@, j)
                    &&& forall|j: int|
                        0 <= j < i ==> old(self).inode_bitmap.bit(old(self).block_device@, j)
                },
                Option::None => {
                    &&& final(self).block_device@ == old(self).block_device@
                    &&& forall|j: int|
                        0 <= j < old(self).inode_bitmap.spec_maximum() ==> old(
                            self).inode_bitmap.bit(old(self).block_device@, j)
                },
            },
    {
        match self.inode_bitmap.allocate(&mut self.block_device) {
            Some(i) => Some(i as u32),
            None => None,
        }
    }

    /// Allocates the lowest free data block, returning its absolute block
    /// id (bitmap index plus the data area's starting block).
    pub fn alloc_data(&mut self) -> (r: Option<u32>)
        requires
            old(self).wf(),
        ensures
            final(self).wf(),
            final(self).inode_bitmap == old(self).inode_bitmap,
            final(self).data_bitmap == old(self).data_bitmap,
            final(self).inode_area_start_block == old(self).inode_area_start_block,
            final(self).data_area_start_block == old(self).data_area_start_block,
            final(self).block_device@.len() == old(self).block_device@.len(),
            forall|b: int|
                0 <= b < old(self).block_device@.len() && !(
                    old(self).data_bitmap.start_block_id <= b < old(
                    self).data_bitmap.start_block_id + old(self).data_bitmap.blocks) ==> final(
                    self).block_device@[b] == old(self).block_device@[b],
            match r {
                Option::Some(id) => {
                    &&& old(self).data_area_start_block <= id
                    &&& id < old(self).block_device@.len()
                    &&& id - old(self).data_area_start_block < old(
                        self).data_bitmap.spec_maximum()
                    &&& !old(self).data_bitmap.bit(
                        old(self).block_device@, id - old(self).data_area_start_block)
                    &&& final(self).data_bitmap.bit(
                        final(self).block_device@, id - old(self).data_area_start_block)
                    &&& forall|j: int|
                        0 <= j < id - old(self).data_area_start_block ==> old(
                            self).data_bitmap.bit(old(self).block_device@, j)
                    &&& forall|j: int|
                        0 <= j < old(self).data_bitmap.spec_maximum() && j != id - old(
                            self).data_area_start_block ==> final(self).data_bitmap.bit(
                            final(self).block_device@, j) == old(self).data_bitmap.bit(
                            old(self).block_device@, j)
                },
                Option::None => {
                    &&& forall|j: int|
                        0 <= j < old(self).data_bitmap.spec_maximum() ==> final(
                            self).data_bitmap.bit(final(self).block_device@, j) == old(
                            self).data_bitmap.bit(old(self).block_device@, j)
                    &&& no_usable_data_block(old(self))
                },
            },
    {
        match self.data_bitmap.allocate(&mut self.block_device) {
            Some(i) => {
                let id = self.data_area_start_block + i as u32;
                if (id as usize) < self.block_device.num_blocks() {
                    Some(id)
                } else {
                    // a bit beyond the data area: the image is full
                    self.data_bitmap.dealloc(&mut self.block_device, i);
                    None
                }
            },
            None => None,
        }
    }

    /// Returns data block `block_id` (an absolute id) to the free pool.
    pub fn dealloc_data(&mut self, block_id: u32)
        requires
            old(self).wf(),
            old(self).data_area_start_block <= block_id,
            block_id - old(self).data_area_start_block < old(self).data_bitmap.spec_maximum(),
            old(self).data_bitmap.bit(
                old(self).block_device@, block_id - old(self).data_area_start_block),
        ensures
            final(self).wf(),
            final(self).inode_bitmap == old(self).inode_bitmap,
            final(self).data_bitmap == old(self).data_bitmap,
            final(self).inode_area_start_block == old(self).inode_area_start_block,
            final(self).data_area_start_block == old(self).data_area_start_block,
            final(self).block_device@.len() == old(self).block_device@.len(),
            forall|b: int|
                0 <= b < old(self).block_device@.len() && !(
                    old(self).data_bitmap.start_block_id <= b < old(
                    self).data_bitmap.start_block_id + old(self).data_bitmap.blocks) ==> final(
                    self).block_device@[b] == old(self).block_device@[b],
            !final(self).data_bitmap.bit(
                final(self).block_device@, block_id - old(self).data_area_start_block),
            forall|j: int|
                0 <= j < old(self).data_bitmap.spec_maximum() && j != block_id - old(
                    self).data_area_start_block ==> final(self).data_bitmap.bit(
                    final(self).block_device@, j) == old(self).data_bitmap.bit(
                    old(self).block_device@, j),
    {
        let idx = (block_id - self.data_area_start_block) as usize;
        self.data_bitmap.dealloc(&mut self.block_device, idx);
    }
}

/// The persisted counts describe a layout the engine can mount.
pub open spec fn spec_layout_consistent(d: Seq<Seq<u8>>) -> bool {
    let sb = super_block_at(d);
    &&& 1 <= sb.inode_bitmap_blocks <= 64
    &&& sb.inode_area_blocks == INODE_AREA_PER_BITMAP_BLOCK * sb.inode_bitmap_blocks
    &&& 2 + sb.inode_bitmap_blocks + sb.inode_area_blocks + sb.data_bitmap_blocks <= d.len()
    &&& d.len() <= 0x4000000
    &&& sb.data_bitmap_blocks <= 16384
}

/// All bits of a bitmap over all-zero blocks are clear.
pub proof fn lemma_all_bits_clear(bm: &Bitmap, d: Seq<Seq<u8>>)
    requires
        bm.wf(),
        bm.on_disk(d),
        forall|b: int, j: int|
            bm.start_block_id <= b < bm.start_block_id + bm.blocks && 0 <= j < BLOCK_SZ
                ==> d[b][j] == 0u8,
        forall|b: int| 0 <= b < d.len() ==> (#[trigger] d[b]).len() == BLOCK_SZ,
    ensures
        forall|i: int| 0 <= i < bm.spec_maximum() ==> !bm.bit(d, i),
{
    assert(forall|k: u8| !crate::bitmap::nth_bit(0u8, k)) by (bit_vector);
    assert forall|i: int| 0 <= i < bm.spec_maximum() implies !bm.bit(d, i) by {
        crate::bitmap::lemma_bit_recompose(i, bm.blocks as int);
    }
}

/// What decoding inode record `id` of filesystem `fs` yields.
pub open spec fn rec_ensures(fs: &EasyFileSystem, id: int, r: DiskInode) -> bool {
    let b = fs.block_device@[fs.spec_inode_block(id)];
    let off = fs.spec_inode_off(id);
    &&& r.size == u32_at(b, off)
    &&& ty_code(r.ty) == (if u32_at(b, off + 4) == 1 { 1int } else { 0int })
    &&& forall|t: int| 0 <= t < 12 ==> r.direct[t] == u32_at(b, off + 8 + 4 * t)
    &&& r.indirect1 == u32_at(b, off + 56)
    &&& r.indirect2 == u32_at(b, off + 60)
}

/// Opening an image right after formatting reproduces the same region
/// boundaries: the premises are what `create` ensures of the image it
/// leaves behind and what `open` ensures of the instance it builds from
/// the persisted counts.
pub proof fn lemma_open_reproduces_layout(created: &EasyFileSystem, opened: &EasyFileSystem,
    total_blocks: u32, ibb: u32)
    requires
        created.wf(),
        opened.wf(),
        1 <= ibb <= 64,
        total_blocks <= 0x4000000,
        3 + ibb + INODE_AREA_PER_BITMAP_BLOCK * ibb <= total_blocks,
        created.inode_bitmap.blocks == ibb,
        created.data_bitmap.blocks == spec_data_bitmap_blocks(
            total_blocks as int, ibb as int),
        created.inode_area_start_block == 1 + ibb,
        super_block_at(created.block_device@).inode_bitmap_blocks == ibb,
        super_block_at(created.block_device@).inode_area_blocks == (
        INODE_AREA_PER_BITMAP_BLOCK * ibb as usize) as u32,
        super_block_at(created.block_device@).data_bitmap_blocks == spec_data_bitmap_blocks(
            total_blocks as int, ibb as int) as u32,
        opened.block_device@ == created.block_device@,
        opened.inode_bitmap.blocks == super_block_at(created.block_device@).inode_bitmap_blocks,
        opened.data_bitmap.blocks == super_block_at(created.block_device@).data_bitmap_blocks,
        opened.inode_area_start_block == 1 + super_block_at(
            created.block_device@).inode_bitmap_blocks,
        opened.data_area_start_block == 1 + super_block_at(
            created.block_device@).inode_bitmap_blocks + super_block_at(
            created.block_device@).inode_area_blocks + super_block_at(
            created.block_device@).data_bitmap_blocks,
    ensures
        opened.inode_bitmap == created.inode_bitmap,
        opened.data_bitmap == created.data_bitmap,
        opened.inode_area_start_block == created.inode_area_start_block,
        opened.data_area_start_block == created.data_area_start_block,
{
    lemma_fundamental_div_mod(
        total_blocks - 1 - ibb - INODE_AREA_PER_BITMAP_BLOCK * ibb + BITS_PER_BLOCK, (
        BITS_PER_BLOCK + 1) as int);
}

/// No data-block allocation can succeed on `fs`: either every tracked bit is
/// set, or the lowest clear bit indexes a block past the device's end.
pub open spec fn no_usable_data_block(fs: &EasyFileSystem) -> bool {
    ||| forall|j: int|
        0 <= j < fs.data_bitmap.spec_maximum() ==> fs.data_bitmap.bit(fs.block_device@, j)
    ||| exists|i: int|
        {
            &&& 0 <= i < fs.data_bitmap.spec_maximum()
            &&& !fs.data_bitmap.bit(fs.block_device@, i)
            &&& (forall|j: int| 0 <= j < i ==> fs.data_bitmap.bit(fs.block_device@, j))
            &&& fs.data_area_start_block + i >= fs.block_device@.len()
        }
}

} // verus!
