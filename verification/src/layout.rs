//! On-disk layout: the superblock describing the five disk regions, and the
//! packed disk-inode record with its three-tier block map (direct pointers,
//! one single-indirect index block, one double-indirect index tree).

use vstd::prelude::*;
use crate::{
    BLOCK_SZ, EFS_MAGIC, INODE_DIRECT_COUNT, INODE_INDIRECT1_COUNT, DIRECT_BOUND,
    INDIRECT1_BOUND, INODE_SZ,
};
use crate::disk::{MemDisk, disk_wf};
use crate::block_cache::{CachedBlock, u32_at};
use vstd::arithmetic::div_mod::{
    lemma_div_multiples_vanish_fancy, lemma_mod_multiples_vanish, lemma_small_mod,
    lemma_fundamental_div_mod,
};

verus! {

/// Largest number of data blocks one inode can map: the direct pointers,
/// one full single-indirect block, and a full double-indirect tree.
pub const MAX_DATA_BLOCKS: usize = 16524;

/// Fixed-layout metadata for a whole image: a magic stamp and the sizes of
/// the five on-disk regions, stored in block 0.
#[derive(Clone, Copy, PartialEq, Eq, Structural, Debug)]
pub struct SuperBlock {
    pub magic: u32,
    pub total_blocks: u32,
    pub inode_bitmap_blocks: u32,
    pub inode_area_blocks: u32,
    pub data_bitmap_blocks: u32,
    pub data_area_blocks: u32,
}

/// The superblock encoded in block 0 of disk `d`.
pub open spec fn super_block_at(d: Seq<Seq<u8>>) -> SuperBlock {
    SuperBlock {
        magic: u32_at(d[0], 0) as u32,
        total_blocks: u32_at(d[0], 4) as u32,
        inode_bitmap_blocks: u32_at(d[0], 8) as u32,
        inode_area_blocks: u32_at(d[0], 12) as u32,
        data_bitmap_blocks: u32_at(d[0], 16) as u32,
        data_area_blocks: u32_at(d[0], 20) as u32,
    }
}

impl SuperBlock {
    /// Stamps the magic value and the five region sizes.
    pub fn initialize(
        total_blocks: u32,
        inode_bitmap_blocks: u32,
        inode_area_blocks: u32,
        data_bitmap_blocks: u32,
        data_area_blocks: u32,
    ) -> (r: Self)
        ensures
            r == (SuperBlock {
                magic: EFS_MAGIC,
                total_blocks,
                inode_bitmap_blocks,
                inode_area_blocks,
                data_bitmap_blocks,
                data_area_blocks,
            }),
    {
        SuperBlock {
            magic: EFS_MAGIC,
            total_blocks,
            inode_bitmap_blocks,
            inode_area_blocks,
            data_bitmap_blocks,
            data_area_blocks,
        }
    }

    /// Whether the magic stamp marks this as a formatted image.
    pub fn is_valid(&self) -> (r: bool)
        ensures
            r == (self.magic == EFS_MAGIC),
    {
        self.magic == EFS_MAGIC
    }

    /// Writes the superblock into block 0.
    pub fn store(&self, disk: &mut MemDisk)
        requires
            disk_wf(old(disk)@),
            old(disk)@.len() >= 1,
        ensures
            disk_wf(final(disk)@),
            final(disk)@.len() == old(disk)@.len(),
            super_block_at(final(disk)@) == *self,
            forall|b: int| 1 <= b < old(disk)@.len() ==> final(disk)@[b] == old(disk)@[b],
            forall|j: int| 24 <= j < BLOCK_SZ ==> final(disk)@[0][j] == old(disk)@[0][j],
    {
        let mut cache = CachedBlock::acquire(disk, 0);
        cache.set_u32(0, self.magic);
        cache.set_u32(4, self.total_blocks);
        cache.set_u32(8, self.inode_bitmap_blocks);
        cache.set_u32(12, self.inode_area_blocks);
        cache.set_u32(16, self.data_bitmap_blocks);
        cache.set_u32(20, self.data_area_blocks);
        cache.sync(disk);
    }

    /// Reads the superblock back from block 0.
    pub fn load(disk: &MemDisk) -> (r: Self)
        requires
            disk_wf(disk@),
            disk@.len() >= 1,
        ensures
            r == super_block_at(disk@),
    {
        let cache = CachedBlock::acquire(disk, 0);
        SuperBlock {
            magic: cache.get_u32(0),
            total_blocks: cache.get_u32(4),
            inode_bitmap_blocks: cache.get_u32(8),
            inode_area_blocks: cache.get_u32(12),
            data_bitmap_blocks: cache.get_u32(16),
            data_area_blocks: cache.get_u32(20),
        }
    }
}

/// Whether a disk inode holds a byte-stream file or a directory; both grow
/// through the same block map.
#[derive(Clone, Copy, PartialEq, Eq, Structural, Debug)]
pub enum DiskInodeType {
    File,
    Directory,
}

/// The on-disk encoding of an inode type.
pub open spec fn ty_code(ty: DiskInodeType) -> int {
    match ty {
        DiskInodeType::File => 0,
        DiskInodeType::Directory => 1,
    }
}

/// One file's or directory's on-disk record: its size in bytes and the
/// three-tier block pointer structure.
#[derive(Clone, Debug)]
pub struct DiskInode {
    pub size: u32,
    pub ty: DiskInodeType,
    pub direct: Vec<u32>,
    pub indirect1: u32,
    pub indirect2: u32,
}

/// Data blocks needed to hold `size` bytes.
pub open spec fn blocks_for(size: int) -> int {
    (size + (BLOCK_SZ - 1)) / (BLOCK_SZ as int)
}

/// The pointer stored at slot `k` of index block `b`.
pub open spec fn ptr_at(b: Seq<u8>, k: int) -> int {
    u32_at(b, 4 * k)
}

/// How many double-indirect child index blocks serve `n` data blocks.
pub open spec fn idx_children(n: int) -> int {
    if n > INDIRECT1_BOUND {
        (n - INDIRECT1_BOUND + (INODE_INDIRECT1_COUNT - 1)) / (INODE_INDIRECT1_COUNT as int)
    } else {
        0
    }
}

/// Index blocks (single-indirect, double-indirect root and children) that
/// serve `n` data blocks.
pub open spec fn idx_total(n: int) -> int {
    (if n > DIRECT_BOUND { 1int } else { 0int }) + (if n > INDIRECT1_BOUND { 1int } else { 0int })
        + idx_children(n)
}

impl DiskInode {
    /// Data blocks reachable through the pointer structure.
    pub open spec fn spec_data_blocks(&self) -> int {
        blocks_for(self.size as int)
    }

    /// Data blocks plus index blocks currently owned.
    pub open spec fn spec_total_blocks(&self) -> int {
        self.spec_data_blocks() + idx_total(self.spec_data_blocks())
    }

    /// The double-indirect child index block serving chunk `c`.
    pub open spec fn spec_child_at(&self, d: Seq<Seq<u8>>, c: int) -> int {
        ptr_at(d[self.indirect2 as int], c)
    }

    /// The physical block holding logical block `i` of this inode.
    pub open spec fn spec_block_at(&self, d: Seq<Seq<u8>>, i: int) -> int {
        if i < DIRECT_BOUND {
            self.direct[i] as int
        } else if i < INDIRECT1_BOUND {
            ptr_at(d[self.indirect1 as int], i - DIRECT_BOUND)
        } else {
            ptr_at(
                d[self.spec_child_at(d, (i - INDIRECT1_BOUND) / (INODE_INDIRECT1_COUNT as int))],
                (i - INDIRECT1_BOUND) % (INODE_INDIRECT1_COUNT as int),
            )
        }
    }

    /// The index blocks owned, in a fixed order: single-indirect root,
    /// double-indirect root, then the double-indirect children.
    pub open spec fn owned_index_blocks(&self, d: Seq<Seq<u8>>) -> Seq<int> {
        let n = self.spec_data_blocks();
        (if n > DIRECT_BOUND { seq![self.indirect1 as int] } else { Seq::empty() }) + (if n
            > INDIRECT1_BOUND {
            seq![self.indirect2 as int] + Seq::new(idx_children(n) as nat, |c: int| self.spec_child_at(d, c))
        } else {
            Seq::empty()
        })
    }

    /// Every block owned: the data blocks in logical order, then the index
    /// blocks.
    pub open spec fn owned_blocks(&self, d: Seq<Seq<u8>>) -> Seq<int> {
        Seq::new(self.spec_data_blocks() as nat, |i: int| self.spec_block_at(d, i))
            + self.owned_index_blocks(d)
    }

    /// Structural well-formedness on disk `d`: twelve direct slots, every
    /// owned block a real, non-superblock block, no block owned twice, and
    /// the whole map within capacity.
    pub open spec fn map_wf(&self, d: Seq<Seq<u8>>) -> bool {
        &&& self.direct.len() == INODE_DIRECT_COUNT
        &&& self.size <= MAX_DATA_BLOCKS * BLOCK_SZ
        &&& self.spec_data_blocks() <= MAX_DATA_BLOCKS
        &&& forall|p: int|
            0 <= p < self.owned_blocks(d).len() ==> 1 <= #[trigger] self.owned_blocks(d)[p]
                < d.len()
        &&& forall|p: int, q: int|
            0 <= p < q < self.owned_blocks(d).len() ==> self.owned_blocks(d)[p]
                != self.owned_blocks(d)[q]
    }

    /// The byte stream this inode holds on disk `d`.
    pub open spec fn spec_content(&self, d: Seq<Seq<u8>>) -> Seq<u8> {
        Seq::new(
            self.size as nat,
            |t: int| d[self.spec_block_at(d, t / (BLOCK_SZ as int))][t % (BLOCK_SZ as int)],
        )
    }

    /// A fresh, empty inode: size zero, every pointer cleared.
    pub fn initialize(ty: DiskInodeType) -> (r: Self)
        ensures
            r.size == 0,
            r.ty == ty,
            r.indirect1 == 0,
            r.indirect2 == 0,
            r.direct.len() == INODE_DIRECT_COUNT,
            forall|t: int| 0 <= t < INODE_DIRECT_COUNT ==> r.direct[t] == 0u32,
            forall|d: Seq<Seq<u8>>| r.map_wf(d),
            forall|d: Seq<Seq<u8>>| (#[trigger] r.spec_content(d)) == Seq::<u8>::empty(),
    {
        let direct: Vec<u32> = vec![0u32; INODE_DIRECT_COUNT];
        let r = DiskInode { size: 0, ty, direct, indirect1: 0, indirect2: 0 };
        proof {
            assert forall|d: Seq<Seq<u8>>| r.map_wf(d) by {
                assert(r.owned_blocks(d).len() == 0);
            }
            assert forall|d: Seq<Seq<u8>>| (#[trigger] r.spec_content(d)) == Seq::<u8>::empty()
                by {
                assert(r.spec_content(d) =~= Seq::<u8>::empty());
            }
        }
        r
    }

    /// Whether this inode is a directory.
    pub fn is_dir(&self) -> (r: bool)
        ensures
            r == (self.ty == DiskInodeType::Directory),
    {
        match self.ty {
            DiskInodeType::Directory => true,
            DiskInodeType::File => false,
        }
    }

    /// `ceil(size / BLOCK_SZ)`: data blocks backing the current size.
    pub fn data_blocks(&self) -> (r: u32)
        requires
            self.size <= MAX_DATA_BLOCKS * BLOCK_SZ,
        ensures
            r == self.spec_data_blocks(),
    {
        (self.size + (BLOCK_SZ as u32 - 1)) / (BLOCK_SZ as u32)
    }

    /// Data plus index blocks owned at the current size.
    pub fn total_blocks(&self) -> (r: u32)
        requires
            self.size <= MAX_DATA_BLOCKS * BLOCK_SZ,
            self.spec_data_blocks() <= MAX_DATA_BLOCKS,
        ensures
            r == self.spec_total_blocks(),
    {
        let n = self.data_blocks();
        let mut total = n;
        if n > DIRECT_BOUND as u32 {
            total = total + 1;
        }
        if n > INDIRECT1_BOUND as u32 {
            total = total + 1;
            total = total + (n - INDIRECT1_BOUND as u32 + (INODE_INDIRECT1_COUNT as u32 - 1))
                / (INODE_INDIRECT1_COUNT as u32);
        }
        total
    }

    /// How many fresh blocks growing to `new_size` consumes, counting both
    /// new data blocks and new index blocks.
    pub fn blocks_num_needed(&self, new_size: u32) -> (r: u32)
        requires
            self.size <= new_size,
            self.size <= MAX_DATA_BLOCKS * BLOCK_SZ,
            self.spec_data_blocks() <= MAX_DATA_BLOCKS,
            new_size <= MAX_DATA_BLOCKS * BLOCK_SZ,
            blocks_for(new_size as int) <= MAX_DATA_BLOCKS,
        ensures
            r == (blocks_for(new_size as int) + idx_total(blocks_for(new_size as int)))
                - self.spec_total_blocks(),
    {
        let old_total = self.total_blocks();
        let grown = DiskInode {
            size: new_size,
            ty: self.ty,
            direct: Vec::new(),
            indirect1: 0,
            indirect2: 0,
        };
        proof {
            lemma_blocks_for_monotone(self.size as int, new_size as int);
            lemma_idx_total_monotone(self.spec_data_blocks(), blocks_for(new_size as int));
        }
        let new_total = grown.total_blocks();
        new_total - old_total
    }

    /// Resolves logical block `i` through the tier that serves it, reading
    /// up to two index blocks.
    pub fn get_block_id(&self, i: u32, disk: &MemDisk) -> (r: u32)
        requires
            disk_wf(disk@),
            self.map_wf(disk@),
            i < self.spec_data_blocks(),
        ensures
            r == self.spec_block_at(disk@, i as int),
            1 <= r < disk@.len(),
    {
        proof {
            lemma_owned_lookup(self, disk@, i as int);
        }
        if i < DIRECT_BOUND as u32 {
            self.direct[i as usize]
        } else if i < INDIRECT1_BOUND as u32 {
            let cache = CachedBlock::acquire(disk, self.indirect1 as usize);
            cache.get_u32(4 * (i as usize - DIRECT_BOUND))
        } else {
            let j = i as usize - INDIRECT1_BOUND;
            let c = j / INODE_INDIRECT1_COUNT;
            let w = j % INODE_INDIRECT1_COUNT;
            proof {
                lemma_chunk_bounds(j as int, self.spec_data_blocks() - INDIRECT1_BOUND);
            }
            let cache2 = CachedBlock::acquire(disk, self.indirect2 as usize);
            let child = cache2.get_u32(4 * c);
            let cache1 = CachedBlock::acquire(disk, child as usize);
            cache1.get_u32(4 * w)
        }
    }
}

/// A larger size never needs fewer data blocks.
pub proof fn lemma_blocks_for_monotone(a: int, b: int)
    requires
        0 <= a <= b,
    ensures
        blocks_for(a) <= blocks_for(b),
        0 <= blocks_for(a) <= a,
{
    lemma_fundamental_div_mod(a + (BLOCK_SZ - 1), BLOCK_SZ as int);
    lemma_fundamental_div_mod(b + (BLOCK_SZ - 1), BLOCK_SZ as int);
}

/// More data blocks never need fewer index blocks.
pub proof fn lemma_idx_total_monotone(a: int, b: int)
    requires
        0 <= a <= b,
    ensures
        idx_total(a) <= idx_total(b),
        0 <= idx_children(a) <= idx_children(b),
{
    if b > INDIRECT1_BOUND {
        lemma_fundamental_div_mod(b - INDIRECT1_BOUND + (INODE_INDIRECT1_COUNT - 1),
            INODE_INDIRECT1_COUNT as int);
        if a > INDIRECT1_BOUND {
            lemma_fundamental_div_mod(a - INDIRECT1_BOUND + (INODE_INDIRECT1_COUNT - 1),
                INODE_INDIRECT1_COUNT as int);
        }
    }
}

/// A double-indirect offset `j` of a map with `m` blocks past the
/// single-indirect bound decomposes into an in-range chunk and slot.
pub proof fn lemma_chunk_bounds(j: int, m: int)
    requires
        0 <= j < m,
        m <= MAX_DATA_BLOCKS - INDIRECT1_BOUND,
    ensures
        0 <= j / (INODE_INDIRECT1_COUNT as int) < idx_children(m + INDIRECT1_BOUND),
        0 <= j % (INODE_INDIRECT1_COUNT as int) < INODE_INDIRECT1_COUNT,
        j == (j / (INODE_INDIRECT1_COUNT as int)) * INODE_INDIRECT1_COUNT + j % (
            INODE_INDIRECT1_COUNT as int),
{
    lemma_fundamental_div_mod(j, INODE_INDIRECT1_COUNT as int);
    lemma_fundamental_div_mod(m + (INODE_INDIRECT1_COUNT - 1), INODE_INDIRECT1_COUNT as int);
}

/// Every block the resolution of logical block `i` walks through (the index
/// blocks and the final data block) is a valid owned block.
pub proof fn lemma_owned_lookup(ino: &DiskInode, d: Seq<Seq<u8>>, i: int)
    requires
        ino.map_wf(d),
        0 <= i < ino.spec_data_blocks(),
    ensures
        1 <= ino.spec_block_at(d, i) < d.len(),
        i >= DIRECT_BOUND ==> 1 <= ino.indirect1 < d.len(),
        i >= INDIRECT1_BOUND ==> 1 <= ino.indirect2 < d.len() && 1 <= ino.spec_child_at(
            d, (i - INDIRECT1_BOUND) / (INODE_INDIRECT1_COUNT as int)) < d.len(),
{
    let n = ino.spec_data_blocks();
    let owned = ino.owned_blocks(d);
    assert(owned[i] == ino.spec_block_at(d, i));
    if i >= DIRECT_BOUND {
        assert(owned[n] == ino.indirect1 as int);
    }
    if i >= INDIRECT1_BOUND {
        assert(owned[n + 1] == ino.indirect2 as int);
        lemma_chunk_bounds(i - INDIRECT1_BOUND, n - INDIRECT1_BOUND);
        let c = (i - INDIRECT1_BOUND) / (INODE_INDIRECT1_COUNT as int);
        assert(owned[n + 2 + c] == ino.spec_child_at(d, c));
    }
}

/// The direct-pointer slot `t` of the record at `off` of block bytes `b`.
pub open spec fn rec_direct_at(b: Seq<u8>, off: int, t: int) -> int {
    u32_at(b, off + 8 + 4 * t)
}

/// Agreement between the packed record at `off` of block bytes `b` and an
/// in-memory inode.
pub open spec fn rec_matches(b: Seq<u8>, off: int, ino: DiskInode) -> bool {
    &&& u32_at(b, off) == ino.size
    &&& u32_at(b, off + 4) == ty_code(ino.ty)
    &&& forall|t: int| 0 <= t < INODE_DIRECT_COUNT ==> u32_at(b, off + 8 + 4 * t) == ino.direct[t]
    &&& u32_at(b, off + 56) == ino.indirect1
    &&& u32_at(b, off + 60) == ino.indirect2
}

/// Decodes the packed disk-inode record at byte `off` of block `block_id`.
pub fn read_inode(disk: &MemDisk, block_id: usize, off: usize) -> (r: DiskInode)
    requires
        disk_wf(disk@),
        block_id < disk@.len(),
        off + INODE_SZ <= BLOCK_SZ,
    ensures
        r.size == u32_at(disk@[block_id as int], off as int),
        ty_code(r.ty) == (if u32_at(disk@[block_id as int], off as int + 4) == 1 { 1int } else { 0int }),
        r.direct.len() == INODE_DIRECT_COUNT,
        forall|t: int|
            0 <= t < INODE_DIRECT_COUNT ==> r.direct[t] == u32_at(
                disk@[block_id as int], off as int + 8 + 4 * t),
        r.indirect1 == u32_at(disk@[block_id as int], off as int + 56),
        r.indirect2 == u32_at(disk@[block_id as int], off as int + 60),
{
    let cache = CachedBlock::acquire(disk, block_id);
    let size = cache.get_u32(off);
    let code = cache.get_u32(off + 4);
    let ty = if code == 1 { DiskInodeType::Directory } else { DiskInodeType::File };
    let mut direct: Vec<u32> = Vec::new();
    let mut t: usize = 0;
    while t < INODE_DIRECT_COUNT
        invariant
            t <= INODE_DIRECT_COUNT,
            off + INODE_SZ <= BLOCK_SZ,
            cache.wf(),
            cache@ == disk@[block_id as int],
            block_id < disk@.len(),
            direct@.len() == t,
            forall|u: int|
                0 <= u < t ==> direct@[u] == u32_at(disk@[block_id as int], off as int + 8 + 4
                    * u),
        decreases INODE_DIRECT_COUNT - t,
    {
        direct.push(cache.get_u32(off + 8 + 4 * t));
        t = t + 1;
    }
    let indirect1 = cache.get_u32(off + 56);
    let indirect2 = cache.get_u32(off + 60);
    DiskInode { size, ty, direct, indirect1, indirect2 }
}

/// Encodes an inode into the packed record at byte `off` of block
/// `block_id`; no byte outside the record changes.
pub fn write_inode(disk: &mut MemDisk, block_id: usize, off: usize, ino: &DiskInode)
    requires
        disk_wf(old(disk)@),
        block_id < old(disk)@.len(),
        off + INODE_SZ <= BLOCK_SZ,
        ino.direct.len() == INODE_DIRECT_COUNT,
    ensures
        disk_wf(final(disk)@),
        final(disk)@.len() == old(disk)@.len(),
        forall|b: int|
            0 <= b < old(disk)@.len() && b != block_id ==> final(disk)@[b] == old(disk)@[b],
        forall|j: int|
            0 <= j < BLOCK_SZ && !(off <= j < off + INODE_SZ) ==> final(disk)@[
                block_id as int][j] == old(disk)@[block_id as int][j],
        rec_matches(final(disk)@[block_id as int], off as int, *ino),
{
    let mut cache = CachedBlock::acquire(disk, block_id);
    cache.set_u32(off, ino.size);
    let code: u32 = match ino.ty {
        DiskInodeType::Directory => 1,
        DiskInodeType::File => 0,
    };
    cache.set_u32(off + 4, code);
    let mut t: usize = 0;
    while t < INODE_DIRECT_COUNT
        invariant
            t <= INODE_DIRECT_COUNT,
            off + INODE_SZ <= BLOCK_SZ,
            block_id < disk@.len(),
            disk@ == old(disk)@,
            disk_wf(disk@),
            ino.direct.len() == INODE_DIRECT_COUNT,
            cache.wf(),
            cache@.len() == BLOCK_SZ,
            cache.id() == block_id,
            u32_at(cache@, off as int) == ino.size,
            u32_at(cache@, off as int + 4) == ty_code(ino.ty),
            forall|u: int| 0 <= u < t ==> u32_at(cache@, off as int + 8 + 4 * u) == ino.direct[u],
            forall|j: int|
                0 <= j < BLOCK_SZ && !(off <= j < off + 8 + 4 * t) ==> cache@[j] == disk@[
                    block_id as int][j],
        decreases INODE_DIRECT_COUNT - t,
    {
        let ghost pre = cache@;
        cache.set_u32(off + 8 + 4 * t, ino.direct[t]);
        proof {
            assert(u32_at(cache@, off as int) == u32_at(pre, off as int));
            assert(u32_at(cache@, off as int + 4) == u32_at(pre, off as int + 4));
            assert forall|u: int|
                0 <= u < t + 1 implies u32_at(cache@, off as int + 8 + 4 * u) == ino.direct[
                u] by {
                if u < t {
                    assert(cache@[off + 8 + 4 * u] == pre[off + 8 + 4 * u]);
                    assert(cache@[off + 8 + 4 * u + 1] == pre[off + 8 + 4 * u + 1]);
                    assert(cache@[off + 8 + 4 * u + 2] == pre[off + 8 + 4 * u + 2]);
                    assert(cache@[off + 8 + 4 * u + 3] == pre[off + 8 + 4 * u + 3]);
                }
            }
        }
        t = t + 1;
    }
    let ghost pre1 = cache@;
    cache.set_u32(off + 56, ino.indirect1);
    let ghost pre2 = cache@;
    cache.set_u32(off + 60, ino.indirect2);
    proof {
        assert(u32_at(cache@, off as int) == ino.size);
        assert(u32_at(cache@, off as int + 4) == ty_code(ino.ty));
        assert forall|u: int|
            0 <= u < INODE_DIRECT_COUNT implies u32_at(cache@, off as int + 8 + 4 * u)
            == ino.direct[u] by {
            assert(cache@[off + 8 + 4 * u] == pre1[off + 8 + 4 * u]);
            assert(cache@[off + 8 + 4 * u + 1] == pre1[off + 8 + 4 * u + 1]);
            assert(cache@[off + 8 + 4 * u + 2] == pre1[off + 8 + 4 * u + 2]);
            assert(cache@[off + 8 + 4 * u + 3] == pre1[off + 8 + 4 * u + 3]);
            assert(pre1[off + 8 + 4 * u] == pre2[off + 8 + 4 * u]);
        }
        assert(u32_at(cache@, off as int + 56) == ino.indirect1);
    }
    cache.sync(disk);
}

/// A byte position inside the current size decomposes into an in-range
/// logical block and block offset.
pub proof fn lemma_pos_block(pos: int, size: int)
    requires
        0 <= pos < size,
    ensures
        0 <= pos / (BLOCK_SZ as int) < blocks_for(size),
        0 <= pos % (BLOCK_SZ as int) < BLOCK_SZ,
        pos == (pos / (BLOCK_SZ as int)) * BLOCK_SZ + pos % (BLOCK_SZ as int),
{
    lemma_fundamental_div_mod(pos, BLOCK_SZ as int);
    lemma_fundamental_div_mod(size + (BLOCK_SZ - 1), BLOCK_SZ as int);
}

/// Index blocks decide the whole block map: a disk that agrees with `d` on
/// every owned index block maps every logical block identically.
pub proof fn lemma_map_frame(ino: &DiskInode, d: Seq<Seq<u8>>, d2: Seq<Seq<u8>>)
    requires
        ino.map_wf(d),
        d2.len() == d.len(),
        forall|q: int|
            0 <= q < ino.owned_index_blocks(d).len() ==> d2[#[trigger] ino.owned_index_blocks(
                d)[q]] == d[ino.owned_index_blocks(d)[q]],
    ensures
        forall|i: int|
            0 <= i < ino.spec_data_blocks() ==> ino.spec_block_at(d2, i) == ino.spec_block_at(
                d, i),
        ino.owned_index_blocks(d2) == ino.owned_index_blocks(d),
        ino.owned_blocks(d2) == ino.owned_blocks(d),
        ino.map_wf(d2),
{
    let n = ino.spec_data_blocks();
    let idx = ino.owned_index_blocks(d);
    assert forall|i: int|
        0 <= i < n implies ino.spec_block_at(d2, i) == ino.spec_block_at(d, i) by {
        if i >= DIRECT_BOUND {
            assert(idx[0] == ino.indirect1 as int);
            assert(d2[ino.indirect1 as int] == d[ino.indirect1 as int]);
            if i >= INDIRECT1_BOUND {
                lemma_chunk_bounds(i - INDIRECT1_BOUND, n - INDIRECT1_BOUND);
                let c = (i - INDIRECT1_BOUND) / (INODE_INDIRECT1_COUNT as int);
                assert(idx[1] == ino.indirect2 as int);
                assert(d2[ino.indirect2 as int] == d[ino.indirect2 as int]);
                assert(ino.spec_child_at(d2, c) == ino.spec_child_at(d, c));
                assert(idx[2 + c] == ino.spec_child_at(d, c));
                assert(d2[ino.spec_child_at(d, c)] == d[ino.spec_child_at(d, c)]);
            }
        }
    }
    if n > INDIRECT1_BOUND {
        assert(idx[1] == ino.indirect2 as int);
        assert(d2[ino.indirect2 as int] == d[ino.indirect2 as int]);
        assert forall|c: int|
            0 <= c < idx_children(n) implies ino.spec_child_at(d2, c) == ino.spec_child_at(
            d, c) by {}
    }
    assert(ino.owned_index_blocks(d2) =~= ino.owned_index_blocks(d));
    assert(ino.owned_blocks(d2) =~= ino.owned_blocks(d));
}

impl DiskInode {
    /// Reads the byte at file position `pos`.
    pub fn read_byte(&self, pos: usize, disk: &MemDisk) -> (r: u8)
        requires
            disk_wf(disk@),
            self.map_wf(disk@),
            pos < self.size,
        ensures
            r == self.spec_content(disk@)[pos as int],
    {
        proof {
            lemma_pos_block(pos as int, self.size as int);
        }
        let b = self.get_block_id((pos / BLOCK_SZ) as u32, disk);
        let cache = CachedBlock::acquire(disk, b as usize);
        cache.get_byte(pos % BLOCK_SZ)
    }

    /// Writes the byte at file position `pos`: exactly one byte of exactly
    /// one owned data block changes.
    pub fn write_byte(&self, pos: usize, v: u8, disk: &mut MemDisk)
        requires
            disk_wf(old(disk)@),
            self.map_wf(old(disk)@),
            pos < self.size,
        ensures
            disk_wf(final(disk)@),
            final(disk)@.len() == old(disk)@.len(),
            self.map_wf(final(disk)@),
            self.owned_blocks(final(disk)@) == self.owned_blocks(old(disk)@),
            forall|i: int|
                0 <= i < self.spec_data_blocks() ==> self.spec_block_at(final(disk)@, i)
                    == self.spec_block_at(old(disk)@, i),
            self.spec_content(final(disk)@) == self.spec_content(old(disk)@).update(
                pos as int, v),
            forall|p: int|
                0 <= p < old(disk)@.len() && p != self.spec_block_at(
                    old(disk)@, pos as int / (BLOCK_SZ as int)) ==> final(disk)@[p] == old(
                    disk)@[p],
    {
        proof {
            lemma_pos_block(pos as int, self.size as int);
        }
        let i = (pos / BLOCK_SZ) as u32;
        let b = self.get_block_id(i, disk);
        let mut cache = CachedBlock::acquire(disk, b as usize);
        cache.set_byte(pos % BLOCK_SZ, v);
        cache.sync(disk);
        proof {
            let d0 = old(disk)@;
            let d1 = disk@;
            let n = self.spec_data_blocks();
            assert forall|q: int|
                0 <= q < self.owned_index_blocks(d0).len() implies d1[
                #[trigger] self.owned_index_blocks(d0)[q]] == d0[self.owned_index_blocks(
                d0)[q]] by {
                assert(self.owned_blocks(d0)[n + q] == self.owned_index_blocks(d0)[q]);
                assert(self.owned_blocks(d0)[i as int] == b as int);
            }
            lemma_map_frame(self, d0, d1);
            assert forall|t: int|
                0 <= t < self.size implies self.spec_content(d1)[t] == self.spec_content(
                d0).update(pos as int, v)[t] by {
                lemma_pos_block(t, self.size as int);
                let tb = t / (BLOCK_SZ as int);
                if tb == i {
                    if t != pos {
                        assert(t % (BLOCK_SZ as int) != (pos as int) % (BLOCK_SZ as int));
                    }
                } else {
                    assert(self.owned_blocks(d0)[tb] != self.owned_blocks(d0)[i as int]);
                }
            }
            assert(self.spec_content(d1) =~= self.spec_content(d0).update(pos as int, v));
        }
    }
}

/// `s` with `data` overlaid starting at `off`.
pub open spec fn overwrite(s: Seq<u8>, off: int, data: Seq<u8>) -> Seq<u8> {
    Seq::new(s.len(), |t: int| if off <= t < off + data.len() { data[t - off] } else { s[t] })
}

impl DiskInode {
    /// Bytes a read of `len` bytes at `offset` transfers: the requested
    /// length clipped to the current size.
    pub open spec fn spec_read_count(&self, offset: int, len: int) -> int {
        if offset >= self.size {
            0
        } else if offset + len <= self.size {
            len
        } else {
            self.size - offset
        }
    }

    /// Copies bytes from file position `offset` into the front of `buf`,
    /// clipping at the current size; returns the bytes transferred.
    pub fn read_at(&self, offset: usize, buf: &mut Vec<u8>, disk: &MemDisk) -> (r: usize)
        requires
            disk_wf(disk@),
            self.map_wf(disk@),
        ensures
            r == self.spec_read_count(offset as int, old(buf)@.len() as int),
            final(buf)@.len() == old(buf)@.len(),
            forall|t: int|
                0 <= t < r ==> final(buf)@[t] == self.spec_content(disk@)[offset + t],
            forall|t: int| r <= t < old(buf)@.len() ==> final(buf)@[t] == old(buf)@[t],
    {
        if offset >= self.size as usize {
            return 0;
        }
        let remain = self.size as usize - offset;
        let cnt = if buf.len() < remain {
            buf.len()
        } else {
            remain
        };
        let mut t: usize = 0;
        while t < cnt
            invariant
                t <= cnt,
                disk_wf(disk@),
                self.map_wf(disk@),
                offset < self.size,
                offset + cnt <= self.size,
                cnt <= old(buf)@.len(),
                buf@.len() == old(buf)@.len(),
                forall|u: int|
                    0 <= u < t ==> buf@[u] == self.spec_content(disk@)[offset + u],
                forall|u: int| t <= u < old(buf)@.len() ==> buf@[u] == old(buf)@[u],
            decreases cnt - t,
        {
            let v = self.read_byte(offset + t, disk);
            buf.set(t, v);
            t = t + 1;
        }
        cnt
    }

    /// Copies `buf` into the byte stream at `offset`, which must lie within
    /// the current size: the caller grows the inode first. Returns the bytes
    /// transferred; only owned data blocks change.
    pub fn write_at(&self, offset: usize, buf: &Vec<u8>, disk: &mut MemDisk) -> (r: usize)
        requires
            disk_wf(old(disk)@),
            self.map_wf(old(disk)@),
            offset + buf@.len() <= self.size,
        ensures
            r == buf@.len(),
            disk_wf(final(disk)@),
            final(disk)@.len() == old(disk)@.len(),
            self.map_wf(final(disk)@),
            self.owned_blocks(final(disk)@) == self.owned_blocks(old(disk)@),
            forall|i: int|
                0 <= i < self.spec_data_blocks() ==> self.spec_block_at(final(disk)@, i)
                    == self.spec_block_at(old(disk)@, i),
            self.spec_content(final(disk)@) == overwrite(
                self.spec_content(old(disk)@), offset as int, buf@),
            forall|p: int|
                0 <= p < old(disk)@.len() && !self.owned_blocks(old(disk)@).contains(p)
                    ==> final(disk)@[p] == old(disk)@[p],
    {
        let len = buf.len();
        let mut t: usize = 0;
        while t < len
            invariant
                t <= len,
                len == buf@.len(),
                offset + len <= self.size,
                disk_wf(disk@),
                disk@.len() == old(disk)@.len(),
                self.map_wf(disk@),
                self.owned_blocks(disk@) == self.owned_blocks(old(disk)@),
                forall|i: int|
                    0 <= i < self.spec_data_blocks() ==> self.spec_block_at(disk@, i)
                        == self.spec_block_at(old(disk)@, i),
                self.spec_content(disk@) == overwrite(
                    self.spec_content(old(disk)@), offset as int, buf@.subrange(0, t as int)),
                forall|p: int|
                    0 <= p < old(disk)@.len() && !self.owned_blocks(old(disk)@).contains(p)
                        ==> disk@[p] == old(disk)@[p],
            decreases len - t,
        {
            self.write_byte(offset + t, buf[t], disk);
            proof {
                assert(self.owned_blocks(old(disk)@).contains(
                    self.spec_block_at(old(disk)@, (offset + t) as int / (BLOCK_SZ as int))))
                    by {
                    lemma_pos_block((offset + t) as int, self.size as int);
                    assert(self.owned_blocks(old(disk)@)[(offset + t) as int / (
                        BLOCK_SZ as int)] == self.spec_block_at(
                        old(disk)@, (offset + t) as int / (BLOCK_SZ as int)));
                }
                assert(self.spec_content(disk@) =~= overwrite(
                    self.spec_content(old(disk)@), offset as int, buf@.subrange(
                        0, t as int + 1)));
            }
            t = t + 1;
        }
        proof {
            assert(buf@.subrange(0, len as int) =~= buf@);
        }
        len
    }

    /// Gathers every owned block - data blocks in logical order, then the
    /// index blocks - resets the inode to size zero with cleared pointers,
    /// and hands the blocks back for the caller to free. The disk itself is
    /// only read.
    pub fn clear_size(&mut self, disk: &MemDisk) -> (r: Vec<u32>)
        requires
            disk_wf(disk@),
            old(self).map_wf(disk@),
        ensures
            r@.len() == old(self).spec_total_blocks(),
            forall|k: int|
                0 <= k < r@.len() ==> r@[k] == old(self).owned_blocks(disk@)[k],
            final(self).size == 0,
            final(self).ty == old(self).ty,
            final(self).indirect1 == 0,
            final(self).indirect2 == 0,
            final(self).direct.len() == INODE_DIRECT_COUNT,
            forall|d: Seq<Seq<u8>>| final(self).map_wf(d),
    {
        let n = self.data_blocks();
        let mut r: Vec<u32> = Vec::new();
        let mut i: u32 = 0;
        while i < n
            invariant
                i <= n,
                n == self.spec_data_blocks(),
                disk_wf(disk@),
                self.map_wf(disk@),
                r@.len() == i,
                forall|k: int| 0 <= k < i ==> r@[k] == self.owned_blocks(disk@)[k],
            decreases n - i,
        {
            let b = self.get_block_id(i, disk);
            r.push(b);
            i = i + 1;
        }
        if n > DIRECT_BOUND as u32 {
            r.push(self.indirect1);
        }
        if n > INDIRECT1_BOUND as u32 {
            r.push(self.indirect2);
            let children = (n - INDIRECT1_BOUND as u32 + (INODE_INDIRECT1_COUNT as u32 - 1))
                / (INODE_INDIRECT1_COUNT as u32);
            proof {
                lemma_chunk_bounds(0, n - INDIRECT1_BOUND);
                assert(1 <= self.indirect2 < disk@.len()) by {
                    assert(self.owned_blocks(disk@)[n as int + 1] == self.indirect2 as int);
                }
            }
            let cache = CachedBlock::acquire(disk, self.indirect2 as usize);
            let mut c: u32 = 0;
            while c < children
                invariant
                    c <= children,
                    children == idx_children(n as int),
                    n == self.spec_data_blocks(),
                    n > INDIRECT1_BOUND,
                    disk_wf(disk@),
                    self.map_wf(disk@),
                    cache.wf(),
                    cache@ == disk@[self.indirect2 as int],
                    r@.len() == n + 2 + c,
                    forall|k: int| 0 <= k < r@.len() ==> r@[k] == self.owned_blocks(disk@)[k],
                decreases children - c,
            {
                let child = cache.get_u32(4 * (c as usize));
                proof {
                    assert(self.owned_blocks(disk@)[n as int + 2 + c] == self.spec_child_at(
                        disk@, c as int));
                }
                r.push(child);
                c = c + 1;
            }
        }
        let ghost old_ino = *self;
        self.size = 0;
        self.indirect1 = 0;
        self.indirect2 = 0;
        let mut t: usize = 0;
        while t < INODE_DIRECT_COUNT
            invariant
                t <= INODE_DIRECT_COUNT,
                self.direct.len() == INODE_DIRECT_COUNT,
                self.size == 0,
                self.ty == old_ino.ty,
                self.indirect1 == 0,
                self.indirect2 == 0,
            decreases INODE_DIRECT_COUNT - t,
        {
            self.direct.set(t, 0);
            t = t + 1;
        }
        proof {
            assert forall|d: Seq<Seq<u8>>| self.map_wf(d) by {
                assert(self.owned_blocks(d).len() == 0);
            }
        }
        r
    }
}

/// Fresh block ids `ids[lo..]` suitable for growth: real blocks, none
/// already owned, no duplicates.
pub open spec fn ids_fresh(ino: DiskInode, d: Seq<Seq<u8>>, ids: Seq<u32>, lo: int) -> bool {
    &&& forall|k: int| lo <= k < ids.len() ==> 1 <= #[trigger] ids[k] < d.len()
    &&& forall|k: int| lo <= k < ids.len() ==> !ino.owned_blocks(d).contains(#[trigger] ids[k] as int)
    &&& forall|k1: int, k2: int| lo <= k1 < k2 < ids.len() ==> ids[k1] != ids[k2]
}

/// Fresh blocks one growth step from `m` to `m + 1` data blocks consumes:
/// the data block itself plus any index block materialized at a tier
/// boundary.
pub open spec fn step_need(m: int) -> int {
    1 + (if m == DIRECT_BOUND { 1int } else { 0int }) + (if m == INDIRECT1_BOUND { 1int } else { 0int })
        + (if m >= INDIRECT1_BOUND && (m - INDIRECT1_BOUND) % (INODE_INDIRECT1_COUNT as int) == 0 { 1int } else { 0int })
}

/// One growth step consumes exactly the difference in total owned blocks.
pub proof fn lemma_step_need(m: int)
    requires
        0 <= m < MAX_DATA_BLOCKS,
    ensures
        step_need(m) == (m + 1 + idx_total(m + 1)) - (m + idx_total(m)),
        step_need(m) >= 1,
{
    if m >= INDIRECT1_BOUND {
        let j = m - INDIRECT1_BOUND;
        lemma_fundamental_div_mod(j, INODE_INDIRECT1_COUNT as int);
        let q = j / (INODE_INDIRECT1_COUNT as int);
        let w = j % (INODE_INDIRECT1_COUNT as int);
        lemma_div_multiples_vanish_fancy(q + 1, w, INODE_INDIRECT1_COUNT as int);
        if w == 0 {
            if m > INDIRECT1_BOUND {
                lemma_div_multiples_vanish_fancy(q, (INODE_INDIRECT1_COUNT - 1) as int,
                    INODE_INDIRECT1_COUNT as int);
            }
        } else {
            lemma_div_multiples_vanish_fancy(q + 1, w - 1, INODE_INDIRECT1_COUNT as int);
        }
    }
}

/// A block-aligned size has exactly its block count of data blocks.
pub proof fn lemma_aligned_blocks(m: int)
    requires
        0 <= m,
    ensures
        blocks_for(m * BLOCK_SZ) == m,
{
    lemma_div_multiples_vanish_fancy(m, (BLOCK_SZ - 1) as int, BLOCK_SZ as int);
}

impl DiskInode {
    /// Appends one data block to the map, materializing index blocks at
    /// tier boundaries; consumes `step_need` fresh ids from `ids` starting
    /// at `cur` and returns the new cursor.
    #[verifier::rlimit(100)]
    pub fn grow_one(&mut self, disk: &mut MemDisk, ids: &Vec<u32>, cur: usize) -> (r: usize)
        requires
            disk_wf(old(disk)@),
            old(self).map_wf(old(disk)@),
            old(self).size == old(self).spec_data_blocks() * BLOCK_SZ,
            old(self).spec_data_blocks() < MAX_DATA_BLOCKS,
            cur + step_need(old(self).spec_data_blocks()) <= ids@.len(),
            ids_fresh(*old(self), old(disk)@, ids@, cur as int),
        ensures
            r == cur + step_need(old(self).spec_data_blocks()),
            disk_wf(final(disk)@),
            final(disk)@.len() == old(disk)@.len(),
            final(self).size == old(self).size + BLOCK_SZ,
            final(self).ty == old(self).ty,
            final(self).spec_data_blocks() == old(self).spec_data_blocks() + 1,
            final(self).map_wf(final(disk)@),
            forall|i: int|
                0 <= i < old(self).spec_data_blocks() ==> final(self).spec_block_at(
                    final(disk)@, i) == old(self).spec_block_at(old(disk)@, i),
            forall|x: int|
                final(self).owned_blocks(final(disk)@).contains(x) ==> old(self).owned_blocks(
                    old(disk)@).contains(x) || (exists|k: int| cur <= k < r && ids@[k] == x),
            forall|x: int|
                final(self).owned_index_blocks(final(disk)@).contains(x) ==> old(
                    self).owned_index_blocks(old(disk)@).contains(x) || (exists|k: int|
                    cur <= k < r && ids@[k] == x),
            forall|p: int|
                0 <= p < old(disk)@.len() && !final(self).owned_index_blocks(
                    final(disk)@).contains(p) ==> final(disk)@[p] == old(disk)@[p],
    {
        let ghost s0 = *self;
        let ghost d0 = disk@;
        let ghost m = old(self).spec_data_blocks();
        let ghost old_owned = s0.owned_blocks(d0);
        proof {
            lemma_aligned_blocks(m);
            lemma_aligned_blocks(m + 1);
        }
        let ghost idlen = ids.len();
        let mb = self.data_blocks();
        let mut cur2 = cur;
        if mb < DIRECT_BOUND as u32 {
            let x = ids[cur2];
            cur2 = cur2 + 1;
            self.direct.set(mb as usize, x);
            self.size = self.size + BLOCK_SZ as u32;
            proof {
                let s2 = *self;
                assert(s2.spec_data_blocks() == m + 1);
                assert forall|i: int|
                    0 <= i < m implies s2.spec_block_at(d0, i) == s0.spec_block_at(d0, i) by {}
                assert(s2.spec_block_at(d0, m) == x as int);
                assert(s2.owned_blocks(d0) =~= old_owned.insert(m as int, x as int));
                assert forall|k: int|
                    0 <= k < old_owned.len() implies old_owned[k] != x as int by {
                    assert(!old_owned.contains(x as int));
                }
                assert(s2.map_wf(d0));
                assert(s2.owned_index_blocks(d0) =~= s0.owned_index_blocks(d0));
            }
            return cur2;
        }
        if mb < INDIRECT1_BOUND as u32 {
            if mb == DIRECT_BOUND as u32 {
                let f1 = ids[cur2];
                cur2 = cur2 + 1;
                self.indirect1 = f1;
            }
            let x = ids[cur2];
            cur2 = cur2 + 1;
            proof {
                if m > DIRECT_BOUND {
                    assert(old_owned[m] == s0.indirect1 as int);
                }
            }
            let mut cache = CachedBlock::acquire(disk, self.indirect1 as usize);
            cache.set_u32(4 * (mb as usize - DIRECT_BOUND), x);
            cache.sync(disk);
            self.size = self.size + BLOCK_SZ as u32;
            proof {
                let s2 = *self;
                let d2 = disk@;
                let i1 = s2.indirect1 as int;
                assert(s2.spec_data_blocks() == m + 1);
                assert forall|i: int|
                    0 <= i < m implies s2.spec_block_at(d2, i) == s0.spec_block_at(d0, i) by {
                    if i >= DIRECT_BOUND {
                        assert(s2.indirect1 == s0.indirect1);
                        assert(u32_at(d2[i1], 4 * (i - DIRECT_BOUND)) == u32_at(
                            d0[i1], 4 * (i - DIRECT_BOUND)));
                    }
                }
                assert(ptr_at(d2[i1], m - DIRECT_BOUND) == x as int);
                assert(s2.spec_block_at(d2, m) == x as int);
                if m == DIRECT_BOUND {
                    assert(s2.owned_blocks(d2) =~= old_owned.insert(m as int, x as int).push(
                        i1));
                } else {
                    assert(old_owned[m] == i1);
                    assert(s2.owned_blocks(d2) =~= old_owned.insert(m as int, x as int));
                }
                assert forall|k: int|
                    0 <= k < old_owned.len() implies old_owned[k] != x as int by {
                    assert(!old_owned.contains(x as int));
                }
                assert(s2.map_wf(d2));
                assert(s2.owned_index_blocks(d2)[0] == i1);
                assert(s2.owned_index_blocks(d2).contains(i1));
            }
            return cur2;
        }
        let j = mb as usize - INDIRECT1_BOUND;
        let q = j / INODE_INDIRECT1_COUNT;
        let w = j % INODE_INDIRECT1_COUNT;
        proof {
            lemma_chunk_bounds(j as int, m + 1 - INDIRECT1_BOUND);
            if m > INDIRECT1_BOUND {
                assert(old_owned[m] == s0.indirect1 as int);
                assert(old_owned[m + 1] == s0.indirect2 as int);
            } else {
                assert(old_owned[m] == s0.indirect1 as int);
            }
        }
        if mb == INDIRECT1_BOUND as u32 {
            let f2 = ids[cur2];
            cur2 = cur2 + 1;
            self.indirect2 = f2;
        }
        let child: u32;
        if w == 0 {
            let cn = ids[cur2];
            cur2 = cur2 + 1;
            let mut c2 = CachedBlock::acquire(disk, self.indirect2 as usize);
            c2.set_u32(4 * q, cn);
            c2.sync(disk);
            child = cn;
        } else {
            let c2 = CachedBlock::acquire(disk, self.indirect2 as usize);
            child = c2.get_u32(4 * q);
            proof {
                assert(old_owned[m + 2 + q] == s0.spec_child_at(d0, q as int));
            }
        }
        let x = ids[cur2];
        cur2 = cur2 + 1;
        let ghost da = disk@;
        let mut c1 = CachedBlock::acquire(disk, child as usize);
        c1.set_u32(4 * w, x);
        c1.sync(disk);
        self.size = self.size + BLOCK_SZ as u32;
        proof {
            let s2 = *self;
            let d2 = disk@;
            let i1 = s2.indirect1 as int;
            let i2 = s2.indirect2 as int;
            assert(s2.spec_data_blocks() == m + 1);
            assert(idx_children(m + 1) == q + 1) by {
                lemma_step_need(m);
                lemma_chunk_bounds(j as int, m + 1 - INDIRECT1_BOUND);
            }
            // the single-indirect block is never written in this tier
            assert(d2[i1] == d0[i1]);
            // pointers in the double-indirect root other than slot q are untouched
            assert forall|c: int|
                0 <= c < q implies s2.spec_child_at(d2, c) == s0.spec_child_at(d0, c) by {}
            assert(s2.spec_child_at(d2, q as int) == child as int);
            // children other than the written one are untouched
            assert forall|c: int|
                0 <= c < q implies d2[s2.spec_child_at(d2, c)] == d0[s0.spec_child_at(
                d0, c)] by {
                assert(old_owned[m + 2 + c] == s0.spec_child_at(d0, c));
            }
            assert forall|i: int|
                0 <= i < m implies s2.spec_block_at(d2, i) == s0.spec_block_at(d0, i) by {
                if i >= INDIRECT1_BOUND {
                    lemma_chunk_bounds(i - INDIRECT1_BOUND, m - INDIRECT1_BOUND);
                    let ci = (i - INDIRECT1_BOUND) / (INODE_INDIRECT1_COUNT as int);
                    let wi = (i - INDIRECT1_BOUND) % (INODE_INDIRECT1_COUNT as int);
                    if ci == q {
                        assert(wi < w);
                        assert(d2[child as int][4 * wi] == da[child as int][4 * wi]);
                    } else {
                        assert(ci < q);
                    }
                }
            }
            assert(ptr_at(d2[child as int], w as int) == x as int);
            assert(s2.spec_block_at(d2, m) == x as int);
            if m == INDIRECT1_BOUND {
                assert(s2.owned_blocks(d2) =~= old_owned.insert(m as int, x as int).push(
                    i2).push(child as int));
            } else if w == 0 {
                assert(s2.owned_blocks(d2) =~= old_owned.insert(m as int, x as int).push(
                    child as int));
            } else {
                assert(s2.owned_blocks(d2) =~= old_owned.insert(m as int, x as int));
            }
            assert forall|k: int|
                0 <= k < old_owned.len() implies old_owned[k] != x as int by {
                assert(!old_owned.contains(x as int));
            }
            assert(s2.map_wf(d2));
            let idx2 = s2.owned_index_blocks(d2);
            let idx0 = s0.owned_index_blocks(d0);
            assert(idx2.len() == 2 + q + 1);
            assert(idx2[0] == i1);
            assert(idx2[1] == i2);
            assert(idx2[2 + q] == child as int);
            assert(idx2.contains(i2));
            assert(idx2.contains(child as int));
            assert(idx2.contains(i1));
            assert forall|x2: int|
                idx2.contains(x2) implies idx0.contains(x2) || (exists|k: int|
                cur <= k < cur2 && ids@[k] == x2) by {
                let pos = choose|pp: int| 0 <= pp < idx2.len() && idx2[pp] == x2;
                if pos == 0 {
                    assert(idx0[0] == i1);
                    assert(idx0.contains(x2));
                } else if pos == 1 {
                    if m == INDIRECT1_BOUND {
                        assert(ids@[cur as int] == x2);
                    } else {
                        assert(idx0[1] == i2);
                        assert(idx0.contains(x2));
                    }
                } else {
                    let c = pos - 2;
                    if c < q {
                        assert(idx0[2 + c] == s0.spec_child_at(d0, c));
                        assert(idx2[2 + c] == s2.spec_child_at(d2, c));
                        assert(idx0.contains(x2));
                    } else {
                        if w == 0 {
                            assert(ids@[cur2 - 2] == child);
                            assert(x2 == child as int);
                        } else {
                            assert(idx0[2 + q] == s0.spec_child_at(d0, q as int));
                            assert(idx0.contains(x2));
                        }
                    }
                }
            }
            assert forall|p: int|
                0 <= p < d0.len() && !idx2.contains(p) implies d2[p] == d0[p] by {}
        }
        cur2
    }
}

impl DiskInode {
    /// Grows the byte stream to `new_size`, consuming exactly the computed
    /// number of fresh blocks: new index blocks at tier boundaries, the rest
    /// as data blocks. The size is updated last; bytes already stored keep
    /// their values.
    pub fn increase_size(&mut self, new_size: u32, new_blocks: Vec<u32>, disk: &mut MemDisk)
        requires
            disk_wf(old(disk)@),
            old(self).map_wf(old(disk)@),
            old(self).size <= new_size,
            new_size <= MAX_DATA_BLOCKS * BLOCK_SZ,
            new_blocks@.len() == blocks_for(new_size as int) + idx_total(blocks_for(
                new_size as int)) - old(self).spec_total_blocks(),
            ids_fresh(*old(self), old(disk)@, new_blocks@, 0),
        ensures
            disk_wf(final(disk)@),
            final(disk)@.len() == old(disk)@.len(),
            final(self).size == new_size,
            final(self).ty == old(self).ty,
            final(self).map_wf(final(disk)@),
            forall|i: int|
                0 <= i < old(self).spec_data_blocks() ==> final(self).spec_block_at(
                    final(disk)@, i) == old(self).spec_block_at(old(disk)@, i),
            forall|t: int|
                0 <= t < old(self).size ==> final(self).spec_content(final(disk)@)[t] == old(
                    self).spec_content(old(disk)@)[t],
            forall|x: int|
                final(self).owned_blocks(final(disk)@).contains(x) ==> old(self).owned_blocks(
                    old(disk)@).contains(x) || (exists|k: int|
                    0 <= k < new_blocks@.len() && new_blocks@[k] == x),
            forall|p: int|
                0 <= p < old(disk)@.len() && !old(self).owned_blocks(old(disk)@).contains(p)
                    && !(exists|k: int| 0 <= k < new_blocks@.len() && new_blocks@[k] == p)
                    ==> final(disk)@[p] == old(disk)@[p],
    {
        let ghost s0 = *self;
        let ghost d0 = disk@;
        let ghost n0 = s0.spec_data_blocks();
        let target = (new_size + (BLOCK_SZ as u32 - 1)) / (BLOCK_SZ as u32);
        proof {
            lemma_blocks_for_monotone(new_size as int, (MAX_DATA_BLOCKS * BLOCK_SZ) as int);
            lemma_aligned_blocks(MAX_DATA_BLOCKS as int);
            lemma_blocks_for_monotone(s0.size as int, new_size as int);
        }
        let nb = self.data_blocks();
        proof {
            assert(nb <= MAX_DATA_BLOCKS as u32);
            assert(nb as int * (BLOCK_SZ as int) <= MAX_DATA_BLOCKS * BLOCK_SZ)
                by (nonlinear_arith)
                requires nb <= MAX_DATA_BLOCKS, BLOCK_SZ >= 0;
        }
        self.size = nb * (BLOCK_SZ as u32);
        proof {
            lemma_aligned_blocks(n0);
            assert(self.owned_blocks(disk@) =~= s0.owned_blocks(d0));
            assert(self.owned_index_blocks(disk@) =~= s0.owned_index_blocks(d0));
        }
        let mut cur: usize = 0;
        while self.data_blocks() < target
            invariant
                disk_wf(disk@),
                disk@.len() == d0.len(),
                self.map_wf(disk@),
                self.ty == s0.ty,
                target == blocks_for(new_size as int),
                target <= MAX_DATA_BLOCKS,
                n0 <= self.spec_data_blocks() <= target,
                self.size == self.spec_data_blocks() * BLOCK_SZ,
                cur == (self.spec_data_blocks() + idx_total(self.spec_data_blocks())) - (n0
                    + idx_total(n0)),
                new_blocks@.len() == target + idx_total(target as int) - (n0 + idx_total(n0)),
                ids_fresh(*self, disk@, new_blocks@, cur as int),
                forall|i: int|
                    0 <= i < n0 ==> self.spec_block_at(disk@, i) == s0.spec_block_at(d0, i),
                forall|i: int|
                    0 <= i < n0 ==> disk@[#[trigger] s0.spec_block_at(d0, i)] == d0[
                        s0.spec_block_at(d0, i)],
                forall|x: int|
                    self.owned_blocks(disk@).contains(x) ==> s0.owned_blocks(d0).contains(x)
                        || (exists|k: int| 0 <= k < cur && new_blocks@[k] == x),
                forall|p: int|
                    0 <= p < d0.len() && !s0.owned_blocks(d0).contains(p) && !(exists|k: int|
                        0 <= k < cur && new_blocks@[k] == p) ==> disk@[p] == d0[p],
            decreases target - self.spec_data_blocks(),
        {
            let ghost sc = *self;
            let ghost dc = disk@;
            let ghost m = sc.spec_data_blocks();
            proof {
                lemma_step_need(m);
                lemma_idx_total_monotone(m + 1, target as int);
            }
            let ghost cur0 = cur;
            cur = self.grow_one(disk, &new_blocks, cur);
            proof {
                let s2 = *self;
                let d2 = disk@;
                let ids = new_blocks@;
                // anything owned now was owned before or consumed this step
                assert forall|x: int|
                    s2.owned_blocks(d2).contains(x) && !sc.owned_blocks(dc).contains(x)
                    implies (exists|k: int| cur0 <= k < cur && ids[k] == x) by {}
                // index blocks of the grown inode trace the same way
                assert forall|x: int|
                    s2.owned_index_blocks(d2).contains(x) && !sc.owned_blocks(dc).contains(x)
                    implies (exists|k: int| cur0 <= k < cur && ids[k] == x) by {
                    if sc.owned_index_blocks(dc).contains(x) {
                        let qq = choose|qq: int|
                            0 <= qq < sc.owned_index_blocks(dc).len()
                                && sc.owned_index_blocks(dc)[qq] == x;
                        assert(sc.owned_blocks(dc)[sc.spec_data_blocks() + qq] == x);
                        assert(sc.owned_blocks(dc).contains(x));
                    }
                }
                // remaining ids stay fresh for the grown inode
                assert forall|k: int|
                    cur <= k < ids.len() implies !s2.owned_blocks(d2).contains(
                    #[trigger] ids[k] as int) by {
                    let xv = ids[k] as int;
                    if s2.owned_blocks(d2).contains(xv) {
                        assert(!sc.owned_blocks(dc).contains(xv));
                        let k2 = choose|k2: int| cur0 <= k2 < cur && ids[k2] == xv;
                        assert(ids[k2] != ids[k]);
                        assert(false);
                    }
                }
                // data blocks mapped before the whole growth keep their bytes
                assert forall|i: int|
                    0 <= i < n0 implies disk@[#[trigger] s0.spec_block_at(d0, i)] == d0[
                    s0.spec_block_at(d0, i)] by {
                    let p = s0.spec_block_at(d0, i);
                    assert(sc.owned_blocks(dc)[i] == p);
                    assert(sc.owned_blocks(dc).contains(p));
                    if s2.owned_index_blocks(d2).contains(p) {
                        if !sc.owned_blocks(dc).contains(p) {
                            assert(false);
                        }
                        if sc.owned_index_blocks(dc).contains(p) {
                            let qq = choose|qq: int|
                                0 <= qq < sc.owned_index_blocks(dc).len()
                                    && sc.owned_index_blocks(dc)[qq] == p;
                            assert(sc.owned_blocks(dc)[sc.spec_data_blocks() + qq] == p);
                            assert(false);
                        } else {
                            let k2 = choose|k2: int| cur0 <= k2 < cur && ids[k2] == p;
                            assert(!sc.owned_blocks(dc).contains(ids[k2] as int));
                            assert(false);
                        }
                    }
                }
                // untouched blocks outside the inode and the consumed ids
                assert forall|p: int|
                    0 <= p < d0.len() && !s0.owned_blocks(d0).contains(p) && !(exists|k: int|
                        0 <= k < cur && new_blocks@[k] == p) implies disk@[p] == d0[p] by {
                    if s2.owned_index_blocks(d2).contains(p) {
                        if sc.owned_blocks(dc).contains(p) {
                            assert(false);
                        } else {
                            let k2 = choose|k2: int| cur0 <= k2 < cur && ids[k2] == p;
                            assert(false);
                        }
                    }
                }
            }
        }
        let ghost sl = *self;
        let ghost dl = disk@;
        self.size = new_size;
        proof {
            let s2 = *self;
            assert(s2.spec_data_blocks() == target);
            assert(s2.owned_blocks(dl) =~= sl.owned_blocks(dl));
            assert(s2.owned_index_blocks(dl) =~= sl.owned_index_blocks(dl));
            assert(s2.map_wf(dl));
            assert forall|t: int|
                0 <= t < s0.size implies s2.spec_content(dl)[t] == s0.spec_content(d0)[t] by {
                lemma_pos_block(t, s0.size as int);
                lemma_aligned_blocks(n0);
                let tb = t / (BLOCK_SZ as int);
                assert(s2.spec_block_at(dl, tb) == s0.spec_block_at(d0, tb));
                assert(dl[s0.spec_block_at(d0, tb)] == d0[s0.spec_block_at(d0, tb)]);
            }
        }
    }
}

} // verus!
