//! Free-space tracking: a dense bit vector stored across a run of blocks,
//! one bit per allocation unit. A set bit means "in use". Allocation is
//! first-fit: the lowest clear bit is returned and set.

use vstd::prelude::*;
use crate::{BLOCK_SZ, BITS_PER_BLOCK};
use crate::disk::{MemDisk, disk_wf};
use crate::block_cache::CachedBlock;
use vstd::arithmetic::div_mod::{
    lemma_div_multiples_vanish_fancy, lemma_mod_multiples_vanish, lemma_small_mod,
    lemma_fundamental_div_mod,
};

verus! {

/// Whether bit `k` of byte `b` is set.
pub open spec fn nth_bit(b: u8, k: u8) -> bool {
    (b >> k) & 1 == 1
}

/// A bitmap occupying `blocks` whole blocks starting at `start_block_id`.
pub struct Bitmap {
    pub start_block_id: usize,
    pub blocks: usize,
}

/// Packing block, byte and bit coordinates into a flat bit index inverts the
/// index's decomposition by division and remainder.
pub proof fn lemma_bit_coords(blk: int, byte_i: int, k: int)
    requires
        0 <= blk,
        0 <= byte_i < BLOCK_SZ,
        0 <= k < 8,
    ensures
        (blk * BITS_PER_BLOCK + byte_i * 8 + k) / (BITS_PER_BLOCK as int) == blk,
        ((blk * BITS_PER_BLOCK + byte_i * 8 + k) % (BITS_PER_BLOCK as int)) / 8 == byte_i,
        (blk * BITS_PER_BLOCK + byte_i * 8 + k) % 8 == k,
{
    let r = byte_i * 8 + k;
    let i = blk * BITS_PER_BLOCK + r;
    lemma_div_multiples_vanish_fancy(blk, r, BITS_PER_BLOCK as int);
    lemma_mod_multiples_vanish(blk, r, BITS_PER_BLOCK as int);
    lemma_small_mod(r as nat, BITS_PER_BLOCK as nat);
    lemma_div_multiples_vanish_fancy(byte_i, k, 8);
    lemma_mod_multiples_vanish(byte_i, k, 8);
    lemma_small_mod(k as nat, 8);
    lemma_mod_multiples_vanish(blk * 512 + byte_i, k, 8);
}

/// Decomposing a flat bit index by division and remainder yields in-range
/// coordinates that pack back into the index.
pub proof fn lemma_bit_recompose(i: int, n: int)
    requires
        0 <= i < n * BITS_PER_BLOCK,
    ensures
        0 <= i / (BITS_PER_BLOCK as int) < n,
        0 <= (i % (BITS_PER_BLOCK as int)) / 8 < BLOCK_SZ,
        0 <= i % 8 < 8,
        i == (i / (BITS_PER_BLOCK as int)) * BITS_PER_BLOCK + ((i % (BITS_PER_BLOCK as int)) / 8)
            * 8 + i % 8,
{
    lemma_fundamental_div_mod(i, BITS_PER_BLOCK as int);
    let r = i % (BITS_PER_BLOCK as int);
    lemma_fundamental_div_mod(r, 8);
    assert(i % 8 == r % 8) by {
        lemma_mod_multiples_vanish(512 * (i / (BITS_PER_BLOCK as int)), r, 8);
    };
}

impl Bitmap {
    /// The bitmap's index arithmetic stays within machine bounds.
    pub open spec fn wf(&self) -> bool {
        &&& self.blocks * BITS_PER_BLOCK <= usize::MAX
        &&& self.start_block_id + self.blocks <= usize::MAX
    }

    /// The bitmap's blocks lie on the disk.
    pub open spec fn on_disk(&self, d: Seq<Seq<u8>>) -> bool {
        self.start_block_id + self.blocks <= d.len()
    }

    /// The number of allocation units this bitmap tracks.
    pub open spec fn spec_maximum(&self) -> int {
        self.blocks * BITS_PER_BLOCK
    }

    /// Whether unit `i` is marked in use on disk `d`.
    pub open spec fn bit(&self, d: Seq<Seq<u8>>, i: int) -> bool {
        nth_bit(
            d[self.start_block_id + i / (BITS_PER_BLOCK as int)][(i % (BITS_PER_BLOCK as int))
                / 8],
            (i % 8) as u8,
        )
    }

    /// The set of units currently marked in use.
    pub open spec fn allocated(&self, d: Seq<Seq<u8>>) -> Set<int> {
        Set::new(|i: int| 0 <= i < self.spec_maximum() && self.bit(d, i))
    }

    pub fn new(start_block_id: usize, blocks: usize) -> (r: Self)
        requires
            blocks * BITS_PER_BLOCK <= usize::MAX,
            start_block_id + blocks <= usize::MAX,
        ensures
            r.start_block_id == start_block_id,
            r.blocks == blocks,
            r.wf(),
    {
        Bitmap { start_block_id, blocks }
    }

    /// Upper bound on valid unit indices.
    pub fn maximum(&self) -> (r: usize)
        requires
            self.wf(),
        ensures
            r == self.spec_maximum(),
    {
        self.blocks * BITS_PER_BLOCK
    }

    /// First-fit allocation: scans for the lowest clear bit, sets it, and
    /// returns its index; reports no space when every tracked bit is set.
    pub fn allocate(&self, disk: &mut MemDisk) -> (r: Option<usize>)
        requires
            self.wf(),
            self.on_disk(old(disk)@),
            disk_wf(old(disk)@),
        ensures
            disk_wf(final(disk)@),
            final(disk)@.len() == old(disk)@.len(),
            forall|b: int|
                0 <= b < old(disk)@.len() && !(self.start_block_id <= b < self.start_block_id
                    + self.blocks) ==> final(disk)@[b] == old(disk)@[b],
            match r {
                Option::Some(i) => {
                    &&& 0 <= i < self.spec_maximum()
                    &&& !self.bit(old(disk)@, i as int)
                    &&& self.bit(final(disk)@, i as int)
                    &&& forall|j: int|
                        0 <= j < self.spec_maximum() && j != i ==> self.bit(final(disk)@, j)
                            == self.bit(old(disk)@, j)
                    &&& forall|j: int| 0 <= j < i ==> self.bit(old(disk)@, j)
                },
                Option::None => {
                    &&& final(disk)@ == old(disk)@
                    &&& forall|j: int| 0 <= j < self.spec_maximum() ==> self.bit(old(disk)@, j)
                },
            },
    {
        let mut blk: usize = 0;
        while blk < self.blocks
            invariant
                self.wf(),
                self.on_disk(disk@),
                disk_wf(disk@),
                blk <= self.blocks,
                disk@ == old(disk)@,
                forall|j: int| 0 <= j < blk * BITS_PER_BLOCK ==> self.bit(disk@, j),
            decreases self.blocks - blk,
        {
            let cache = CachedBlock::acquire(disk, self.start_block_id + blk);
            let mut byte_i: usize = 0;
            while byte_i < BLOCK_SZ
                invariant
                    self.wf(),
                    self.on_disk(disk@),
                    disk_wf(disk@),
                    blk < self.blocks,
                    byte_i <= BLOCK_SZ,
                    disk@ == old(disk)@,
                    cache@ == disk@[self.start_block_id + blk],
                    cache.wf(),
                    cache.id() == self.start_block_id + blk,
                    forall|j: int|
                        0 <= j < blk * BITS_PER_BLOCK + byte_i * 8 ==> self.bit(disk@, j),
                decreases BLOCK_SZ - byte_i,
            {
                let b = cache.get_byte(byte_i);
                let mut k: u8 = 0;
                while k < 8
                    invariant
                        k <= 8,
                        self.wf(),
                        self.on_disk(disk@),
                        disk_wf(disk@),
                        blk < self.blocks,
                        byte_i < BLOCK_SZ,
                        disk@ == old(disk)@,
                        cache@ == disk@[self.start_block_id + blk],
                        cache.wf(),
                        cache.id() == self.start_block_id + blk,
                        b == cache@[byte_i as int],
                        forall|k2: u8| k2 < k ==> nth_bit(b, k2),
                        forall|j: int|
                            0 <= j < blk * BITS_PER_BLOCK + byte_i * 8 ==> self.bit(disk@, j),
                    decreases 8 - k,
                {
                    if (b >> k) & 1 == 0 {
                        let pos: usize = blk * BITS_PER_BLOCK + byte_i * 8 + (k as usize);
                        proof {
                            lemma_bit_coords(blk as int, byte_i as int, k as int);
                            assert(!nth_bit(b, k)) by (bit_vector)
                                requires (b >> k) & 1 == 0;
                        }
                        let newb = b | (1u8 << k);
                        proof {
                            assert(nth_bit(newb, k) && forall|k2: u8|
                                k2 < 8 && k2 != k ==> nth_bit(newb, k2) == nth_bit(b, k2))
                                by (bit_vector)
                                requires newb == b | (1u8 << k), k < 8;
                        }
                        let mut wcache = cache;
                        wcache.set_byte(byte_i, newb);
                        wcache.sync(disk);
                        proof {
                            let d0 = old(disk)@;
                            let d1 = disk@;
                            let sb = self.start_block_id as int;
                            assert forall|j: int|
                                0 <= j < self.spec_maximum() && j != pos implies self.bit(d1, j)
                                == self.bit(d0, j) by {
                                lemma_bit_recompose(j, self.blocks as int);
                                let jb = j / (BITS_PER_BLOCK as int);
                                let jy = (j % (BITS_PER_BLOCK as int)) / 8;
                                let jk = j % 8;
                                if jb == blk && jy == byte_i {
                                    lemma_bit_coords(blk as int, byte_i as int, k as int);
                                    assert(jk != k as int);
                                }
                            }
                            assert(self.bit(d1, pos as int));
                            assert forall|j: int| 0 <= j < pos implies self.bit(d0, j) by {
                                lemma_bit_recompose(j, self.blocks as int);
                                let jb = j / (BITS_PER_BLOCK as int);
                                let jy = (j % (BITS_PER_BLOCK as int)) / 8;
                                let jk = j % 8;
                                if jb == blk && jy == byte_i {
                                    assert(jk < k as int);
                                    assert(nth_bit(b, jk as u8));
                                }
                            }
                        }
                        return Some(pos);
                    }
                    proof {
                        assert(nth_bit(b, k)) by (bit_vector)
                            requires (b >> k) & 1 != 0;
                    }
                    k = k + 1;
                }
                proof {
                    assert forall|j: int|
                        0 <= j < blk * BITS_PER_BLOCK + (byte_i + 1) * 8 implies self.bit(
                        disk@, j) by {
                        if j >= blk * BITS_PER_BLOCK + byte_i * 8 {
                            lemma_bit_recompose(j, self.blocks as int);
                            let jb = j / (BITS_PER_BLOCK as int);
                            let jy = (j % (BITS_PER_BLOCK as int)) / 8;
                            let jk = j % 8;
                            assert(jb == blk && jy == byte_i);
                            assert(nth_bit(b, jk as u8));
                        }
                    }
                }
                byte_i = byte_i + 1;
            }
            blk = blk + 1;
        }
        None
    }

    /// Clears the bit at `index`, returning the unit to the free pool. The
    /// bit must currently be set: freeing a free unit is a caller error.
    pub fn dealloc(&self, disk: &mut MemDisk, index: usize)
        requires
            self.wf(),
            self.on_disk(old(disk)@),
            disk_wf(old(disk)@),
            index < self.spec_maximum(),
            self.bit(old(disk)@, index as int),
        ensures
            disk_wf(final(disk)@),
            final(disk)@.len() == old(disk)@.len(),
            forall|b: int|
                0 <= b < old(disk)@.len() && !(self.start_block_id <= b < self.start_block_id
                    + self.blocks) ==> final(disk)@[b] == old(disk)@[b],
            !self.bit(final(disk)@, index as int),
            forall|j: int|
                0 <= j < self.spec_maximum() && j != index ==> self.bit(final(disk)@, j)
                    == self.bit(old(disk)@, j),
    {
        proof {
            lemma_bit_recompose(index as int, self.blocks as int);
        }
        let blk: usize = index / BITS_PER_BLOCK;
        let byte_i: usize = (index % BITS_PER_BLOCK) / 8;
        let k: u8 = (index % 8) as u8;
        let mut cache = CachedBlock::acquire(disk, self.start_block_id + blk);
        let b = cache.get_byte(byte_i);
        let newb = b & !(1u8 << k);
        proof {
            assert(!nth_bit(newb, k) && forall|k2: u8|
                k2 < 8 && k2 != k ==> nth_bit(newb, k2) == nth_bit(b, k2)) by (bit_vector)
                requires newb == b & !(1u8 << k), k < 8;
        }
        cache.set_byte(byte_i, newb);
        cache.sync(disk);
        proof {
            let d0 = old(disk)@;
            let d1 = disk@;
            assert(!self.bit(d1, index as int));
            assert forall|j: int|
                0 <= j < self.spec_maximum() && j != index implies self.bit(d1, j) == self.bit(
                d0, j) by {
                lemma_bit_recompose(j, self.blocks as int);
                let jb = j / (BITS_PER_BLOCK as int);
                let jy = (j % (BITS_PER_BLOCK as int)) / 8;
                let jk = j % 8;
                if jb == blk && jy == byte_i {
                    assert(jk != k as int);
                }
            }
        }
    }
}

/// After a successful allocation of unit `i`, the set of units in use grows
/// by exactly `i`, which was free before; the set never leaves the tracked
/// range.
pub proof fn lemma_alloc_set(bm: Bitmap, d0: Seq<Seq<u8>>, d1: Seq<Seq<u8>>, i: int)
    requires
        0 <= i < bm.spec_maximum(),
        !bm.bit(d0, i),
        bm.bit(d1, i),
        forall|j: int| 0 <= j < bm.spec_maximum() && j != i ==> bm.bit(d1, j) == bm.bit(d0, j),
    ensures
        !bm.allocated(d0).contains(i),
        bm.allocated(d1) == bm.allocated(d0).insert(i),
        bm.allocated(d1).subset_of(Set::new(|j: int| 0 <= j < bm.spec_maximum())),
{
    assert(bm.allocated(d1) =~= bm.allocated(d0).insert(i));
}

/// After freeing unit `i`, the set of units in use shrinks by exactly `i`.
pub proof fn lemma_dealloc_set(bm: Bitmap, d0: Seq<Seq<u8>>, d1: Seq<Seq<u8>>, i: int)
    requires
        0 <= i < bm.spec_maximum(),
        !bm.bit(d1, i),
        forall|j: int| 0 <= j < bm.spec_maximum() && j != i ==> bm.bit(d1, j) == bm.bit(d0, j),
    ensures
        bm.allocated(d1) == bm.allocated(d0).remove(i),
{
    assert(bm.allocated(d1) =~= bm.allocated(d0).remove(i));
}

/// A unit whose bit is clear is available again: it is not in the set of
/// units in use, so a first-fit allocation can hand it out.
pub proof fn lemma_free_bit_available(bm: Bitmap, d: Seq<Seq<u8>>, j: int)
    requires
        0 <= j < bm.spec_maximum(),
        !bm.bit(d, j),
    ensures
        !bm.allocated(d).contains(j),
{
}

} // verus!
