//! In-memory model of the block capability: a fixed-size array of blocks
//! with whole-block reads and writes.

use vstd::prelude::*;
use crate::BLOCK_SZ;

verus! {

/// All blocks of a disk image hold exactly `BLOCK_SZ` bytes.
pub open spec fn disk_wf(d: Seq<Seq<u8>>) -> bool {
    forall|i: int| 0 <= i < d.len() ==> (#[trigger] d[i]).len() == BLOCK_SZ
}

/// A block device held in memory: the backing store the verified engine
/// reads and writes. Its view is the sequence of block contents.
pub struct MemDisk {
    blocks: Vec<Vec<u8>>,
}

impl View for MemDisk {
    type V = Seq<Seq<u8>>;

    closed spec fn view(&self) -> Seq<Seq<u8>> {
        self.blocks@.map_values(|b: Vec<u8>| b@)
    }
}

/// Copies the bytes of one block-sized buffer.
pub fn copy_bytes(src: &Vec<u8>) -> (r: Vec<u8>)
    ensures
        r@ == src@,
{
    let mut r: Vec<u8> = Vec::new();
    let mut j: usize = 0;
    while j < src.len()
        invariant
            j <= src.len(),
            r@ == src@.subrange(0, j as int),
        decreases src.len() - j,
    {
        r.push(src[j]);
        j = j + 1;
        proof {
            assert(r@ =~= src@.subrange(0, j as int));
        }
    }
    proof {
        assert(r@ =~= src@);
    }
    r
}

impl MemDisk {
    /// A fresh device of `num_blocks` zeroed blocks.
    pub fn new(num_blocks: usize) -> (r: Self)
        ensures
            r@.len() == num_blocks,
            disk_wf(r@),
            forall|i: int, j: int|
                0 <= i < num_blocks && 0 <= j < BLOCK_SZ ==> r@[i][j] == 0u8,
    {
        let mut blocks: Vec<Vec<u8>> = Vec::new();
        let mut i: usize = 0;
        while i < num_blocks
            invariant
                i <= num_blocks,
                blocks@.len() == i,
                forall|k: int| 0 <= k < i ==> (#[trigger] blocks@[k])@.len() == BLOCK_SZ,
                forall|k: int, j: int|
                    0 <= k < i && 0 <= j < BLOCK_SZ ==> blocks@[k]@[j] == 0u8,
            decreases num_blocks - i,
        {
            let block: Vec<u8> = vec![0u8; BLOCK_SZ];
            proof {
                assert(forall|j: int| 0 <= j < BLOCK_SZ ==> block@[j] == 0u8);
            }
            blocks.push(block);
            i = i + 1;
        }
        let r = MemDisk { blocks };
        proof {
            assert(r@.len() == num_blocks);
            assert(forall|k: int| 0 <= k < num_blocks ==> r@[k] == blocks@[k]@);
        }
        r
    }

    /// How many blocks the device holds.
    pub fn num_blocks(&self) -> (r: usize)
        ensures
            r == self@.len(),
    {
        self.blocks.len()
    }

    /// Reads one whole block into a fresh buffer.
    pub fn read_block(&self, block_id: usize) -> (r: Vec<u8>)
        requires
            block_id < self@.len(),
        ensures
            r@ == self@[block_id as int],
    {
        copy_bytes(&self.blocks[block_id])
    }

    /// Writes one whole block.
    pub fn write_block(&mut self, block_id: usize, buf: &Vec<u8>)
        requires
            block_id < old(self)@.len(),
            buf@.len() == BLOCK_SZ,
        ensures
            final(self)@ == old(self)@.update(block_id as int, buf@),
    {
        let data = copy_bytes(buf);
        self.blocks.set(block_id, data);
        proof {
            assert(self@ =~= old(self)@.update(block_id as int, buf@));
        }
    }
}

} // verus!
