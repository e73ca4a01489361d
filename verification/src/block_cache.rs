//! A scoped read-modify-writeback view over one on-disk block: the block is
//! read once into an owned buffer, edited in place, and written back on an
//! explicit sync only if it was marked dirty.

use vstd::prelude::*;
use crate::BLOCK_SZ;
use crate::disk::{MemDisk, disk_wf};

verus! {

/// The little-endian value of four bytes.
pub open spec fn u32_le_val(b0: u8, b1: u8, b2: u8, b3: u8) -> int {
    b0 + b1 * 0x100 + b2 * 0x10000 + b3 * 0x1000000
}

/// The little-endian value of the four bytes of `b` starting at `off`.
pub open spec fn u32_at(b: Seq<u8>, off: int) -> int {
    u32_le_val(b[off], b[off + 1], b[off + 2], b[off + 3])
}

/// A cached copy of one block: `block_id` names the block, the buffer holds
/// its bytes, and `dirty` records whether the buffer diverged from the disk.
pub struct CachedBlock {
    block_id: usize,
    buf: Vec<u8>,
    dirty: bool,
}

impl View for CachedBlock {
    type V = Seq<u8>;

    closed spec fn view(&self) -> Seq<u8> {
        self.buf@
    }
}

impl CachedBlock {
    /// The block this cache is a view of.
    pub closed spec fn id(&self) -> int {
        self.block_id as int
    }

    /// Whether the buffer was modified since acquisition.
    pub closed spec fn is_dirty(&self) -> bool {
        self.dirty
    }

    pub closed spec fn wf(&self) -> bool {
        self.buf@.len() == BLOCK_SZ
    }

    /// Reads one full block into an owned, clean buffer.
    pub fn acquire(disk: &MemDisk, block_id: usize) -> (r: Self)
        requires
            block_id < disk@.len(),
            disk_wf(disk@),
        ensures
            r@ == disk@[block_id as int],
            r.id() == block_id,
            !r.is_dirty(),
            r.wf(),
    {
        CachedBlock { block_id, buf: disk.read_block(block_id), dirty: false }
    }

    /// The byte at `off` of the cached block.
    pub fn get_byte(&self, off: usize) -> (r: u8)
        requires
            self.wf(),
            off < BLOCK_SZ,
        ensures
            r == self@[off as int],
    {
        self.buf[off]
    }

    /// Replaces the byte at `off`, marking the buffer dirty.
    pub fn set_byte(&mut self, off: usize, v: u8)
        requires
            old(self).wf(),
            off < BLOCK_SZ,
        ensures
            final(self)@ == old(self)@.update(off as int, v),
            final(self).id() == old(self).id(),
            final(self).is_dirty(),
            final(self).wf(),
    {
        self.buf.set(off, v);
        self.dirty = true;
    }

    /// The little-endian value of the four bytes starting at `off`.
    pub fn get_u32(&self, off: usize) -> (r: u32)
        requires
            self.wf(),
            off + 4 <= BLOCK_SZ,
        ensures
            r == u32_at(self@, off as int),
    {
        let b0 = self.buf[off] as u32;
        let b1 = self.buf[off + 1] as u32;
        let b2 = self.buf[off + 2] as u32;
        let b3 = self.buf[off + 3] as u32;
        b0 + b1 * 0x100 + b2 * 0x10000 + b3 * 0x1000000
    }

    /// Stores `v` little-endian into the four bytes starting at `off`,
    /// marking the buffer dirty.
    pub fn set_u32(&mut self, off: usize, v: u32)
        requires
            old(self).wf(),
            off + 4 <= BLOCK_SZ,
        ensures
            final(self)@.len() == old(self)@.len(),
            u32_at(final(self)@, off as int) == v,
            forall|j: int|
                0 <= j < old(self)@.len() && !(off <= j < off + 4) ==> final(self)@[j] == old(self)@[j],
            final(self).id() == old(self).id(),
            final(self).is_dirty(),
            final(self).wf(),
    {
        let b0 = (v % 0x100) as u8;
        let b1 = ((v / 0x100) % 0x100) as u8;
        let b2 = ((v / 0x10000) % 0x100) as u8;
        let b3 = (v / 0x1000000) as u8;
        self.buf.set(off, b0);
        self.buf.set(off + 1, b1);
        self.buf.set(off + 2, b2);
        self.buf.set(off + 3, b3);
        self.dirty = true;
        proof {
            assert(v % 0x100 + ((v / 0x100) % 0x100) * 0x100 + ((v / 0x10000) % 0x100) * 0x10000
                + (v / 0x1000000) * 0x1000000 == v) by (bit_vector);
        }
    }

    /// Writes the buffer back if it is dirty; a clean buffer is discarded
    /// without touching the disk.
    pub fn sync(self, disk: &mut MemDisk)
        requires
            self.wf(),
            self.id() < old(disk)@.len(),
        ensures
            self.is_dirty() ==> final(disk)@ == old(disk)@.update(self.id(), self@),
            !self.is_dirty() ==> final(disk)@ == old(disk)@,
    {
        if self.dirty {
            disk.write_block(self.block_id, &self.buf);
        }
    }
}

} // verus!
