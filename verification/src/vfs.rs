//! Inode handles: ephemeral objects naming one disk inode and exposing the
//! file and directory operations (find, create, list, read, write, clear).
//! Every operation reads the disk-inode record, works through the verified
//! block map, and writes the record back.

use vstd::prelude::*;
use crate::{BLOCK_SZ, DIRECT_BOUND, INDIRECT1_BOUND, INODE_INDIRECT1_COUNT, DIRENT_SZ,
    NAME_LENGTH_LIMIT};
use crate::disk::disk_wf;
use crate::efs::{EasyFileSystem, rec_ensures};
use crate::layout::{
    DiskInode, DiskInodeType, rec_direct_at, ptr_at, blocks_for, idx_children, idx_total,
    ty_code, MAX_DATA_BLOCKS, rec_matches,
};
use crate::block_cache::u32_at;
use vstd::string::StringSliceAdditionalSpecFns;
use vstd::arithmetic::div_mod::lemma_fundamental_div_mod;

verus! {

/// The record bytes of inode `id`.
pub open spec fn node_rec(fs: &EasyFileSystem, id: int) -> Seq<u8> {
    fs.block_device@[fs.spec_inode_block(id)]
}

/// Byte `j` of inode `id`'s packed record.
pub open spec fn rec_byte(fs: &EasyFileSystem, id: int, j: int) -> u8 {
    fs.block_device@[fs.spec_inode_block(id)][fs.spec_inode_off(id) + j]
}

/// The stored size of inode `id`.
pub open spec fn node_size(fs: &EasyFileSystem, id: int) -> int {
    u32_at(node_rec(fs, id), fs.spec_inode_off(id))
}

/// Whether inode `id` is a directory.
pub open spec fn node_is_dir(fs: &EasyFileSystem, id: int) -> bool {
    u32_at(node_rec(fs, id), fs.spec_inode_off(id) + 4) == 1
}

/// The data blocks backing inode `id`.
pub open spec fn node_data_blocks(fs: &EasyFileSystem, id: int) -> int {
    blocks_for(node_size(fs, id))
}

/// The single-indirect index block of inode `id`.
pub open spec fn node_ind1(fs: &EasyFileSystem, id: int) -> int {
    u32_at(node_rec(fs, id), fs.spec_inode_off(id) + 56)
}

/// The double-indirect root block of inode `id`.
pub open spec fn node_ind2(fs: &EasyFileSystem, id: int) -> int {
    u32_at(node_rec(fs, id), fs.spec_inode_off(id) + 60)
}

/// The double-indirect child index block serving chunk `c` of inode `id`.
pub open spec fn node_child_at(fs: &EasyFileSystem, id: int, c: int) -> int {
    ptr_at(fs.block_device@[node_ind2(fs, id)], c)
}

/// The physical block holding logical block `i` of inode `id`.
pub open spec fn node_block_at(fs: &EasyFileSystem, id: int, i: int) -> int {
    if i < DIRECT_BOUND {
        rec_direct_at(node_rec(fs, id), fs.spec_inode_off(id), i)
    } else if i < INDIRECT1_BOUND {
        ptr_at(fs.block_device@[node_ind1(fs, id)], i - DIRECT_BOUND)
    } else {
        ptr_at(
            fs.block_device@[node_child_at(
                fs, id, (i - INDIRECT1_BOUND) / (INODE_INDIRECT1_COUNT as int))],
            (i - INDIRECT1_BOUND) % (INODE_INDIRECT1_COUNT as int),
        )
    }
}

/// The index blocks owned by inode `id`, in the block map's fixed order.
pub open spec fn node_index_blocks(fs: &EasyFileSystem, id: int) -> Seq<int> {
    let n = node_data_blocks(fs, id);
    (if n > DIRECT_BOUND { seq![node_ind1(fs, id)] } else { Seq::empty() }) + (if n
        > INDIRECT1_BOUND {
        seq![node_ind2(fs, id)] + Seq::new(idx_children(n) as nat, |c: int| node_child_at(fs, id, c))
    } else {
        Seq::empty()
    })
}

/// Every block owned by inode `id`: data blocks in logical order, then the
/// index blocks.
pub open spec fn node_owned(fs: &EasyFileSystem, id: int) -> Seq<int> {
    Seq::new(node_data_blocks(fs, id) as nat, |i: int| node_block_at(fs, id, i))
        + node_index_blocks(fs, id)
}

/// The byte stream of inode `id`.
pub open spec fn node_content(fs: &EasyFileSystem, id: int) -> Seq<u8> {
    Seq::new(
        node_size(fs, id) as nat,
        |t: int|
            fs.block_device@[node_block_at(fs, id, t / (BLOCK_SZ as int))][t % (
                BLOCK_SZ as int)],
    )
}

/// The stored block map of inode `id` is structurally sound: within
/// capacity, every owned block real, no block owned twice.
pub open spec fn node_wf(fs: &EasyFileSystem, id: int) -> bool {
    &&& node_size(fs, id) <= MAX_DATA_BLOCKS * BLOCK_SZ
    &&& node_data_blocks(fs, id) <= MAX_DATA_BLOCKS
    &&& forall|p: int|
        0 <= p < node_owned(fs, id).len() ==> 1 <= #[trigger] node_owned(fs, id)[p]
            < fs.block_device@.len()
    &&& forall|p: int, q: int|
        0 <= p < q < node_owned(fs, id).len() ==> node_owned(fs, id)[p] != node_owned(
            fs, id)[q]
}

/// Every block owned by inode `id` lies in the data area and is marked in
/// use in the data bitmap.
pub open spec fn node_marked(fs: &EasyFileSystem, id: int) -> bool {
    forall|p: int|
        0 <= p < node_owned(fs, id).len() ==> {
            let b = #[trigger] node_owned(fs, id)[p];
            &&& fs.data_area_start_block <= b < fs.block_device@.len()
            &&& b - fs.data_area_start_block < fs.data_bitmap.spec_maximum()
            &&& fs.data_bitmap.bit(fs.block_device@, b - fs.data_area_start_block)
        }
}

/// A decoded record and the byte-level view of the same inode agree on
/// every derived notion: size, block map, owned blocks, content, and
/// well-formedness.
pub proof fn lemma_node_bridge(fs: &EasyFileSystem, id: int, ino: DiskInode)
    requires
        fs.wf(),
        fs.inode_in_range(id),
        ino.direct.len() == 12,
        rec_ensures(fs, id, ino),
    ensures
        ino.size == node_size(fs, id),
        ino.spec_data_blocks() == node_data_blocks(fs, id),
        (ino.ty == DiskInodeType::Directory) == node_is_dir(fs, id),
        forall|i: int| 0 <= i ==> ino.spec_block_at(
            fs.block_device@, i) == node_block_at(fs, id, i),
        ino.owned_blocks(fs.block_device@) == node_owned(fs, id),
        ino.spec_content(fs.block_device@) == node_content(fs, id),
        ino.map_wf(fs.block_device@) == node_wf(fs, id),
        ino.spec_total_blocks() == node_data_blocks(fs, id) + idx_total(node_data_blocks(
            fs, id)),
    decreases 0int,
{
    let d = fs.block_device@;
    assert forall|i: int| 0 <= i implies ino.spec_block_at(d, i) == node_block_at(fs, id, i) by {
        if INDIRECT1_BOUND <= i {
            assert(ino.spec_child_at(d, (i - INDIRECT1_BOUND) / (INODE_INDIRECT1_COUNT as int))
                == node_child_at(fs, id, (i - INDIRECT1_BOUND) / (
                INODE_INDIRECT1_COUNT as int)));
        }
    }
    assert(ino.owned_index_blocks(d) =~= node_index_blocks(fs, id));
    assert(ino.owned_blocks(d) =~= node_owned(fs, id));
    assert(ino.spec_content(d) =~= node_content(fs, id));
}

/// A handle naming one disk inode; any number of handles may name the same
/// inode.
pub struct Inode {
    pub inode_id: u32,
}

/// Two filesystem states that differ only in the record bytes of one other
/// inode `oid` present inode `id` unchanged: same record, block map,
/// content, and marking.
pub proof fn lemma_node_other_rec(fs1: &EasyFileSystem, fs2: &EasyFileSystem, id: int, oid:
    int)
    requires
        fs1.wf(),
        fs2.wf(),
        fs1.inode_in_range(id),
        fs1.inode_in_range(oid),
        id != oid,
        fs1.inode_area_start_block == fs2.inode_area_start_block,
        fs1.data_area_start_block == fs2.data_area_start_block,
        fs1.data_bitmap == fs2.data_bitmap,
        fs1.inode_bitmap == fs2.inode_bitmap,
        fs2.block_device@.len() == fs1.block_device@.len(),
        forall|b: int|
            0 <= b < fs1.block_device@.len() && b != fs1.spec_inode_block(oid)
                ==> fs2.block_device@[b] == fs1.block_device@[b],
        forall|j: int|
            0 <= j < BLOCK_SZ && !(fs1.spec_inode_off(oid) <= j < fs1.spec_inode_off(oid)
                + crate::INODE_SZ) ==> fs2.block_device@[fs1.spec_inode_block(oid)][j]
                == fs1.block_device@[fs1.spec_inode_block(oid)][j],
        node_wf(fs1, id),
        node_marked(fs1, id),
    ensures
        node_size(fs2, id) == node_size(fs1, id),
        node_is_dir(fs2, id) == node_is_dir(fs1, id),
        node_owned(fs2, id) == node_owned(fs1, id),
        node_content(fs2, id) == node_content(fs1, id),
        node_wf(fs2, id),
        node_marked(fs2, id),
        forall|j: int|
            0 <= j < fs1.data_bitmap.spec_maximum() ==> fs2.data_bitmap.bit(
                fs2.block_device@, j) == fs1.data_bitmap.bit(fs1.block_device@, j),
{
    fs1.lemma_inode_loc(id);
    fs1.lemma_inode_loc(oid);
    let d1 = fs1.block_device@;
    let d2 = fs2.block_device@;
    let n = node_data_blocks(fs1, id);
    assert forall|j: int|
        fs1.spec_inode_off(id) <= j < fs1.spec_inode_off(id) + crate::INODE_SZ implies d2[
        fs1.spec_inode_block(id)][j] == d1[fs1.spec_inode_block(id)][j] by {
        if fs1.spec_inode_block(id) == fs1.spec_inode_block(oid) {
            fs1.lemma_rec_disjoint(id, oid);
        }
    }
    assert(node_size(fs2, id) == node_size(fs1, id));
    assert(node_ind1(fs2, id) == node_ind1(fs1, id));
    assert(node_ind2(fs2, id) == node_ind2(fs1, id));
    assert forall|i: int|
        0 <= i < n implies node_block_at(fs2, id, i) == node_block_at(fs1, id, i) by {
        if i >= DIRECT_BOUND {
            assert(node_owned(fs1, id)[n] == node_ind1(fs1, id));
            assert(d2[node_ind1(fs1, id)] == d1[node_ind1(fs1, id)]);
            if i >= INDIRECT1_BOUND {
                crate::layout::lemma_chunk_bounds(i - INDIRECT1_BOUND, n - INDIRECT1_BOUND);
                let c = (i - INDIRECT1_BOUND) / (INODE_INDIRECT1_COUNT as int);
                assert(node_owned(fs1, id)[n + 1] == node_ind2(fs1, id));
                assert(d2[node_ind2(fs1, id)] == d1[node_ind2(fs1, id)]);
                assert(node_child_at(fs2, id, c) == node_child_at(fs1, id, c));
                assert(node_owned(fs1, id)[n + 2 + c] == node_child_at(fs1, id, c));
                assert(d2[node_child_at(fs1, id, c)] == d1[node_child_at(fs1, id, c)]);
            }
        }
    }
    if n > INDIRECT1_BOUND {
        assert(node_owned(fs1, id)[n + 1] == node_ind2(fs1, id));
        assert(d2[node_ind2(fs1, id)] == d1[node_ind2(fs1, id)]);
    }
    assert(node_index_blocks(fs2, id) =~= node_index_blocks(fs1, id));
    assert(node_owned(fs2, id) =~= node_owned(fs1, id));
    assert forall|t: int|
        0 <= t < node_size(fs1, id) implies node_content(fs2, id)[t] == node_content(
        fs1, id)[t] by {
        crate::layout::lemma_pos_block(t, node_size(fs1, id));
        let tb = t / (BLOCK_SZ as int);
        assert(node_owned(fs1, id)[tb] == node_block_at(fs1, id, tb));
        assert(d2[node_block_at(fs1, id, tb)] == d1[node_block_at(fs1, id, tb)]);
    }
    assert(node_content(fs2, id) =~= node_content(fs1, id));
    assert forall|j: int|
        0 <= j < fs1.data_bitmap.spec_maximum() implies fs2.data_bitmap.bit(
        fs2.block_device@, j) == fs1.data_bitmap.bit(fs1.block_device@, j) by {
        crate::bitmap::lemma_bit_recompose(j, fs1.data_bitmap.blocks as int);
    }
}

impl Inode {
    pub fn new(inode_id: u32) -> (r: Self)
        ensures
            r.inode_id == inode_id,
    {
        Inode { inode_id }
    }

    /// Reads bytes at `offset` into `buf`, clipped to the current size;
    /// returns the number of bytes transferred.
    pub fn read_at(&self, fs: &EasyFileSystem, offset: usize, buf: &mut Vec<u8>) -> (r: usize)
        requires
            fs.wf(),
            fs.inode_in_range(self.inode_id as int),
            node_wf(fs, self.inode_id as int),
        ensures
            ({
                let size = node_size(fs, self.inode_id as int);
                &&& r == if offset >= size {
                    0int
                } else if offset + old(buf)@.len() <= size {
                    old(buf)@.len() as int
                } else {
                    size - offset
                }
                &&& final(buf)@.len() == old(buf)@.len()
                &&& forall|t: int|
                    0 <= t < r ==> final(buf)@[t] == node_content(fs, self.inode_id as int)[
                        offset + t]
                &&& forall|t: int| r <= t < old(buf)@.len() ==> final(buf)@[t] == old(buf)@[t]
            }),
    {
        let id = self.inode_id;
        let ino = fs.get_disk_inode(id);
        proof {
            lemma_node_bridge(fs, id as int, ino);
        }
        ino.read_at(offset, buf, &fs.block_device)
    }

    /// Truncates the inode to length zero, returning every block it owned
    /// to the data bitmap.
    pub fn clear(&self, fs: &mut EasyFileSystem)
        requires
            old(fs).wf(),
            old(fs).inode_in_range(self.inode_id as int),
            node_wf(old(fs), self.inode_id as int),
            node_marked(old(fs), self.inode_id as int),
        ensures
            final(fs).wf(),
            final(fs).inode_bitmap == old(fs).inode_bitmap,
            final(fs).data_bitmap == old(fs).data_bitmap,
            final(fs).inode_area_start_block == old(fs).inode_area_start_block,
            final(fs).data_area_start_block == old(fs).data_area_start_block,
            final(fs).block_device@.len() == old(fs).block_device@.len(),
            node_size(final(fs), self.inode_id as int) == 0,
            node_wf(final(fs), self.inode_id as int),
            node_marked(final(fs), self.inode_id as int),
            // every block previously owned is free again
            forall|p: int|
                0 <= p < node_owned(old(fs), self.inode_id as int).len()
                    ==> !final(fs).data_bitmap.bit(
                    final(fs).block_device@, #[trigger] node_owned(
                        old(fs), self.inode_id as int)[p] - old(fs).data_area_start_block),
            // data bits of blocks it never owned are unchanged
            forall|j: int|
                0 <= j < old(fs).data_bitmap.spec_maximum() && !node_owned(
                    old(fs), self.inode_id as int).contains(j + old(
                    fs).data_area_start_block) ==> final(fs).data_bitmap.bit(
                    final(fs).block_device@, j) == old(fs).data_bitmap.bit(
                    old(fs).block_device@, j),
            // only the record block and the data bitmap were touched
            forall|b: int|
                0 <= b < old(fs).block_device@.len() && b != old(fs).spec_inode_block(
                    self.inode_id as int) && !(old(fs).data_bitmap.start_block_id <= b < old(
                    fs).data_bitmap.start_block_id + old(fs).data_bitmap.blocks) ==> final(
                    fs).block_device@[b] == old(fs).block_device@[b],
    {
        let id = self.inode_id;
        let mut ino = fs.get_disk_inode(id);
        proof {
            lemma_node_bridge(fs, id as int, ino);
        }
        let ghost owned0 = node_owned(old(fs), id as int);
        let ids = ino.clear_size(&fs.block_device);
        fs.set_disk_inode(id, &ino);
        proof {
            assert(rec_matches(node_rec(fs, id as int), fs.spec_inode_off(id as int), ino));
            lemma_node_bridge(fs, id as int, ino);
            assert(node_owned(fs, id as int).len() == 0);
            assert forall|j: int|
                0 <= j < fs.data_bitmap.spec_maximum() implies fs.data_bitmap.bit(
                fs.block_device@, j) == old(fs).data_bitmap.bit(old(fs).block_device@, j) by {
                crate::bitmap::lemma_bit_recompose(j, fs.data_bitmap.blocks as int);
            }
        }
        let mut k: usize = 0;
        let n = ids.len();
        while k < n
            invariant
                fs.wf(),
                fs.inode_bitmap == old(fs).inode_bitmap,
                fs.data_bitmap == old(fs).data_bitmap,
                fs.inode_area_start_block == old(fs).inode_area_start_block,
                fs.data_area_start_block == old(fs).data_area_start_block,
                fs.block_device@.len() == old(fs).block_device@.len(),
                fs.inode_in_range(id as int),
                k <= n,
                n == ids@.len(),
                n == owned0.len(),
                forall|p: int| 0 <= p < n ==> ids@[p] == owned0[p],
                forall|p: int, q: int| 0 <= p < q < n ==> owned0[p] != owned0[q],
                forall|p: int|
                    0 <= p < n ==> {
                        &&& old(fs).data_area_start_block <= #[trigger] owned0[p] < old(
                            fs).block_device@.len()
                        &&& owned0[p] - old(fs).data_area_start_block < old(
                            fs).data_bitmap.spec_maximum()
                    },
                forall|p: int|
                    0 <= p < k ==> !fs.data_bitmap.bit(
                        fs.block_device@, #[trigger] owned0[p] - old(
                        fs).data_area_start_block),
                forall|p: int|
                    k <= p < n ==> fs.data_bitmap.bit(
                        fs.block_device@, #[trigger] owned0[p] - old(
                        fs).data_area_start_block),
                forall|j: int|
                    0 <= j < old(fs).data_bitmap.spec_maximum() && !owned0.contains(j + old(
                        fs).data_area_start_block) ==> fs.data_bitmap.bit(
                        fs.block_device@, j) == old(fs).data_bitmap.bit(
                        old(fs).block_device@, j),
                forall|b: int|
                    0 <= b < old(fs).block_device@.len() && b != old(fs).spec_inode_block(
                        id as int) && !(old(fs).data_bitmap.start_block_id <= b < old(
                        fs).data_bitmap.start_block_id + old(fs).data_bitmap.blocks)
                        ==> fs.block_device@[b] == old(fs).block_device@[b],
                node_size(fs, id as int) == 0,
                node_wf(fs, id as int),
                node_owned(fs, id as int).len() == 0,
            decreases n - k,
        {
            let b = ids[k];
            let ghost rec_blk = fs.spec_inode_block(id as int);
            let ghost rec_pre = fs.block_device@[rec_blk];
            proof {
                assert(owned0[k as int] == b);
                fs.lemma_inode_loc(id as int);
            }
            fs.dealloc_data(b);
            proof {
                assert forall|p: int|
                    k + 1 <= p < n implies fs.data_bitmap.bit(
                    fs.block_device@, #[trigger] owned0[p] - old(
                    fs).data_area_start_block) by {
                    assert(owned0[p] != owned0[k as int]);
                }
                assert(fs.block_device@[rec_blk] == rec_pre);
            }
            k = k + 1;
        }
        proof {
            assert(node_marked(fs, id as int)) by {
                assert(node_owned(fs, id as int).len() == 0);
            }
        }
    }
}

/// Two filesystem states that differ only inside the blocks `[lo, hi)` -
/// a range that avoids the inode's record block and the whole data area -
/// present the same inode: same record, same block map, same content.
pub proof fn lemma_node_frame(fs1: &EasyFileSystem, fs2: &EasyFileSystem, id: int, lo: int,
    hi: int)
    requires
        fs1.wf(),
        fs2.wf(),
        fs1.inode_in_range(id),
        fs1.inode_area_start_block == fs2.inode_area_start_block,
        fs1.data_area_start_block == fs2.data_area_start_block,
        fs1.data_bitmap == fs2.data_bitmap,
        fs1.inode_bitmap == fs2.inode_bitmap,
        fs2.block_device@.len() == fs1.block_device@.len(),
        !(lo <= fs1.spec_inode_block(id) < hi),
        hi <= fs1.data_area_start_block,
        forall|b: int|
            0 <= b < fs1.block_device@.len() && !(lo <= b < hi) ==> fs2.block_device@[b]
                == fs1.block_device@[b],
        node_wf(fs1, id),
        node_marked(fs1, id),
    ensures
        node_size(fs2, id) == node_size(fs1, id),
        node_is_dir(fs2, id) == node_is_dir(fs1, id),
        forall|i: int|
            0 <= i < node_data_blocks(fs1, id) ==> node_block_at(fs2, id, i) == node_block_at(
                fs1, id, i),
        node_owned(fs2, id) == node_owned(fs1, id),
        node_content(fs2, id) == node_content(fs1, id),
        node_wf(fs2, id),
        hi <= fs1.data_bitmap.start_block_id ==> node_marked(fs2, id),
{
    fs1.lemma_inode_loc(id);
    let d1 = fs1.block_device@;
    let d2 = fs2.block_device@;
    let n = node_data_blocks(fs1, id);
    assert(node_rec(fs2, id) == node_rec(fs1, id));
    assert forall|i: int|
        0 <= i < n implies node_block_at(fs2, id, i) == node_block_at(fs1, id, i) by {
        if i >= DIRECT_BOUND {
            assert(node_owned(fs1, id)[n] == node_ind1(fs1, id));
            assert(d2[node_ind1(fs1, id)] == d1[node_ind1(fs1, id)]);
            if i >= INDIRECT1_BOUND {
                crate::layout::lemma_chunk_bounds(i - INDIRECT1_BOUND, n - INDIRECT1_BOUND);
                let c = (i - INDIRECT1_BOUND) / (INODE_INDIRECT1_COUNT as int);
                assert(node_owned(fs1, id)[n + 1] == node_ind2(fs1, id));
                assert(d2[node_ind2(fs1, id)] == d1[node_ind2(fs1, id)]);
                assert(node_child_at(fs2, id, c) == node_child_at(fs1, id, c));
                assert(node_owned(fs1, id)[n + 2 + c] == node_child_at(fs1, id, c));
                assert(d2[node_child_at(fs1, id, c)] == d1[node_child_at(fs1, id, c)]);
            }
        }
    }
    if n > INDIRECT1_BOUND {
        assert(node_owned(fs1, id)[n + 1] == node_ind2(fs1, id));
        assert(d2[node_ind2(fs1, id)] == d1[node_ind2(fs1, id)]);
    }
    assert(node_index_blocks(fs2, id) =~= node_index_blocks(fs1, id));
    assert(node_owned(fs2, id) =~= node_owned(fs1, id));
    assert forall|t: int|
        0 <= t < node_size(fs1, id) implies node_content(fs2, id)[t] == node_content(
        fs1, id)[t] by {
        crate::layout::lemma_pos_block(t, node_size(fs1, id));
        let tb = t / (BLOCK_SZ as int);
        assert(node_owned(fs1, id)[tb] == node_block_at(fs1, id, tb));
        assert(d2[node_block_at(fs1, id, tb)] == d1[node_block_at(fs1, id, tb)]);
    }
    assert(node_content(fs2, id) =~= node_content(fs1, id));
}

impl Inode {
    /// Writes `buf` at `offset`, first growing the inode - allocating data
    /// and index blocks from the data bitmap - when the write extends past
    /// the current size. Returns the bytes written, or zero when the image
    /// has too little free space left for the growth.
    #[verifier::rlimit(100)]
    pub fn write_at(&self, fs: &mut EasyFileSystem, offset: usize, buf: &Vec<u8>) -> (r:
        usize)
        requires
            old(fs).wf(),
            old(fs).inode_in_range(self.inode_id as int),
            node_wf(old(fs), self.inode_id as int),
            node_marked(old(fs), self.inode_id as int),
            offset + buf@.len() <= MAX_DATA_BLOCKS * BLOCK_SZ,
        ensures
            final(fs).wf(),
            final(fs).inode_bitmap == old(fs).inode_bitmap,
            final(fs).data_bitmap == old(fs).data_bitmap,
            final(fs).inode_area_start_block == old(fs).inode_area_start_block,
            final(fs).data_area_start_block == old(fs).data_area_start_block,
            final(fs).block_device@.len() == old(fs).block_device@.len(),
            r == buf@.len() || r == 0,
            buf@.len() == 0 ==> *final(fs) == *old(fs),
            // the inode bitmap's blocks are never touched
            forall|b: int|
                1 <= b < old(fs).inode_area_start_block ==> final(fs).block_device@[b] == old(
                    fs).block_device@[b],
            r == buf@.len() && buf@.len() > 0 ==> {
                let id = self.inode_id as int;
                let old_size = node_size(old(fs), id);
                &&& node_wf(final(fs), id)
                &&& node_marked(final(fs), id)
                &&& node_is_dir(final(fs), id) == node_is_dir(old(fs), id)
                &&& node_size(final(fs), id) == if offset + buf@.len() > old_size {
                    offset + buf@.len()
                } else {
                    old_size
                }
                &&& forall|t: int|
                    offset <= t < offset + buf@.len() ==> node_content(final(fs), id)[t]
                        == buf@[t - offset]
                &&& forall|t: int|
                    0 <= t < old_size && t < offset ==> node_content(final(fs), id)[t]
                        == node_content(old(fs), id)[t]
                &&& forall|t: int|
                    offset + buf@.len() <= t < old_size ==> node_content(final(fs), id)[t]
                        == node_content(old(fs), id)[t]
                &&& forall|j: int|
                    0 <= j < old(fs).data_bitmap.spec_maximum() && old(fs).data_bitmap.bit(
                        old(fs).block_device@, j) ==> final(fs).data_bitmap.bit(
                        final(fs).block_device@, j)
            },
            // in the record's own block, only this inode's record changes
            forall|j: int|
                0 <= j < BLOCK_SZ && !(old(fs).spec_inode_off(self.inode_id as int) <= j
                    < old(fs).spec_inode_off(self.inode_id as int) + crate::INODE_SZ)
                    ==> final(fs).block_device@[old(fs).spec_inode_block(
                    self.inode_id as int)][j] == old(fs).block_device@[old(
                    fs).spec_inode_block(self.inode_id as int)][j],
            // blocks this write cannot own are untouched: everything below
            // the data area except the bitmaps and the record block, and
            // every in-use data-area block not owned by this inode
            forall|b: int|
                0 <= b < old(fs).block_device@.len() && b != old(fs).spec_inode_block(
                    self.inode_id as int) && !(old(fs).data_bitmap.start_block_id <= b < old(
                    fs).data_bitmap.start_block_id + old(fs).data_bitmap.blocks) && !(1 <= b
                    < old(fs).inode_area_start_block) && !node_owned(
                    old(fs), self.inode_id as int).contains(b) && (b < old(
                    fs).data_area_start_block || (b - old(fs).data_area_start_block < old(
                    fs).data_bitmap.spec_maximum() && old(fs).data_bitmap.bit(
                    old(fs).block_device@, b - old(fs).data_area_start_block))) ==> final(
                    fs).block_device@[b] == old(fs).block_device@[b],
            // failure happens only for want of space: the free usable data
            // blocks were fewer than the growth needed
            r == 0 && buf@.len() > 0 ==> fewer_free_data_blocks_than(
                old(fs), spec_blocks_needed(
                    old(fs), self.inode_id as int, offset + buf@.len())),
            r == 0 && buf@.len() > 0 ==> {
                let id = self.inode_id as int;
                &&& node_size(final(fs), id) == node_size(old(fs), id)
                &&& node_content(final(fs), id) == node_content(old(fs), id)
                &&& node_wf(final(fs), id)
                &&& node_marked(final(fs), id)
                &&& forall|j: int|
                    0 <= j < old(fs).data_bitmap.spec_maximum() ==> final(
                        fs).data_bitmap.bit(final(fs).block_device@, j) == old(
                        fs).data_bitmap.bit(old(fs).block_device@, j)
            },
    {
        let id = self.inode_id;
        if buf.len() == 0 {
            return 0;
        }
        let mut ino = fs.get_disk_inode(id);
        proof {
            lemma_node_bridge(fs, id as int, ino);
            fs.lemma_inode_loc(id as int);
        }
        let end = offset + buf.len();
        if end > ino.size as usize {
            let needed = ino.blocks_num_needed(end as u32);
            proof {
                assert(needed == spec_blocks_needed(old(fs), id as int, end as int));
            }
            let mut v: Vec<u32> = Vec::new();
            let mut k: u32 = 0;
            while k < needed
                invariant
                    fs.wf(),
                    fs.inode_bitmap == old(fs).inode_bitmap,
                    fs.data_bitmap == old(fs).data_bitmap,
                    fs.inode_area_start_block == old(fs).inode_area_start_block,
                    fs.data_area_start_block == old(fs).data_area_start_block,
                    fs.block_device@.len() == old(fs).block_device@.len(),
                    fs.inode_in_range(id as int),
                    old(fs).wf(),
                    old(fs).inode_in_range(id as int),
                    node_wf(old(fs), id as int),
                    node_marked(old(fs), id as int),
                    buf@.len() > 0,
                    id == self.inode_id,
                    needed == spec_blocks_needed(
                        old(fs), id as int, offset + buf@.len()),
                    k <= needed,
                    v@.len() == k,
                    forall|b: int|
                        0 <= b < old(fs).block_device@.len() && !(
                            old(fs).data_bitmap.start_block_id <= b < old(
                            fs).data_bitmap.start_block_id + old(fs).data_bitmap.blocks)
                            ==> fs.block_device@[b] == old(fs).block_device@[b],
                    forall|p: int|
                        0 <= p < k ==> {
                            let bid = #[trigger] v@[p];
                            &&& old(fs).data_area_start_block <= bid < old(
                                fs).block_device@.len()
                            &&& bid - old(fs).data_area_start_block < old(
                                fs).data_bitmap.spec_maximum()
                            &&& !old(fs).data_bitmap.bit(
                                old(fs).block_device@, bid - old(fs).data_area_start_block)
                            &&& fs.data_bitmap.bit(
                                fs.block_device@, bid - old(fs).data_area_start_block)
                        },
                    forall|p: int, q: int| 0 <= p < q < k ==> v@[p] != v@[q],
                    forall|j: int|
                        0 <= j < old(fs).data_bitmap.spec_maximum() && old(
                            fs).data_bitmap.bit(old(fs).block_device@, j) ==> fs.data_bitmap.bit(
                            fs.block_device@, j),
                    forall|j: int|
                        0 <= j < old(fs).data_bitmap.spec_maximum() && !(exists|p: int|
                            0 <= p < k && v@[p] - old(fs).data_area_start_block == j)
                            ==> fs.data_bitmap.bit(fs.block_device@, j) == old(
                            fs).data_bitmap.bit(old(fs).block_device@, j),
                decreases needed - k,
            {
                match fs.alloc_data() {
                    Some(bid) => {
                        proof {
                            assert forall|p: int| 0 <= p < k implies v@[p] != bid by {
                                assert(fs.data_bitmap.bit(
                                    fs.block_device@, v@[p] - old(fs).data_area_start_block));
                            }
                        }
                        let ghost v_prev = v@;
                        let ghost fs_prev = *fs;
                        v.push(bid);
                        k = k + 1;
                        proof {
                            assert forall|j: int|
                                0 <= j < old(fs).data_bitmap.spec_maximum() && !(exists|p: int|
                                    0 <= p < k && v@[p] - old(fs).data_area_start_block == j)
                                implies fs.data_bitmap.bit(fs.block_device@, j) == old(
                                fs).data_bitmap.bit(old(fs).block_device@, j) by {
                                assert(v@[k - 1] == bid);
                                assert(j != bid - old(fs).data_area_start_block);
                                assert(!(exists|p: int|
                                    0 <= p < k - 1 && v_prev[p] - old(
                                    fs).data_area_start_block == j)) by {
                                    if exists|p: int|
                                        0 <= p < k - 1 && v_prev[p] - old(
                                        fs).data_area_start_block == j {
                                        let p = choose|p: int|
                                            0 <= p < k - 1 && v_prev[p] - old(
                                            fs).data_area_start_block == j;
                                        assert(v@[p] == v_prev[p]);
                                    }
                                }
                            }
                        }
                    },
                    None => {
                        proof {
                            let start = old(fs).data_area_start_block as int;
                            let cover = Seq::new(k as nat, |p: int| v@[p] - start);
                            assert forall|j: int|
                                0 <= j < old(fs).data_bitmap.spec_maximum() && start + j
                                    < old(fs).block_device@.len() && !old(
                                    fs).data_bitmap.bit(old(fs).block_device@, j)
                                implies cover.contains(j) by {
                                assert(fs.data_bitmap.bit(fs.block_device@, j)) by {
                                    if !fs.data_bitmap.bit(fs.block_device@, j) {
                                        let i = choose|i: int|
                                            0 <= i < fs.data_bitmap.spec_maximum()
                                                && !fs.data_bitmap.bit(fs.block_device@, i)
                                                && (forall|j2: int|
                                                0 <= j2 < i ==> fs.data_bitmap.bit(
                                                    fs.block_device@, j2))
                                                && fs.data_area_start_block + i
                                                >= fs.block_device@.len();
                                        assert(j < i);
                                        assert(false);
                                    }
                                }
                                assert(exists|p: int|
                                    0 <= p < k && v@[p] - start == j) by {
                                    if !(exists|p: int| 0 <= p < k && v@[p] - start == j) {
                                        assert(fs.data_bitmap.bit(fs.block_device@, j)
                                            == old(fs).data_bitmap.bit(
                                            old(fs).block_device@, j));
                                        assert(false);
                                    }
                                }
                                let p = choose|p: int| 0 <= p < k && v@[p] - start == j;
                                assert(cover[p] == j);
                            }
                            assert(cover.len() < spec_blocks_needed(
                                old(fs), id as int, offset + buf@.len()));
                            assert(cover.len() < spec_blocks_needed(
                                old(fs), id as int, offset + buf@.len()) && (forall|j: int|
                                0 <= j < old(fs).data_bitmap.spec_maximum() && old(
                                    fs).data_area_start_block + j < old(
                                    fs).block_device@.len() && !old(fs).data_bitmap.bit(
                                    old(fs).block_device@, j) ==> cover.contains(j)));
                            assert(fewer_free_data_blocks_than(
                                old(fs), spec_blocks_needed(
                                    old(fs), id as int, offset + buf@.len())));
                        }
                        let mut k2: usize = 0;
                        let n2 = v.len();
                        while k2 < n2
                            invariant
                                fs.wf(),
                                fs.inode_bitmap == old(fs).inode_bitmap,
                                fs.data_bitmap == old(fs).data_bitmap,
                                fs.inode_area_start_block == old(fs).inode_area_start_block,
                                fs.data_area_start_block == old(fs).data_area_start_block,
                                fs.block_device@.len() == old(fs).block_device@.len(),
                                old(fs).wf(),
                                old(fs).inode_in_range(id as int),
                                node_wf(old(fs), id as int),
                                node_marked(old(fs), id as int),
                                buf@.len() > 0,
                                id == self.inode_id,
                                fewer_free_data_blocks_than(
                                    old(fs), spec_blocks_needed(
                                        old(fs), id as int, offset + buf@.len())),
                                k2 <= n2,
                                n2 == v@.len(),
                                forall|b: int|
                                    0 <= b < old(fs).block_device@.len() && !(
                                        old(fs).data_bitmap.start_block_id <= b < old(
                                        fs).data_bitmap.start_block_id + old(
                                        fs).data_bitmap.blocks) ==> fs.block_device@[b] == old(
                                        fs).block_device@[b],
                                forall|p: int|
                                    0 <= p < n2 ==> {
                                        let bid = #[trigger] v@[p];
                                        &&& old(fs).data_area_start_block <= bid < old(
                                            fs).block_device@.len()
                                        &&& bid - old(fs).data_area_start_block < old(
                                            fs).data_bitmap.spec_maximum()
                                        &&& !old(fs).data_bitmap.bit(
                                            old(fs).block_device@, bid - old(
                                            fs).data_area_start_block)
                                    },
                                forall|p: int, q: int| 0 <= p < q < n2 ==> v@[p] != v@[q],
                                forall|p: int|
                                    k2 <= p < n2 ==> fs.data_bitmap.bit(
                                        fs.block_device@, #[trigger] v@[p] - old(
                                        fs).data_area_start_block),
                                forall|j: int|
                                    0 <= j < old(fs).data_bitmap.spec_maximum() && !(exists|
                                        p: int|
                                        k2 <= p < n2 && v@[p] - old(fs).data_area_start_block
                                            == j) ==> fs.data_bitmap.bit(
                                        fs.block_device@, j) == old(fs).data_bitmap.bit(
                                        old(fs).block_device@, j),
                            decreases n2 - k2,
                        {
                            let bid = v[k2];
                            fs.dealloc_data(bid);
                            proof {
                                assert forall|p: int|
                                    k2 + 1 <= p < n2 implies fs.data_bitmap.bit(
                                    fs.block_device@, #[trigger] v@[p] - old(
                                    fs).data_area_start_block) by {
                                    assert(v@[p] != v@[k2 as int]);
                                }
                            }
                            k2 = k2 + 1;
                        }
                        proof {
                            lemma_node_frame(old(fs), fs, id as int,
                                old(fs).data_bitmap.start_block_id as int,
                                old(fs).data_bitmap.start_block_id + old(
                                fs).data_bitmap.blocks);
                            assert forall|j: int|
                                0 <= j < old(fs).data_bitmap.spec_maximum() implies
                                fs.data_bitmap.bit(fs.block_device@, j) == old(
                                fs).data_bitmap.bit(old(fs).block_device@, j) by {}
                            assert forall|p: int|
                                0 <= p < node_owned(fs, id as int).len() implies {
                                let b2 = #[trigger] node_owned(fs, id as int)[p];
                                &&& fs.data_area_start_block <= b2 < fs.block_device@.len()
                                &&& b2 - fs.data_area_start_block < fs.data_bitmap.spec_maximum()
                                &&& fs.data_bitmap.bit(
                                    fs.block_device@, b2 - fs.data_area_start_block)
                            } by {
                                assert(node_owned(fs, id as int)[p] == node_owned(
                                    old(fs), id as int)[p]);
                            }
                            assert(node_wf(fs, id as int));
                            assert(node_size(fs, id as int) == node_size(old(fs), id as int));
                            assert(node_content(fs, id as int) == node_content(
                                old(fs), id as int));
                            assert(node_marked(fs, id as int));
                        }
                        return 0;
                    },
                }
            }
            proof {
                lemma_node_frame(old(fs), fs, id as int,
                                old(fs).data_bitmap.start_block_id as int,
                                old(fs).data_bitmap.start_block_id + old(
                                fs).data_bitmap.blocks);
                lemma_node_bridge(fs, id as int, ino);
                assert(crate::layout::ids_fresh(ino, fs.block_device@, v@, 0)) by {
                    assert forall|p: int|
                        0 <= p < v@.len() implies !ino.owned_blocks(
                        fs.block_device@).contains(#[trigger] v@[p] as int) by {
                        if ino.owned_blocks(fs.block_device@).contains(v@[p] as int) {
                            let pp = choose|pp: int|
                                0 <= pp < node_owned(fs, id as int).len() && node_owned(
                                fs, id as int)[pp] == v@[p] as int;
                            assert(node_owned(old(fs), id as int)[pp] == v@[p] as int);
                            assert(old(fs).data_bitmap.bit(
                                old(fs).block_device@, v@[p] - old(
                                fs).data_area_start_block));
                            assert(false);
                        }
                    }
                }
            }
            let ghost fs_grow = *fs;
            let ghost ino_pre = ino;
            let ghost d_grow = fs.block_device@;
            ino.increase_size(end as u32, v, &mut fs.block_device);
            let ghost d_inc = fs.block_device@;
            proof {
                // the record block lies below the data area, so the growth
                // writes (all inside the data area) left it alone
                assert forall|x: int|
                    ino.owned_blocks(d_inc).contains(x) implies fs.data_area_start_block <= x
                    < fs.block_device@.len() && x - fs.data_area_start_block
                    < fs.data_bitmap.spec_maximum() && fs.data_bitmap.bit(
                    d_inc, x - fs.data_area_start_block) && (node_owned(
                    old(fs), id as int).contains(x) || !old(fs).data_bitmap.bit(
                    old(fs).block_device@, x - old(fs).data_area_start_block)) by {
                    if !node_owned(old(fs), id as int).contains(x) {
                        let kx = choose|kx: int| 0 <= kx < v@.len() && v@[kx] == x;
                        assert(old(fs).data_area_start_block <= v@[kx]);
                    } else {
                        let px = choose|px: int|
                            0 <= px < node_owned(old(fs), id as int).len() && node_owned(
                            old(fs), id as int)[px] == x;
                        assert(fs_grow.data_bitmap.bit(
                            d_grow, x - old(fs).data_area_start_block));
                        if exists|kx: int| 0 <= kx < v@.len() && v@[kx] == x {
                            let kx = choose|kx: int| 0 <= kx < v@.len() && v@[kx] == x;
                            assert(old(fs).data_bitmap.bit(
                                old(fs).block_device@, x - old(fs).data_area_start_block));
                            assert(false);
                        }
                    }
                    assert(d_inc[x - x + fs.data_area_start_block].len() >= 0);
                }
            }
            fs.set_disk_inode(id, &ino);
            proof {
                let idd = id as int;
                let d_set = fs.block_device@;
                let old_size = node_size(old(fs), idd);
                assert(rec_ensures(fs, idd, ino));
                fs.lemma_inode_loc(idd);
                assert forall|q: int|
                    0 <= q < ino.owned_index_blocks(d_inc).len() implies d_set[
                    #[trigger] ino.owned_index_blocks(d_inc)[q]] == d_inc[
                    ino.owned_index_blocks(d_inc)[q]] by {
                    let x = ino.owned_index_blocks(d_inc)[q];
                    assert(ino.owned_blocks(d_inc)[ino.spec_data_blocks() + q] == x);
                    assert(ino.owned_blocks(d_inc).contains(x));
                }
                crate::layout::lemma_map_frame(&ino, d_inc, d_set);
                assert(ino.map_wf(d_set));
                // bytes already stored keep their values across record write-back
                assert forall|t: int|
                    0 <= t < old_size implies ino.spec_content(d_set)[t] == node_content(
                    old(fs), idd)[t] by {
                    crate::layout::lemma_pos_block(t, ino.size as int);
                    let tb = t / (BLOCK_SZ as int);
                    let pb = ino.spec_block_at(d_inc, tb);
                    assert(ino.owned_blocks(d_inc)[tb] == pb);
                    assert(ino.owned_blocks(d_inc).contains(pb));
                    assert(d_set[pb] == d_inc[pb]);
                    assert(ino.spec_content(d_set)[t] == ino.spec_content(d_inc)[t]);
                    assert(ino.spec_content(d_inc)[t] == ino_pre.spec_content(d_grow)[t]);
                }
                // every owned block is in the data area with its bit set
                assert forall|x: int|
                    ino.owned_blocks(d_set).contains(x) implies fs.data_area_start_block <= x
                    < fs.block_device@.len() && x - fs.data_area_start_block
                    < fs.data_bitmap.spec_maximum() && fs.data_bitmap.bit(
                    d_set, x - fs.data_area_start_block) by {
                    assert(ino.owned_blocks(d_inc).contains(x));
                    let jx = x - fs.data_area_start_block;
                    crate::bitmap::lemma_bit_recompose(jx, fs.data_bitmap.blocks as int);
                    let bj = fs.data_bitmap.start_block_id + jx / (
                        crate::BITS_PER_BLOCK as int);
                    assert(d_set[bj] == d_inc[bj]);
                }
            }
        }
        let ghost d_mid = fs.block_device@;
        proof {
            let idd = id as int;
            let old_size = node_size(old(fs), idd);
            assert(rec_ensures(fs, idd, ino));
            assert(ino.direct.len() == 12);
            assert(ino.map_wf(d_mid));
            assert(ino.size == if end > old_size { end as int } else { old_size });
            assert((ino.ty == DiskInodeType::Directory) == node_is_dir(old(fs), idd));
            assert forall|t: int|
                0 <= t < old_size && t < ino.size implies ino.spec_content(d_mid)[t]
                == node_content(old(fs), idd)[t] by {}
            assert forall|x: int|
                ino.owned_blocks(d_mid).contains(x) implies fs.data_area_start_block <= x
                < fs.block_device@.len() && x - fs.data_area_start_block
                < fs.data_bitmap.spec_maximum() && fs.data_bitmap.bit(
                d_mid, x - fs.data_area_start_block) by {}
        }
        let ghost ino_mid = ino;
        let w = ino.write_at(offset, buf, &mut fs.block_device);
        proof {
            let idd = id as int;
            let d_fin = fs.block_device@;
            let rec_blk = fs.spec_inode_block(idd);
            fs.lemma_inode_loc(idd);
            assert(!ino.owned_blocks(d_mid).contains(rec_blk));
            assert(d_fin[rec_blk] == d_mid[rec_blk]);
            assert(rec_ensures(fs, idd, ino));
            lemma_node_bridge(fs, idd, ino);
            // the data bitmap blocks are not owned, so the bits survive
            assert forall|j: int|
                0 <= j < fs.data_bitmap.spec_maximum() implies fs.data_bitmap.bit(
                d_fin, j) == fs.data_bitmap.bit(d_mid, j) by {
                crate::bitmap::lemma_bit_recompose(j, fs.data_bitmap.blocks as int);
                let bj = fs.data_bitmap.start_block_id + j / (
                    crate::BITS_PER_BLOCK as int);
                assert(!ino.owned_blocks(d_mid).contains(bj));
                assert(d_fin[bj] == d_mid[bj]);
            }
            assert(node_wf(fs, idd));
            assert forall|p: int|
                0 <= p < node_owned(fs, idd).len() implies {
                let x = #[trigger] node_owned(fs, idd)[p];
                &&& fs.data_area_start_block <= x < fs.block_device@.len()
                &&& x - fs.data_area_start_block < fs.data_bitmap.spec_maximum()
                &&& fs.data_bitmap.bit(d_fin, x - fs.data_area_start_block)
            } by {
                assert(node_owned(fs, idd)[p] == ino.owned_blocks(d_fin)[p]);
                assert(ino.owned_blocks(d_fin).contains(ino.owned_blocks(d_fin)[p]));
                assert(ino.owned_blocks(d_mid).contains(ino.owned_blocks(d_fin)[p]));
            }
            assert(node_marked(fs, idd));
        }
        w
    }
}

/// Fresh blocks growing inode `id` to `new_size` bytes consumes: new data
/// blocks plus any index blocks materialized at tier boundaries.
pub open spec fn spec_blocks_needed(fs: &EasyFileSystem, id: int, new_size: int) -> int {
    blocks_for(new_size) + idx_total(blocks_for(new_size)) - (node_data_blocks(fs, id)
        + idx_total(node_data_blocks(fs, id)))
}

/// Fewer than `n` data blocks are free and usable on `fs`: a sequence of
/// fewer than `n` indices covers every clear bit that maps to a real block.
pub open spec fn fewer_free_data_blocks_than(fs: &EasyFileSystem, n: int) -> bool {
    exists|cover: Seq<int>|
        cover.len() < n && (forall|j: int|
            0 <= j < fs.data_bitmap.spec_maximum() && fs.data_area_start_block + j
                < fs.block_device@.len() && !fs.data_bitmap.bit(fs.block_device@, j)
                ==> cover.contains(j))
}

/// Byte `j` of directory entry `k` of inode `id`.
pub open spec fn entry_byte(fs: &EasyFileSystem, id: int, k: int, j: int) -> u8 {
    node_content(fs, id)[k * DIRENT_SZ + j]
}

/// Whether directory entry `k` of inode `id` carries `name` (padded with
/// zero bytes to the fixed name field width).
pub open spec fn entry_name_matches(fs: &EasyFileSystem, id: int, k: int, name: Seq<u8>) ->
    bool {
    forall|j: int|
        0 <= j < NAME_LENGTH_LIMIT + 1 ==> #[trigger] entry_byte(fs, id, k, j) == (
        if j < name.len() {
            name[j]
        } else {
            0u8
        })
}

/// The inode id stored in directory entry `k` of inode `id`.
pub open spec fn entry_inode_id(fs: &EasyFileSystem, id: int, k: int) -> int {
    crate::block_cache::u32_le_val(
        entry_byte(fs, id, k, 28),
        entry_byte(fs, id, k, 29),
        entry_byte(fs, id, k, 30),
        entry_byte(fs, id, k, 31),
    )
}

/// How many whole directory entries inode `id` holds.
pub open spec fn entry_count(fs: &EasyFileSystem, id: int) -> int {
    node_size(fs, id) / (DIRENT_SZ as int)
}

impl Inode {
    /// Linear scan of the directory's entries for `name`; returns a handle
    /// for the matching entry's inode.
    pub fn find(&self, fs: &EasyFileSystem, name: &str) -> (r: Option<Inode>)
        requires
            fs.wf(),
            fs.inode_in_range(self.inode_id as int),
            node_wf(fs, self.inode_id as int),
            node_size(fs, self.inode_id as int) % (DIRENT_SZ as int) == 0,
            name.spec_bytes().len() <= NAME_LENGTH_LIMIT,
        ensures
            match r {
                Option::Some(h) => exists|k: int|
                    0 <= k < entry_count(fs, self.inode_id as int) && entry_name_matches(
                        fs, self.inode_id as int, k, name.spec_bytes())
                        && h.inode_id == entry_inode_id(fs, self.inode_id as int, k)
                        && (forall|k2: int|
                        0 <= k2 < k ==> !entry_name_matches(
                            fs, self.inode_id as int, k2, name.spec_bytes())),
                Option::None => forall|k: int|
                    0 <= k < entry_count(fs, self.inode_id as int) ==> !entry_name_matches(
                        fs, self.inode_id as int, k, name.spec_bytes()),
            },
    {
        let ghost id = self.inode_id as int;
        let nb = name.as_bytes();
        let size = node_size_exec(fs, self.inode_id);
        let count = size / (DIRENT_SZ as u32);
        proof {
            lemma_fundamental_div_mod(size as int, DIRENT_SZ as int);
        }
        let mut k: u32 = 0;
        while k < count
            invariant
                fs.wf(),
                fs.inode_in_range(id),
                node_wf(fs, id),
                id == self.inode_id,
                nb@ == name.spec_bytes(),
                nb@.len() <= NAME_LENGTH_LIMIT,
                size == node_size(fs, id),
                size == count * DIRENT_SZ,
                count == entry_count(fs, id),
                k <= count,
                forall|k2: int|
                    0 <= k2 < k ==> !entry_name_matches(fs, id, k2, name.spec_bytes()),
            decreases count - k,
        {
            let mut buf: Vec<u8> = vec![0u8; DIRENT_SZ];
            let off = (k as usize) * DIRENT_SZ;
            proof {
                assert((k + 1) * DIRENT_SZ <= count * DIRENT_SZ) by (nonlinear_arith)
                    requires k < count, DIRENT_SZ >= 1;
                assert(k * DIRENT_SZ >= 0) by (nonlinear_arith)
                    requires k >= 0, DIRENT_SZ >= 1;
            }
            let got = self.read_at(fs, off, &mut buf, );
            let mut j: usize = 0;
            let mut matches_name: bool = true;
            while j < NAME_LENGTH_LIMIT + 1
                invariant
                    j <= NAME_LENGTH_LIMIT + 1,
                    buf@.len() == DIRENT_SZ,
                    nb@.len() <= NAME_LENGTH_LIMIT,
                    nb@ == name.spec_bytes(),
                    matches_name <==> forall|j2: int|
                        0 <= j2 < j ==> buf@[j2] == (if j2 < nb@.len() {
                            nb@[j2]
                        } else {
                            0u8
                        }),
                decreases NAME_LENGTH_LIMIT + 1 - j,
            {
                let want: u8 = if j < nb.len() {
                    nb[j]
                } else {
                    0
                };
                if buf[j] != want {
                    matches_name = false;
                    proof {
                        assert(buf@[j as int] != (if (j as int) < nb@.len() {
                            nb@[j as int]
                        } else {
                            0u8
                        }));
                    }
                    j = NAME_LENGTH_LIMIT + 1;
                } else {
                    j = j + 1;
                }
            }
            proof {
                assert(got == DIRENT_SZ);
                assert(off == k as int * DIRENT_SZ);
                assert forall|j2: int|
                    0 <= j2 < DIRENT_SZ implies #[trigger] entry_byte(fs, id, k as int, j2)
                    == buf@[j2] by {
                    assert(buf@[j2] == node_content(fs, id)[off + j2]);
                }
            }
            if matches_name {
                let eid = (buf[28] as u32) + (buf[29] as u32) * 0x100 + (buf[30] as u32)
                    * 0x10000 + (buf[31] as u32) * 0x1000000;
                proof {
                    assert(forall|j2: int|
                        0 <= j2 < NAME_LENGTH_LIMIT + 1 ==> buf@[j2] == (
                        if j2 < name.spec_bytes().len() {
                            name.spec_bytes()[j2]
                        } else {
                            0u8
                        }));
                    assert(entry_name_matches(fs, id, k as int, name.spec_bytes()));
                    assert(eid == entry_inode_id(fs, id, k as int));
                }
                return Some(Inode::new(eid));
            }
            proof {
                assert(!entry_name_matches(fs, id, k as int, name.spec_bytes())) by {
                    let j2 = choose|j2: int|
                        0 <= j2 < NAME_LENGTH_LIMIT + 1 && buf@[j2] != (if j2 < nb@.len() {
                            nb@[j2]
                        } else {
                            0u8
                        });
                    assert(entry_byte(fs, id, k as int, j2) == buf@[j2]);
                }
            }
            k = k + 1;
        }
        None
    }

    /// Entry names in on-disk order, each trimmed at its first zero byte.
    pub fn ls(&self, fs: &EasyFileSystem) -> (r: Vec<Vec<u8>>)
        requires
            fs.wf(),
            fs.inode_in_range(self.inode_id as int),
            node_wf(fs, self.inode_id as int),
            node_size(fs, self.inode_id as int) % (DIRENT_SZ as int) == 0,
        ensures
            r@.len() == entry_count(fs, self.inode_id as int),
            forall|k: int|
                0 <= k < r@.len() ==> {
                    let nm = (#[trigger] r@[k])@;
                    &&& nm.len() <= NAME_LENGTH_LIMIT + 1
                    &&& forall|j: int|
                        0 <= j < nm.len() ==> #[trigger] entry_byte(
                            fs, self.inode_id as int, k, j) == nm[j] && nm[j] != 0u8
                    &&& nm.len() < NAME_LENGTH_LIMIT + 1 ==> entry_byte(
                        fs, self.inode_id as int, k, nm.len() as int) == 0u8
                },
    {
        let ghost id = self.inode_id as int;
        let size = node_size_exec(fs, self.inode_id);
        let count = size / (DIRENT_SZ as u32);
        proof {
            lemma_fundamental_div_mod(size as int, DIRENT_SZ as int);
        }
        let mut r: Vec<Vec<u8>> = Vec::new();
        let mut k: u32 = 0;
        while k < count
            invariant
                fs.wf(),
                fs.inode_in_range(id),
                node_wf(fs, id),
                id == self.inode_id,
                size == node_size(fs, id),
                size == count * DIRENT_SZ,
                count == entry_count(fs, id),
                k <= count,
                r@.len() == k,
                forall|k2: int|
                    0 <= k2 < k ==> {
                        let nm = (#[trigger] r@[k2])@;
                        &&& nm.len() <= NAME_LENGTH_LIMIT + 1
                        &&& forall|j: int|
                            0 <= j < nm.len() ==> #[trigger] entry_byte(fs, id, k2, j) == nm[
                                j] && nm[j] != 0u8
                        &&& nm.len() < NAME_LENGTH_LIMIT + 1 ==> entry_byte(
                            fs, id, k2, nm.len() as int) == 0u8
                    },
            decreases count - k,
        {
            let mut buf: Vec<u8> = vec![0u8; DIRENT_SZ];
            let off = (k as usize) * DIRENT_SZ;
            proof {
                assert((k + 1) * DIRENT_SZ <= count * DIRENT_SZ) by (nonlinear_arith)
                    requires k < count, DIRENT_SZ >= 1;
                assert(k * DIRENT_SZ >= 0) by (nonlinear_arith)
                    requires k >= 0, DIRENT_SZ >= 1;
            }
            let got = self.read_at(fs, off, &mut buf, );
            let mut nm: Vec<u8> = Vec::new();
            let mut j: usize = 0;
            let mut stopped: bool = false;
            while j < NAME_LENGTH_LIMIT + 1 && !stopped
                invariant
                    j <= NAME_LENGTH_LIMIT + 1,
                    buf@.len() == DIRENT_SZ,
                    nm@.len() <= j,
                    !stopped ==> nm@.len() == j,
                    stopped ==> nm@.len() < NAME_LENGTH_LIMIT + 1 && buf@[nm@.len() as int]
                        == 0u8,
                    forall|j2: int|
                        0 <= j2 < nm@.len() ==> nm@[j2] == buf@[j2] && nm@[j2] != 0u8,
                decreases NAME_LENGTH_LIMIT + 1 - j + (if stopped { 0int } else { 1int }),
            {
                let b = buf[j];
                if b == 0 {
                    stopped = true;
                } else {
                    nm.push(b);
                    j = j + 1;
                }
            }
            proof {
                assert(got == DIRENT_SZ);
                assert(off == k as int * DIRENT_SZ);
                assert forall|j2: int|
                    0 <= j2 < nm@.len() implies #[trigger] entry_byte(fs, id, k as int, j2)
                    == nm@[j2] && nm@[j2] != 0u8 by {
                    assert(nm@[j2] == buf@[j2]);
                    assert(buf@[j2] == node_content(fs, id)[off + j2]);
                }
                if nm@.len() < NAME_LENGTH_LIMIT + 1 {
                    assert(buf@[nm@.len() as int] == node_content(fs, id)[off
                        + nm@.len()]);
                    assert(entry_byte(fs, id, k as int, nm@.len() as int) == 0u8);
                }
            }
            r.push(nm);
            k = k + 1;
        }
        r
    }

    /// Creates `name` in this directory: rejected before any mutation when
    /// the name already exists; otherwise allocates an inode, appends the
    /// directory entry `{name, id}`, and initializes the new inode as an
    /// empty file. Fails only on a duplicate name, a full inode bitmap, or
    /// too few free data blocks for the directory's growth; a failed
    /// allocation is rolled back.
    #[verifier::rlimit(100)]
    pub fn create(&self, fs: &mut EasyFileSystem, name: &str) -> (r: Option<Inode>)
        requires
            old(fs).wf(),
            old(fs).inode_in_range(self.inode_id as int),
            node_wf(old(fs), self.inode_id as int),
            node_marked(old(fs), self.inode_id as int),
            node_is_dir(old(fs), self.inode_id as int),
            old(fs).inode_bitmap.bit(old(fs).block_device@, self.inode_id as int),
            node_size(old(fs), self.inode_id as int) % (DIRENT_SZ as int) == 0,
            node_size(old(fs), self.inode_id as int) + DIRENT_SZ <= MAX_DATA_BLOCKS * BLOCK_SZ,
            name.spec_bytes().len() <= NAME_LENGTH_LIMIT,
        ensures
            final(fs).wf(),
            final(fs).inode_bitmap == old(fs).inode_bitmap,
            final(fs).data_bitmap == old(fs).data_bitmap,
            final(fs).inode_area_start_block == old(fs).inode_area_start_block,
            final(fs).data_area_start_block == old(fs).data_area_start_block,
            final(fs).block_device@.len() == old(fs).block_device@.len(),
            // a duplicate name is rejected before any mutation
            (exists|k: int|
                0 <= k < entry_count(old(fs), self.inode_id as int) && entry_name_matches(
                    old(fs), self.inode_id as int, k, name.spec_bytes())) ==> r is None
                && *final(fs) == *old(fs),
            // failure only for a duplicate, a full inode bitmap, or too few
            // free data blocks for the growth - and it leaves no trace
            r is None ==> {
                let dir = self.inode_id as int;
                &&& ((exists|k: int|
                    0 <= k < entry_count(old(fs), dir) && entry_name_matches(
                        old(fs), dir, k, name.spec_bytes())) || (forall|j: int|
                    0 <= j < old(fs).inode_bitmap.spec_maximum() ==> old(
                        fs).inode_bitmap.bit(old(fs).block_device@, j))
                    || fewer_free_data_blocks_than(
                    old(fs), spec_blocks_needed(
                        old(fs), dir, node_size(old(fs), dir) + DIRENT_SZ)))
                &&& forall|j: int|
                    0 <= j < old(fs).inode_bitmap.spec_maximum() ==> final(
                        fs).inode_bitmap.bit(final(fs).block_device@, j) == old(
                        fs).inode_bitmap.bit(old(fs).block_device@, j)
                &&& forall|j: int|
                    0 <= j < old(fs).data_bitmap.spec_maximum() ==> final(
                        fs).data_bitmap.bit(final(fs).block_device@, j) == old(
                        fs).data_bitmap.bit(old(fs).block_device@, j)
                &&& node_size(final(fs), dir) == node_size(old(fs), dir)
                &&& node_content(final(fs), dir) == node_content(old(fs), dir)
                &&& node_wf(final(fs), dir)
                &&& node_marked(final(fs), dir)
            },
            r is Some ==> {
                let dir = self.inode_id as int;
                let nid = r->Some_0.inode_id as int;
                let count0 = entry_count(old(fs), dir);
                // the name was fresh, the id real and previously free
                &&& (forall|k: int|
                    0 <= k < count0 ==> !entry_name_matches(
                        old(fs), dir, k, name.spec_bytes()))
                &&& old(fs).inode_in_range(nid)
                &&& nid != dir
                &&& !old(fs).inode_bitmap.bit(old(fs).block_device@, nid)
                // exactly one inode-bitmap bit was taken
                &&& final(fs).inode_bitmap.bit(final(fs).block_device@, nid)
                &&& forall|j: int|
                    0 <= j < old(fs).inode_bitmap.spec_maximum() && j != nid ==> final(
                        fs).inode_bitmap.bit(final(fs).block_device@, j) == old(
                        fs).inode_bitmap.bit(old(fs).block_device@, j)
                // one entry appended: count, name field, stored id
                &&& node_size(final(fs), dir) == node_size(old(fs), dir) + DIRENT_SZ
                &&& entry_count(final(fs), dir) == count0 + 1
                &&& entry_name_matches(final(fs), dir, count0, name.spec_bytes())
                &&& entry_inode_id(final(fs), dir, count0) == nid
                // earlier entries keep every byte
                &&& forall|k: int, j: int|
                    0 <= k < count0 && 0 <= j < DIRENT_SZ ==> entry_byte(
                        final(fs), dir, k, j) == entry_byte(old(fs), dir, k, j)
                &&& node_is_dir(final(fs), dir)
                &&& node_wf(final(fs), dir)
                &&& node_marked(final(fs), dir)
                // the new inode is an initialized empty file
                &&& node_size(final(fs), nid) == 0
                &&& !node_is_dir(final(fs), nid)
                &&& node_wf(final(fs), nid)
                // every other inode record keeps every byte
                &&& forall|oid: int, j: int|
                    old(fs).inode_in_range(oid) && oid != dir && oid != nid && 0 <= j
                        < crate::INODE_SZ ==> #[trigger] rec_byte(final(fs), oid, j)
                        == rec_byte(old(fs), oid, j)
            },
    {
        let ghost dir = self.inode_id as int;
        if self.find(fs, name).is_some() {
            return None;
        }
        let new_id_opt = fs.alloc_inode();
        let new_id: u32;
        match new_id_opt {
            Some(i) => {
                new_id = i;
            },
            None => {
                proof {
                    assert(node_content(fs, dir) =~= node_content(old(fs), dir));
                    assert(node_owned(fs, dir) =~= node_owned(old(fs), dir));
                }
                return None;
            },
        }
        let ghost fs_a = *fs;
        // append the directory entry {name, new_id}
        let nb = name.as_bytes();
        let mut entry: Vec<u8> = Vec::new();
        let mut j: usize = 0;
        while j < NAME_LENGTH_LIMIT + 1
            invariant
                j <= NAME_LENGTH_LIMIT + 1,
                entry@.len() == j,
                nb@ == name.spec_bytes(),
                forall|j2: int|
                    0 <= j2 < j ==> entry@[j2] == (if j2 < nb@.len() {
                        nb@[j2]
                    } else {
                        0u8
                    }),
            decreases NAME_LENGTH_LIMIT + 1 - j,
        {
            if j < nb.len() {
                entry.push(nb[j]);
            } else {
                entry.push(0);
            }
            j = j + 1;
        }
        entry.push((new_id % 0x100) as u8);
        entry.push(((new_id / 0x100) % 0x100) as u8);
        entry.push(((new_id / 0x10000) % 0x100) as u8);
        entry.push((new_id / 0x1000000) as u8);
        proof {
            assert(crate::block_cache::u32_le_val(
                entry@[28], entry@[29], entry@[30], entry@[31]) == new_id) by {
                assert(new_id % 0x100 + ((new_id / 0x100) % 0x100) * 0x100 + ((new_id
                    / 0x10000) % 0x100) * 0x10000 + (new_id / 0x1000000) * 0x1000000
                    == new_id) by (bit_vector);
            }
            old(fs).lemma_inode_loc(dir);
            lemma_node_frame(old(fs), fs, dir, 1, 1 + old(fs).inode_bitmap.blocks);
            assert(node_wf(fs, dir));
            assert(node_marked(fs, dir));
            // the data bitmap is untouched by the inode allocation
            assert forall|j2: int|
                0 <= j2 < old(fs).data_bitmap.spec_maximum() implies fs.data_bitmap.bit(
                fs.block_device@, j2) == old(fs).data_bitmap.bit(
                old(fs).block_device@, j2) by {
                crate::bitmap::lemma_bit_recompose(j2, old(fs).data_bitmap.blocks as int);
            }
        }
        let dir_size = node_size_exec(fs, self.inode_id);
        let ghost count0 = entry_count(old(fs), dir);
        proof {
            lemma_fundamental_div_mod(node_size(old(fs), dir), DIRENT_SZ as int);
        }
        let wrote = self.write_at(fs, dir_size as usize, &entry);
        if wrote == 0 {
            // roll the inode allocation back: no trace remains
            let ghost fs_w = *fs;
            proof {
                assert(fs.inode_bitmap.bit(fs.block_device@, new_id as int)) by {
                    crate::bitmap::lemma_bit_recompose(
                        new_id as int, fs.inode_bitmap.blocks as int);
                    let bj = 1 + new_id as int / (crate::BITS_PER_BLOCK as int);
                    assert(fs.block_device@[bj] == fs_a.block_device@[bj]);
                }
            }
            fs.inode_bitmap.dealloc(&mut fs.block_device, new_id as usize);
            proof {
                assert(fs.wf());
                lemma_node_frame(&fs_w, fs, dir, 1, 1 + old(fs).inode_bitmap.blocks);
                assert forall|j2: int|
                    0 <= j2 < old(fs).inode_bitmap.spec_maximum() implies fs.inode_bitmap.bit(
                    fs.block_device@, j2) == old(fs).inode_bitmap.bit(
                    old(fs).block_device@, j2) by {
                    if j2 != new_id {
                        crate::bitmap::lemma_bit_recompose(
                            j2, old(fs).inode_bitmap.blocks as int);
                        let bj = 1 + j2 / (crate::BITS_PER_BLOCK as int);
                        assert(fs_w.block_device@[bj] == fs_a.block_device@[bj]);
                    }
                }
                assert forall|j2: int|
                    0 <= j2 < old(fs).data_bitmap.spec_maximum() implies fs.data_bitmap.bit(
                    fs.block_device@, j2) == old(fs).data_bitmap.bit(
                    old(fs).block_device@, j2) by {
                    crate::bitmap::lemma_bit_recompose(j2, old(fs).data_bitmap.blocks as int);
                }
                // the growth evidence transfers to the entry state
                assert(fewer_free_data_blocks_than(
                    old(fs), spec_blocks_needed(
                        old(fs), dir, node_size(old(fs), dir) + DIRENT_SZ))) by {
                    let n = spec_blocks_needed(old(fs), dir, node_size(old(fs), dir)
                        + DIRENT_SZ);
                    let cover = choose|cover: Seq<int>|
                        cover.len() < n && (forall|j2: int|
                            0 <= j2 < fs_a.data_bitmap.spec_maximum()
                                && fs_a.data_area_start_block + j2
                                < fs_a.block_device@.len() && !fs_a.data_bitmap.bit(
                                fs_a.block_device@, j2) ==> cover.contains(j2));
                    assert forall|j2: int|
                        0 <= j2 < old(fs).data_bitmap.spec_maximum() && old(
                            fs).data_area_start_block + j2 < old(fs).block_device@.len()
                            && !old(fs).data_bitmap.bit(old(fs).block_device@, j2)
                        implies cover.contains(j2) by {
                        assert(!fs_a.data_bitmap.bit(fs_a.block_device@, j2));
                    }
                    assert(cover.len() < n && (forall|j2: int|
                        0 <= j2 < old(fs).data_bitmap.spec_maximum() && old(
                            fs).data_area_start_block + j2 < old(fs).block_device@.len()
                            && !old(fs).data_bitmap.bit(old(fs).block_device@, j2)
                            ==> cover.contains(j2)));
                }
            }
            return None;
        }
        // initialize the new inode as an empty file
        let ghost fs_w = *fs;
        let new_ino = DiskInode::initialize(DiskInodeType::File);
        fs.set_disk_inode(new_id, &new_ino);
        proof {
            let nid = new_id as int;
            fs.lemma_inode_loc(nid);
            fs.lemma_inode_loc(dir);
            lemma_node_other_rec(&fs_w, fs, dir, nid);
            // the freshly written record is an empty file
            assert(node_size(fs, nid) == 0);
            assert(!node_is_dir(fs, nid));
            assert(node_wf(fs, nid)) by {
                assert(node_owned(fs, nid).len() == 0);
            }
            // inode bits: the record write touches no bitmap block
            assert forall|j2: int|
                0 <= j2 < old(fs).inode_bitmap.spec_maximum() implies fs.inode_bitmap.bit(
                fs.block_device@, j2) == fs_a.inode_bitmap.bit(fs_a.block_device@, j2) by {
                crate::bitmap::lemma_bit_recompose(j2, old(fs).inode_bitmap.blocks as int);
                let bj = 1 + j2 / (crate::BITS_PER_BLOCK as int);
                assert(fs_w.block_device@[bj] == fs_a.block_device@[bj]);
                assert(fs.block_device@[bj] == fs_w.block_device@[bj]);
            }
            // the appended entry decodes as {name, new_id}
            assert(node_size(fs, dir) == node_size(old(fs), dir) + DIRENT_SZ);
            assert(entry_count(fs, dir) == count0 + 1) by {
                vstd::arithmetic::div_mod::lemma_div_multiples_vanish_fancy(
                    count0 + 1, 0, DIRENT_SZ as int);
                assert(node_size(fs, dir) == (DIRENT_SZ as int) * (count0 + 1) + 0);
            }
            assert forall|j2: int|
                0 <= j2 < DIRENT_SZ implies entry_byte(fs, dir, count0, j2) == entry@[j2] by {
                assert(count0 * DIRENT_SZ == node_size(old(fs), dir));
                assert(node_content(&fs_w, dir)[node_size(old(fs), dir) + j2] == entry@[j2]);
            }
            assert(entry_name_matches(fs, dir, count0, name.spec_bytes()));
            assert(entry_inode_id(fs, dir, count0) == new_id);
            // earlier entries keep every byte
            assert forall|k: int, j2: int|
                0 <= k < count0 && 0 <= j2 < DIRENT_SZ implies entry_byte(fs, dir, k, j2)
                == entry_byte(old(fs), dir, k, j2) by {
                assert(k * DIRENT_SZ + j2 < count0 * DIRENT_SZ) by (nonlinear_arith)
                    requires 0 <= k < count0, 0 <= j2 < DIRENT_SZ;
                assert(count0 * DIRENT_SZ == node_size(old(fs), dir));
                assert(node_content(&fs_w, dir)[k * DIRENT_SZ + j2] == node_content(
                    &fs_a, dir)[k * DIRENT_SZ + j2]);
                assert(node_content(&fs_a, dir)[k * DIRENT_SZ + j2] == node_content(
                    old(fs), dir)[k * DIRENT_SZ + j2]);
            }
            // every other inode record keeps every byte
            assert forall|oid: int, j2: int|
                old(fs).inode_in_range(oid) && oid != dir && oid != nid && 0 <= j2
                    < crate::INODE_SZ implies #[trigger] rec_byte(fs, oid, j2) == rec_byte(
                old(fs), oid, j2) by {
                old(fs).lemma_inode_loc(oid);
                let ob = old(fs).spec_inode_block(oid);
                let pos = old(fs).spec_inode_off(oid) + j2;
                assert(fs_a.block_device@[ob] == old(fs).block_device@[ob]);
                assert(fs_w.block_device@[ob][pos] == fs_a.block_device@[ob][pos]) by {
                    if ob == old(fs).spec_inode_block(dir) {
                        old(fs).lemma_rec_disjoint(oid, dir);
                    } else {
                        assert(!node_owned(&fs_a, dir).contains(ob)) by {
                            if node_owned(&fs_a, dir).contains(ob) {
                                assert(false);
                            }
                        }
                    }
                }
                assert(fs.block_device@[ob][pos] == fs_w.block_device@[ob][pos]) by {
                    if ob == fs.spec_inode_block(nid) {
                        old(fs).lemma_rec_disjoint(oid, nid);
                    }
                }
            }
        }
        Some(Inode::new(new_id))
    }
}

/// Reads the stored size of inode `id` from its record.
pub fn node_size_exec(fs: &EasyFileSystem, inode_id: u32) -> (r: u32)
    requires
        fs.wf(),
        fs.inode_in_range(inode_id as int),
    ensures
        r == node_size(fs, inode_id as int),
{
    let ino = fs.get_disk_inode(inode_id);
    ino.size
}

/// The round-trip law: after a successful write of `data` at offset zero,
/// a read of `data.len()` bytes at offset zero returns exactly `data`. The
/// premises are what `Inode::write_at` ensures of the filesystem it leaves
/// behind and what `Inode::read_at` ensures of the bytes it returns.
pub proof fn lemma_write_read_round_trip(fs: &EasyFileSystem, id: int, data: Seq<u8>, out:
    Seq<u8>)
    requires
        node_size(fs, id) >= data.len(),
        forall|t: int| 0 <= t < data.len() ==> node_content(fs, id)[t] == data[t],
        out.len() == data.len(),
        forall|t: int| 0 <= t < out.len() ==> out[t] == node_content(fs, id)[t],
    ensures
        out == data,
{
    assert(out =~= data);
}

/// Truncation empties the stream: a read at any offset of an inode whose
/// size is zero transfers nothing, by the read contract's clipping.
pub proof fn lemma_cleared_reads_nothing(fs: &EasyFileSystem, id: int, offset: int, len: int)
    requires
        node_size(fs, id) == 0,
        0 <= offset,
        0 <= len,
    ensures
        (if offset >= node_size(fs, id) {
            0int
        } else if offset + len <= node_size(fs, id) {
            len
        } else {
            node_size(fs, id) - offset
        }) == 0,
{
}

} // verus!
