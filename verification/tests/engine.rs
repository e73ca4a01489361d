use easy_fs::bitmap::Bitmap;
use easy_fs::block_cache::CachedBlock;
use easy_fs::disk::MemDisk;
use easy_fs::efs::EasyFileSystem;
use easy_fs::layout::SuperBlock;
use easy_fs::vfs::Inode;

fn fresh_fs() -> EasyFileSystem {
    let disk = MemDisk::new(2048);
    EasyFileSystem::create(disk, 2048, 1)
}

#[test]
fn bitmap_first_fit() {
    let mut disk = MemDisk::new(2);
    let bm = Bitmap::new(1, 1);
    assert_eq!(bm.maximum(), 4096);
    assert_eq!(bm.allocate(&mut disk), Some(0));
    assert_eq!(bm.allocate(&mut disk), Some(1));
    assert_eq!(bm.allocate(&mut disk), Some(2));
    bm.dealloc(&mut disk, 1);
    // first-fit returns the lowest clear bit
    assert_eq!(bm.allocate(&mut disk), Some(1));
    assert_eq!(bm.allocate(&mut disk), Some(3));
}

#[test]
fn bitmap_exhaustion_reports_no_space() {
    let mut disk = MemDisk::new(2);
    let bm = Bitmap::new(1, 1);
    for i in 0..4096 {
        assert_eq!(bm.allocate(&mut disk), Some(i));
    }
    assert_eq!(bm.allocate(&mut disk), None);
    bm.dealloc(&mut disk, 77);
    assert_eq!(bm.allocate(&mut disk), Some(77));
}

#[test]
fn u32_codec_round_trip() {
    let disk = MemDisk::new(1);
    let mut cache = CachedBlock::acquire(&disk, 0);
    cache.set_u32(12, 0xdeadbeef);
    assert_eq!(cache.get_u32(12), 0xdeadbeef);
    // little-endian byte order
    assert_eq!(cache.get_byte(12), 0xef);
    assert_eq!(cache.get_byte(13), 0xbe);
    assert_eq!(cache.get_byte(14), 0xad);
    assert_eq!(cache.get_byte(15), 0xde);
}

#[test]
fn superblock_store_load() {
    let mut disk = MemDisk::new(4);
    let sb = SuperBlock::initialize(4096, 1, 512, 1, 3069);
    assert!(sb.is_valid());
    sb.store(&mut disk);
    let back = SuperBlock::load(&disk);
    assert!(back.is_valid());
    assert_eq!(back.total_blocks, 4096);
    assert_eq!(back.inode_bitmap_blocks, 1);
    assert_eq!(back.inode_area_blocks, 512);
    assert_eq!(back.data_bitmap_blocks, 1);
    assert_eq!(back.data_area_blocks, 3069);
}

#[test]
fn create_computes_region_layout() {
    let fs = fresh_fs();
    // regions: superblock | 1 inode-bitmap | 512 inode-area | 1 data-bitmap | data
    assert_eq!(fs.inode_area_start_block, 2);
    assert_eq!(fs.data_area_start_block, 515);
    let sb = SuperBlock::load(&fs.block_device);
    assert!(sb.is_valid());
    assert_eq!(sb.total_blocks, 2048);
    assert_eq!(sb.inode_bitmap_blocks, 1);
    assert_eq!(sb.inode_area_blocks, 512);
    assert_eq!(sb.data_bitmap_blocks, 1);
    assert_eq!(sb.data_area_blocks, 1533);
}

#[test]
fn open_after_create_reproduces_boundaries() {
    let fs = fresh_fs();
    let inode_start = fs.inode_area_start_block;
    let data_start = fs.data_area_start_block;
    let opened = EasyFileSystem::open(fs.block_device).expect("valid image");
    assert_eq!(opened.inode_area_start_block, inode_start);
    assert_eq!(opened.data_area_start_block, data_start);
    assert_eq!(opened.inode_bitmap.blocks, 1);
    assert_eq!(opened.data_bitmap.blocks, 1);
    // and the same (empty) root listing
    let root = opened.root_inode();
    assert_eq!(root.ls(&opened).len(), 0);
}

#[test]
fn open_rejects_unformatted_image() {
    let disk = MemDisk::new(64);
    assert!(EasyFileSystem::open(disk).is_none());
}

fn round_trip(len: usize) {
    let mut fs = fresh_fs();
    let root = fs.root_inode();
    let file = root.create(&mut fs, "f").expect("create");
    let data: Vec<u8> = (0..len).map(|i| (i % 251) as u8).collect();
    assert_eq!(file.write_at(&mut fs, 0, &data), len);
    let mut back: Vec<u8> = vec![0u8; len];
    assert_eq!(file.read_at(&fs, 0, &mut back), len);
    assert_eq!(back, data);
}

#[test]
fn round_trip_direct_tier() {
    // 4 blocks: served by the direct pointers alone
    round_trip(4 * 512);
}

#[test]
fn round_trip_single_indirect_tier() {
    // 8.5 blocks: still direct; 20 blocks: through the single-indirect block
    round_trip(8 * 512 + 256);
    round_trip(20 * 512);
}

#[test]
fn round_trip_double_indirect_tier() {
    // 142 blocks: past the single-indirect bound of 140
    round_trip(142 * 512);
}

#[test]
fn read_clips_to_size() {
    let mut fs = fresh_fs();
    let root = fs.root_inode();
    let file = root.create(&mut fs, "clip").expect("create");
    let data = vec![7u8; 100];
    assert_eq!(file.write_at(&mut fs, 0, &data), 100);
    let mut back = vec![0u8; 512];
    assert_eq!(file.read_at(&fs, 0, &mut back), 100);
    assert_eq!(&back[..100], &data[..]);
    assert_eq!(file.read_at(&fs, 40, &mut back), 60);
    assert_eq!(file.read_at(&fs, 100, &mut back), 0);
    assert_eq!(file.read_at(&fs, 1000, &mut back), 0);
}

#[test]
fn clear_then_read_transfers_nothing() {
    let mut fs = fresh_fs();
    let root = fs.root_inode();
    let file = root.create(&mut fs, "gone").expect("create");
    let data = vec![3u8; 5 * 512];
    assert_eq!(file.write_at(&mut fs, 0, &data), data.len());
    file.clear(&mut fs);
    let mut back = vec![9u8; 64];
    assert_eq!(file.read_at(&fs, 0, &mut back), 0);
    assert_eq!(back, vec![9u8; 64]);
    // the freed blocks are available again: the same growth succeeds anew
    assert_eq!(file.write_at(&mut fs, 0, &data), data.len());
}

#[test]
fn cleared_blocks_are_reallocated_first() {
    let mut fs = fresh_fs();
    let root = fs.root_inode();
    let file = root.create(&mut fs, "f").expect("create");
    let data = vec![1u8; 512];
    assert_eq!(file.write_at(&mut fs, 0, &data), 512);
    // the lowest freed block comes back from the next allocation
    let before = fs.alloc_data().expect("space");
    fs.dealloc_data(before);
    file.clear(&mut fs);
    let after = fs.alloc_data().expect("space");
    assert!(after < before);
}

#[test]
fn duplicate_create_rejected_without_change() {
    let mut fs = fresh_fs();
    let root = fs.root_inode();
    assert!(root.create(&mut fs, "x").is_some());
    let names_before = root.ls(&fs);
    assert!(root.create(&mut fs, "x").is_none());
    let names_after = root.ls(&fs);
    assert_eq!(names_before, names_after);
    assert_eq!(names_after.len(), 1);
}

#[test]
fn failed_create_leaves_no_trace() {
    let mut fs = fresh_fs();
    let root = fs.root_inode();
    let a = root.create(&mut fs, "x").expect("create");
    assert!(root.create(&mut fs, "x").is_none());
    // the failed duplicate took no inode id: the next create gets the next id
    let b = root.create(&mut fs, "y").expect("create");
    assert_eq!(b.inode_id, a.inode_id + 1);
}

#[test]
fn ls_keeps_insertion_order() {
    let mut fs = fresh_fs();
    let root = fs.root_inode();
    assert!(root.create(&mut fs, "filea").is_some());
    assert!(root.create(&mut fs, "fileb").is_some());
    let names = root.ls(&fs);
    assert_eq!(names.len(), 2);
    assert_eq!(names[0], b"filea".to_vec());
    assert_eq!(names[1], b"fileb".to_vec());
}

#[test]
fn find_locates_created_file() {
    let mut fs = fresh_fs();
    let root = fs.root_inode();
    let made = root.create(&mut fs, "hello").expect("create");
    let found = root.find(&fs, "hello").expect("found");
    assert_eq!(found.inode_id, made.inode_id);
    assert!(root.find(&fs, "absent").is_none());
    // content written through one handle is seen through the other
    let msg = b"Hello, world!".to_vec();
    assert_eq!(made.write_at(&mut fs, 0, &msg), msg.len());
    let mut back = vec![0u8; msg.len()];
    assert_eq!(found.read_at(&fs, 0, &mut back), msg.len());
    assert_eq!(back, msg);
}

#[test]
fn partial_overwrite_keeps_prefix() {
    let mut fs = fresh_fs();
    let root = fs.root_inode();
    let file = root.create(&mut fs, "p").expect("create");
    let first = vec![5u8; 700];
    assert_eq!(file.write_at(&mut fs, 0, &first), 700);
    let patch = vec![9u8; 100];
    assert_eq!(file.write_at(&mut fs, 600, &patch), 100);
    let mut back = vec![0u8; 700];
    assert_eq!(file.read_at(&fs, 0, &mut back), 700);
    assert_eq!(&back[..600], &vec![5u8; 600][..]);
    assert_eq!(&back[600..], &vec![9u8; 100][..]);
}
