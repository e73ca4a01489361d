use easy_fs::manager::{FileSystem, FileSystemManager, FileSystemType};

struct Fat;

impl FileSystem for Fat {
    fn fs_type(&self) -> FileSystemType {
        FileSystemType::VFAT
    }
}

#[test]
fn type_names_round_trip() {
    assert_eq!(FileSystemType::from_str("vfat"), Some(FileSystemType::VFAT));
    assert_eq!(FileSystemType::from_str("ext4"), Some(FileSystemType::EXT4));
    assert_eq!(FileSystemType::VFAT.to_str(), "vfat");
    assert_eq!(FileSystemType::EXT4.to_str(), "ext4");
}

#[test]
fn mount_unmount_rootfs() {
    let mut mgr: FileSystemManager<Fat> = FileSystemManager::new();
    mgr.mount(Fat, "/");
    mgr.mount(Fat, "/mnt");
    assert_eq!(mgr.rootfs().fs_type(), FileSystemType::VFAT);
    mgr.unmount("/mnt");
    assert_eq!(mgr.mounted_fs.len(), 1);
    // remounting the same path replaces, not duplicates
    mgr.mount(Fat, "/");
    assert_eq!(mgr.mounted_fs.len(), 1);
}
