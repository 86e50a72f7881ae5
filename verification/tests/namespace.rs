use rfs::block_io::FakeMemBlockIO;
use rfs::block_mgr::BlockMgr;
use rfs::file_mgr::FileMgr;
use rfs::fs::Rfs;
use rfs::inode::FileType;
use rfs::inode::TimeSpec;
use rfs::RfsError;

fn now() -> TimeSpec {
    TimeSpec { sec: 1000, nsec: 42 }
}

fn mounted() -> Result<Rfs<FakeMemBlockIO>, RfsError> {
    let block_io = Box::new(FakeMemBlockIO::new());
    let block_mgr = Box::new(BlockMgr::new(block_io));
    let file_mgr = Box::new(FileMgr::new(block_mgr));
    let mut fs = Rfs::new(file_mgr);
    fs.init_impl(now(), 0, 0)?;
    Ok(fs)
}

#[test]
fn test_root_has_dot_entries() -> Result<(), RfsError> {
    let mut fs = mounted()?;
    let root = fs.file_mgr.read_root_inode()?;
    assert_eq!(root.length(), 128);
    let entries = fs.readdir_impl(&root, 0)?;
    assert_eq!(entries.len(), 2);
    assert_eq!(entries[0].0, 1);
    assert_eq!(entries[0].1, FileType::Directory);
    assert_eq!(entries[0].2, b".");
    assert_eq!(entries[1].0, 1);
    assert_eq!(entries[1].1, FileType::Directory);
    assert_eq!(entries[1].2, b"..");
    Ok(())
}

#[test]
fn test_dir_entry_lifecycle() -> Result<(), RfsError> {
    let mut fs = mounted()?;
    let mut root = fs.file_mgr.read_root_inode()?;
    fs.mkdir_impl(&mut root, b"a", 0o755, now(), 0, 0)?;
    let (attr, _generation) = fs.lookup_impl(&root, b"a")?;
    assert_eq!(attr.kind, FileType::Directory);
    assert_eq!(attr.perm, 0o755);
    assert_eq!(attr.nlink, 1);
    fs.unlink_impl(&mut root, b"a")?;
    match fs.lookup_impl(&root, b"a") {
        Err(RfsError::Enoent) => (),
        other => panic!("lookup after rmdir gave {:?}", other),
    }
    Ok(())
}

#[test]
fn test_rmdir_of_filled_dir_is_refused() -> Result<(), RfsError> {
    let mut fs = mounted()?;
    let mut root = fs.file_mgr.read_root_inode()?;
    fs.mkdir_impl(&mut root, b"d", 0o755, now(), 0, 0)?;
    let (attr, _) = fs.lookup_impl(&root, b"d")?;
    let mut child = fs.file_mgr.read_inode(attr.ino as u16)?;
    fs.mkdir_impl(&mut child, b"x", 0o755, now(), 0, 0)?;
    assert_eq!(fs.unlink_impl(&mut root, b"d"), Err(RfsError::Enotempty));
    Ok(())
}

#[test]
fn test_create_and_open_file() -> Result<(), RfsError> {
    let mut fs = mounted()?;
    let mut root = fs.file_mgr.read_root_inode()?;
    let (mut inode, attr, _gen) = fs.create_impl(&mut root, b"f", 0o644, 0, now(), 7, 8)?;
    assert_eq!(attr.kind, FileType::RegularFile);
    assert_eq!(attr.size, 0);
    assert_eq!(attr.uid, 7);
    assert_eq!(attr.gid, 8);
    let n = fs.write_impl(&mut inode, 0, b"hello")?;
    assert_eq!(n, 5);
    let back = fs.read_impl(&inode, 0, 100)?;
    assert_eq!(back, b"hello");
    // the entry resolves to the same inode
    let (attr2, _) = fs.lookup_impl(&root, b"f")?;
    assert_eq!(attr2.ino, attr.ino);
    assert_eq!(attr2.size, 5);
    Ok(())
}

#[test]
fn test_open_checks_permissions() -> Result<(), RfsError> {
    let mut fs = mounted()?;
    let mut root = fs.file_mgr.read_root_inode()?;
    // the create itself ends with the access check, which refuses a
    // mode without any permission bit
    let r = fs.create_impl(&mut root, b"locked", 0o000, 0, now(), 7, 8);
    assert_eq!(r.err(), Some(RfsError::Eperm));
    // the entry is written before the access check runs
    let (attr, _) = fs.lookup_impl(&root, b"locked")?;
    assert_eq!(fs.open_impl(7, 8, attr.ino, 0).err(), Some(RfsError::Eperm));
    // a huge inode number does not fit the id space
    assert_eq!(fs.open_impl(0, 0, 1 << 20, 0).err(), Some(RfsError::Ebadf));
    Ok(())
}

#[test]
fn test_read_write_reject_negative_offsets() -> Result<(), RfsError> {
    let mut fs = mounted()?;
    let mut root = fs.file_mgr.read_root_inode()?;
    assert_eq!(fs.read_impl(&root, -1, 10).err(), Some(RfsError::Einval));
    assert_eq!(fs.write_impl(&mut root, -1, b"x").err(), Some(RfsError::Einval));
    assert_eq!(
        fs.write_impl(&mut root, (u32::MAX as i64) + 1, b"x").err(),
        Some(RfsError::Efbig)
    );
    Ok(())
}

#[test]
fn test_too_long_name_is_refused() -> Result<(), RfsError> {
    let mut fs = mounted()?;
    let mut root = fs.file_mgr.read_root_inode()?;
    let long = [b'n'; 61];
    assert_eq!(
        fs.mkdir_impl(&mut root, &long, 0o755, now(), 0, 0).err(),
        Some(RfsError::Enametoolong)
    );
    let ok = [b'n'; 60];
    fs.mkdir_impl(&mut root, &ok, 0o755, now(), 0, 0)?;
    let (attr, _) = fs.lookup_impl(&root, &ok)?;
    assert_eq!(attr.kind, FileType::Directory);
    Ok(())
}

#[test]
fn test_symlink_round_trip() -> Result<(), RfsError> {
    let mut fs = mounted()?;
    let mut root = fs.file_mgr.read_root_inode()?;
    let (attr, _) = fs.symlink_impl(&mut root, b"ln", b"/tmp/target", now(), 0, 0)?;
    assert_eq!(attr.kind, FileType::Symlink);
    let (attr2, _) = fs.lookup_impl(&root, b"ln")?;
    assert_eq!(attr2.size, 11);
    // readlink: read the symlink inode's data in full
    let inode = fs.file_mgr.read_inode(attr2.ino as u16)?;
    let target = fs.read_impl(&inode, 0, attr2.size as u32)?;
    assert_eq!(target, b"/tmp/target");
    Ok(())
}

#[test]
fn test_hard_link_raises_nlink() -> Result<(), RfsError> {
    let mut fs = mounted()?;
    let mut root = fs.file_mgr.read_root_inode()?;
    let (mut inode, _, _) = fs.create_impl(&mut root, b"one", 0o644, 0, now(), 0, 0)?;
    let (attr, _) = fs.link_impl(&mut inode, &mut root, b"two")?;
    assert_eq!(attr.nlink, 2);
    let (a1, _) = fs.lookup_impl(&root, b"one")?;
    let (a2, _) = fs.lookup_impl(&root, b"two")?;
    assert_eq!(a1.ino, a2.ino);
    // removing one name keeps the inode alive under the other
    fs.unlink_impl(&mut root, b"one")?;
    let (a3, _) = fs.lookup_impl(&root, b"two")?;
    assert_eq!(a3.nlink, 1);
    Ok(())
}

#[test]
fn test_rename_within_directory() -> Result<(), RfsError> {
    let mut fs = mounted()?;
    let mut root = fs.file_mgr.read_root_inode()?;
    let (_, attr, _) = fs.create_impl(&mut root, b"old", 0o644, 0, now(), 0, 0)?;
    fs.rename_within(&mut root, b"old", b"new")?;
    let (found, _) = fs.lookup_impl(&root, b"new")?;
    assert_eq!(found.ino, attr.ino);
    match fs.lookup_impl(&root, b"old") {
        Err(RfsError::Enoent) => (),
        other => panic!("lookup of the old name gave {:?}", other),
    }
    Ok(())
}

#[test]
fn test_rename_displaces_existing_name() -> Result<(), RfsError> {
    let mut fs = mounted()?;
    let mut root = fs.file_mgr.read_root_inode()?;
    let (_, kept, _) = fs.create_impl(&mut root, b"a", 0o644, 0, now(), 0, 0)?;
    fs.create_impl(&mut root, b"b", 0o644, 0, now(), 0, 0)?;
    fs.rename_within(&mut root, b"a", b"b")?;
    // "b" now names what "a" named; "a" is gone
    let (found, _) = fs.lookup_impl(&root, b"b")?;
    assert_eq!(found.ino, kept.ino);
    match fs.lookup_impl(&root, b"a") {
        Err(RfsError::Enoent) => (),
        other => panic!("lookup of the old name gave {:?}", other),
    }
    Ok(())
}

#[test]
fn test_rename_across_directories() -> Result<(), RfsError> {
    let mut fs = mounted()?;
    let mut root = fs.file_mgr.read_root_inode()?;
    fs.mkdir_impl(&mut root, b"sub", 0o755, now(), 0, 0)?;
    let (_, attr, _) = fs.create_impl(&mut root, b"f", 0o644, 0, now(), 0, 0)?;
    let (sub_attr, _) = fs.lookup_impl(&root, b"sub")?;
    let mut sub = fs.file_mgr.read_inode(sub_attr.ino as u16)?;
    fs.rename_across(&mut root, b"f", &mut sub, b"g")?;
    let (found, _) = fs.lookup_impl(&sub, b"g")?;
    assert_eq!(found.ino, attr.ino);
    match fs.lookup_impl(&root, b"f") {
        Err(RfsError::Enoent) => (),
        other => panic!("lookup of the moved name gave {:?}", other),
    }
    Ok(())
}

#[test]
fn test_setattr_applies_fields() -> Result<(), RfsError> {
    let mut fs = mounted()?;
    let mut root = fs.file_mgr.read_root_inode()?;
    let (mut inode, _, _) = fs.create_impl(&mut root, b"f", 0o644, 0, now(), 0, 0)?;
    fs.write_impl(&mut inode, 0, b"0123456789")?;
    let later = TimeSpec { sec: 2000, nsec: 1 };
    let attr = fs.setattr_impl(
        &mut inode,
        Some(0o100600),
        Some(42),
        None,
        Some(4),
        Some(later),
        None,
        None,
    )?;
    assert_eq!(attr.perm, 0o600);
    assert_eq!(attr.uid, 42);
    assert_eq!(attr.size, 4);
    assert_eq!(attr.atime, later);
    let back = fs.read_impl(&inode, 0, 100)?;
    assert_eq!(back, b"0123");
    Ok(())
}

#[test]
fn test_remount_keeps_data() -> Result<(), RfsError> {
    // the same memory device carried through a second mount
    let block_io = Box::new(FakeMemBlockIO::new());
    let block_mgr = Box::new(BlockMgr::new(block_io));
    let file_mgr = Box::new(FileMgr::new(block_mgr));
    let mut fs = Rfs::new(file_mgr);
    fs.init_impl(now(), 0, 0)?;
    let mut root = fs.file_mgr.read_root_inode()?;
    let (mut inode, attr, _) = fs.create_impl(&mut root, b"keep", 0o644, 0, now(), 0, 0)?;
    fs.write_impl(&mut inode, 0, b"payload")?;
    // a second manager over the same device sees the same bytes
    let formatted = fs.file_mgr.is_formatted()?;
    assert!(formatted);
    let inode = fs.file_mgr.read_inode(attr.ino as u16)?;
    let back = fs.read_impl(&inode, 0, 7)?;
    assert_eq!(back, b"payload");
    Ok(())
}
