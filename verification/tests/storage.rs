use rfs::block_io::FakeMemBlockIO;
use rfs::block_mgr::BlockMgr;
use rfs::file_mgr::FileMgr;
use rfs::RfsError;
use rfs::BLOCK_SIZE;

fn init_fs() -> Result<FileMgr<FakeMemBlockIO>, RfsError> {
    let block_io = Box::new(FakeMemBlockIO::new());
    let block_mgr = Box::new(BlockMgr::new(block_io));
    let mut file_mgr = FileMgr::new(block_mgr);
    let need_format = !file_mgr.is_formatted()?;
    file_mgr.init(need_format)?;
    Ok(file_mgr)
}

#[test]
fn test_new_del_blocks() -> Result<(), RfsError> {
    let mut block_mgr = BlockMgr::new(Box::new(FakeMemBlockIO::new()));
    let need_format = !block_mgr.is_formatted()?;
    block_mgr.init(need_format)?;
    for i in 1..33 {
        let id = block_mgr.new_block()?;
        assert_eq!(id, i);
    }
    block_mgr.del_block(20)?;
    block_mgr.del_block(10)?;
    let id = block_mgr.new_block()?;
    assert_eq!(id, 10);
    Ok(())
}

#[test]
fn test_exhausted_bitmap_gives_enospc() -> Result<(), RfsError> {
    let mut block_mgr = BlockMgr::new(Box::new(FakeMemBlockIO::new()));
    block_mgr.init(true)?;
    for i in 1..=32768u32 {
        let id = block_mgr.new_block()?;
        assert_eq!(id as u32, i);
    }
    assert_eq!(block_mgr.new_block(), Err(RfsError::Enospc));
    Ok(())
}

#[test]
fn test_is_allocated_tracks_bits() -> Result<(), RfsError> {
    let mut block_mgr = BlockMgr::new(Box::new(FakeMemBlockIO::new()));
    block_mgr.init(true)?;
    assert!(!block_mgr.is_allocated(1));
    let id = block_mgr.new_block()?;
    assert!(block_mgr.is_allocated(id));
    block_mgr.del_block(id)?;
    assert!(!block_mgr.is_allocated(id));
    assert!(!block_mgr.is_allocated(0));
    Ok(())
}

#[test]
fn test_write_inside_1_block() -> Result<(), RfsError> {
    let mut inode_mgr = init_fs()?;
    let mut inode = inode_mgr.read_root_inode()?;
    inode_mgr.write_file(&mut inode, 5, &[1, 2, 3, 4, 5])?;
    let file_read = inode_mgr.read_file(&inode, 0, BLOCK_SIZE)?;
    assert_eq!(file_read, [0, 0, 0, 0, 0, 1, 2, 3, 4, 5]);
    Ok(())
}

#[test]
fn test_read_inside_1_block() -> Result<(), RfsError> {
    let mut inode_mgr = init_fs()?;
    let mut inode = inode_mgr.read_root_inode()?;
    inode_mgr.write_file(&mut inode, 0, &[0, 0, 0, 0, 0, 1, 2, 3, 4, 5])?;
    let file_read = inode_mgr.read_file(&inode, 5, 5)?;
    assert_eq!(file_read, [1, 2, 3, 4, 5]);
    Ok(())
}

#[test]
fn file_mgr_test_write_parts() -> Result<(), RfsError> {
    let mut inode_mgr = init_fs()?;
    let mut file = vec![];
    for i in 0..10000 {
        file.push((i % 256) as u8)
    }

    let mut inode = inode_mgr.read_root_inode()?;
    inode_mgr.write_file(&mut inode, 0, &file[0..2000])?;
    inode_mgr.write_file(&mut inode, 2000, &file[2000..8000])?;
    inode_mgr.write_file(&mut inode, 8000, &file[8000..10000])?;
    let file_read = inode_mgr.read_file(&inode, 0, 10000)?;
    assert_eq!(file_read, file);
    Ok(())
}

#[test]
fn file_mgr_test_read_parts() -> Result<(), RfsError> {
    let mut inode_mgr = init_fs()?;
    let mut file = vec![];
    for i in 0..10000 {
        file.push((i % 256) as u8)
    }

    let mut inode = inode_mgr.read_root_inode()?;
    inode_mgr.write_file(&mut inode, 0, &file[..])?;
    let read0 = inode_mgr.read_file(&inode, 0, 2000)?;
    assert_eq!(read0[..], file[0..2000]);
    let read1 = inode_mgr.read_file(&inode, 2000, 6000)?;
    assert_eq!(read1[..], file[2000..8000]);
    let read2 = inode_mgr.read_file(&inode, 8000, 2000)?;
    assert_eq!(read2[..], file[8000..10000]);
    Ok(())
}

#[test]
fn file_mgr_test_hole() -> Result<(), RfsError> {
    let mut inode_mgr = init_fs()?;
    let mut file = vec![];
    for i in 0..3000 {
        file.push((i % 256) as u8)
    }

    let mut inode = inode_mgr.read_root_inode()?;
    inode_mgr.write_file(&mut inode, 6000, &file[..])?;
    let file_read = inode_mgr.read_file(&inode, 0, 9000)?;
    assert_eq!(file_read[..6000], [0; 6000][..]);
    assert_eq!(file_read[6000..], file[..]);
    Ok(())
}

#[test]
fn file_mgr_test_truncate_file() -> Result<(), RfsError> {
    let mut inode_mgr = init_fs()?;
    let mut file = vec![];
    for i in 0..9000 {
        file.push((i % 256) as u8)
    }

    let mut inode = inode_mgr.read_root_inode()?;
    inode_mgr.write_file(&mut inode, 0, &file[..])?;
    inode_mgr.truncate_file(&mut inode, 6000)?;
    inode_mgr.truncate_file(&mut inode, 10000)?;
    let file_read = inode_mgr.read_file(&inode, 0, 999999)?;
    assert_eq!(file_read[..6000], file[..6000]);
    assert_eq!(file_read[6000..], [0; 4000][..]);
    Ok(())
}

#[test]
fn test_uid_read_back_after_flush() -> Result<(), RfsError> {
    // Inodes are plain values in this library, so a change becomes
    // visible to a second handle once it is flushed and the handle is
    // reopened; the host bridge's mirror table is what makes two live
    // handles of one id share a single unflushed view.
    let mut inode_mgr = init_fs()?;
    let mut inode_a = inode_mgr.read_root_inode()?;
    inode_a.set_uid(1);
    inode_mgr.flush(&mut inode_a)?;
    let mut inode_b = inode_mgr.read_root_inode()?;
    inode_b.set_uid(2);
    inode_mgr.flush(&mut inode_b)?;
    let inode_a = inode_mgr.read_root_inode()?;
    assert_eq!(inode_a.uid(), inode_b.uid());
    inode_mgr.flush(&mut inode_b)?;
    Ok(())
}

#[test]
fn test_write_then_read_across_blocks() -> Result<(), RfsError> {
    let mut inode_mgr = init_fs()?;
    let mut inode = inode_mgr.read_root_inode()?;
    let data = [9u8, 8, 7, 6, 5, 4, 3, 2, 1, 0];
    inode_mgr.write_file(&mut inode, 4090, &data)?;
    let back = inode_mgr.read_file(&inode, 4090, 10)?;
    assert_eq!(back, data);
    assert_eq!(inode.length(), 4100);
    Ok(())
}

#[test]
fn test_zero_length_write_extends() -> Result<(), RfsError> {
    let mut inode_mgr = init_fs()?;
    let mut inode = inode_mgr.read_root_inode()?;
    let n = inode_mgr.write_file(&mut inode, 100, &[])?;
    assert_eq!(n, 0);
    assert_eq!(inode.length(), 100);
    let back = inode_mgr.read_file(&inode, 0, 100)?;
    assert_eq!(back, vec![0u8; 100]);
    Ok(())
}

#[test]
fn test_flush_clean_inode_is_a_no_op() -> Result<(), RfsError> {
    let mut inode_mgr = init_fs()?;
    let mut inode = inode_mgr.read_root_inode()?;
    inode_mgr.flush(&mut inode)?;
    inode_mgr.flush(&mut inode)?;
    Ok(())
}

#[test]
fn test_inode_field_round_trips() -> Result<(), RfsError> {
    let mut inode_mgr = init_fs()?;
    let mut inode = inode_mgr.read_root_inode()?;
    inode.set_length(0xDEADBEEF);
    assert_eq!(inode.length(), 0xDEADBEEF);
    inode.set_length(0);
    inode.set_mode(0o100644);
    assert_eq!(inode.perm(), 0o644);
    assert_eq!(inode.kind(), Ok(rfs::inode::FileType::RegularFile));
    inode.set_nlink(7);
    assert_eq!(inode.nlink(), 7);
    inode.set_uid(0x01020304);
    assert_eq!(inode.uid(), 0x01020304);
    inode.set_gid(0xFFFFFFFF);
    assert_eq!(inode.gid(), 0xFFFFFFFF);
    let t = rfs::inode::TimeSpec { sec: -5, nsec: 999999999 };
    inode.set_atime(t);
    assert_eq!(inode.atime(), t);
    inode.set_mtime(t);
    assert_eq!(inode.mtime(), t);
    inode.set_ctime(t);
    assert_eq!(inode.ctime(), t);
    inode.set_mode(0);
    assert_eq!(inode.kind(), Err(RfsError::Einval));
    inode.set_mode(0o040777);
    inode_mgr.flush(&mut inode)?;
    Ok(())
}

#[test]
fn test_generation_advances_on_reallocation() -> Result<(), RfsError> {
    let mut inode_mgr = init_fs()?;
    let inode = inode_mgr.new_inode()?;
    let id = inode.id();
    let g1 = inode.generation();
    inode_mgr.del_inode(&inode)?;
    let inode = inode_mgr.new_inode()?;
    assert_eq!(inode.id(), id);
    assert_eq!(inode.generation(), g1 + 1);
    Ok(())
}

#[test]
fn test_errno_values() {
    assert_eq!(RfsError::Enospc.errno(), 28);
    assert_eq!(RfsError::Ebadf.errno(), 9);
    assert_eq!(RfsError::Enoent.errno(), 2);
    assert_eq!(RfsError::Enotempty.errno(), 39);
    assert_eq!(RfsError::Enametoolong.errno(), 36);
    assert_eq!(RfsError::Eperm.errno(), 1);
    assert_eq!(RfsError::Einval.errno(), 22);
    assert_eq!(RfsError::Efbig.errno(), 27);
    assert_eq!(RfsError::Eio.errno(), 5);
}
