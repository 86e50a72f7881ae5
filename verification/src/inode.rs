//! In-memory view of one inode block.  The 4096 bytes of the block
//! are mirrored verbatim; getters decode fields from the mirror,
//! setters patch it and raise the dirty flag, and `flush` writes the
//! mirror back through the block manager.
//!
//! Layout of the block, little-endian throughout:
//! `[ generation (8B) | length (4B) | atime (12B) | mtime (12B) |
//!    ctime (12B) | mode (2B) | nlink (2B) | uid (4B) | gid (4B) |
//!    direct block ids (2B each) ... ]`

use vstd::prelude::*;

use crate::block_io::dev_block;
use crate::block_io::dev_equiv;
use crate::block_io::dev_updated;
use crate::block_io::BlockIO;
use crate::block_mgr::allocated;
use crate::block_mgr::BlockMgr;
use crate::block_mgr::BITMAP_BITS;
use crate::codec::le16_at;
use crate::codec::le32_at;
use crate::codec::le64_at;
use crate::codec::get_le16;
use crate::codec::get_le32;
use crate::codec::get_le64;
use crate::codec::put_le16;
use crate::codec::put_le32;
use crate::codec::put_le64;
use crate::BLOCK_SIZE;
use crate::Id;
use crate::RfsError;

verus! {

pub const GENERATION_OFF: usize = 0;

pub const LENGTH_OFF: usize = 8;

pub const ATIME_OFF: usize = 12;

pub const MTIME_OFF: usize = 24;

pub const CTIME_OFF: usize = 36;

pub const MODE_OFF: usize = 48;

pub const NLINK_OFF: usize = 50;

pub const UID_OFF: usize = 52;

pub const GID_OFF: usize = 56;

pub const INDEX_OFF: usize = 60;

pub const INDEX_SIZE: usize = 2;

/// Number of direct block slots an inode block holds.
pub const DIRECT_BLK_CNT: usize = (BLOCK_SIZE - INDEX_OFF) / INDEX_SIZE;

/// Mode bits: the file-type nibble and the three type values used here.
pub const S_IFMT: u16 = 0o170000;

pub const S_IFREG: u16 = 0o100000;

pub const S_IFDIR: u16 = 0o040000;

pub const S_IFLNK: u16 = 0o120000;

/// A point in time: seconds and nanoseconds.
#[derive(Clone, Copy, Debug, PartialEq, Eq, Structural)]
pub struct TimeSpec {
    pub sec: i64,
    pub nsec: i32,
}

/// The type of a file, decoded from the mode word.
#[derive(Clone, Copy, Debug, PartialEq, Eq, Structural)]
pub enum FileType {
    RegularFile,
    Directory,
    Symlink,
}

/// The decoded picture of an inode block.
#[verifier::ext_equal]
pub struct InodeView {
    pub generation: u64,
    pub length: u32,
    pub atime: TimeSpec,
    pub mtime: TimeSpec,
    pub ctime: TimeSpec,
    pub mode: u16,
    pub nlink: u16,
    pub uid: u32,
    pub gid: u32,
    pub slots: Seq<u16>,
}

/// The file-type nibble of a mode word.
pub open spec fn mode_fmt(mode: u16) -> u16 {
    ((mode / 0x1000) * 0x1000) as u16
}

/// The permission bits of a mode word.
pub open spec fn mode_perm(mode: u16) -> u16 {
    mode % 0x1000
}

/// The file type a mode word denotes, or `Einval` for any other bit
/// pattern.
pub open spec fn spec_kind(mode: u16) -> Result<FileType, RfsError> {
    if mode_fmt(mode) == S_IFREG {
        Ok(FileType::RegularFile)
    } else if mode_fmt(mode) == S_IFDIR {
        Ok(FileType::Directory)
    } else if mode_fmt(mode) == S_IFLNK {
        Ok(FileType::Symlink)
    } else {
        Err(RfsError::Einval)
    }
}

/// The time stored at byte offset `off`: 8 bytes of seconds, 4 of
/// nanoseconds.
pub open spec fn time_at(b: Seq<u8>, off: int) -> TimeSpec {
    TimeSpec { sec: le64_at(b, off) as i64, nsec: le32_at(b, off + 8) as i32 }
}

/// Decode a whole inode block.
pub open spec fn decode_inode(b: Seq<u8>) -> InodeView {
    InodeView {
        generation: le64_at(b, GENERATION_OFF as int),
        length: le32_at(b, LENGTH_OFF as int),
        atime: time_at(b, ATIME_OFF as int),
        mtime: time_at(b, MTIME_OFF as int),
        ctime: time_at(b, CTIME_OFF as int),
        mode: le16_at(b, MODE_OFF as int),
        nlink: le16_at(b, NLINK_OFF as int),
        uid: le32_at(b, UID_OFF as int),
        gid: le32_at(b, GID_OFF as int),
        slots: Seq::new(DIRECT_BLK_CNT as nat, |i: int| le16_at(b, INDEX_OFF + 2 * i)),
    }
}

/// Slot `i` of an inode view; indexes past the direct table read as
/// the hole sentinel 0.
pub open spec fn slot_at(v: InodeView, i: int) -> u16 {
    if 0 <= i < DIRECT_BLK_CNT {
        v.slots[i]
    } else {
        0
    }
}

/// In-memory inode: the id of its block, a dirty flag, and a verbatim
/// mirror of the block's bytes.
///
/// A dirty inode must be flushed before it is dropped; dropping one
/// silently discards the pending change, so every operation here
/// flushes on its way out and callers should do the same.
pub struct Inode {
    id: Id,
    dirty: bool,
    data: Vec<u8>,
}

impl View for Inode {
    type V = InodeView;

    closed spec fn view(&self) -> InodeView {
        decode_inode(self.data@)
    }
}

impl Inode {
    /// The raw bytes of the mirror.
    pub closed spec fn bytes(&self) -> Seq<u8> {
        self.data@
    }

    /// The id of the inode's block.
    pub closed spec fn spec_id(&self) -> Id {
        self.id
    }

    /// Whether the mirror holds changes not yet written out.
    pub closed spec fn spec_dirty(&self) -> bool {
        self.dirty
    }

    /// Well-formedness: a full block mirror and an id inside the
    /// bitmap's id space.
    pub open spec fn wf(&self) -> bool {
        self.bytes().len() == BLOCK_SIZE && 1 <= self.spec_id() <= BITMAP_BITS
    }

    /// The view is the decoding of the bytes.
    pub proof fn view_is_decode(&self)
        ensures
            self@ == decode_inode(self.bytes()),
    {
    }

    /// The slot table always holds the full direct table.
    pub proof fn slots_len(&self)
        ensures
            self@.slots.len() == DIRECT_BLK_CNT,
    {
    }

    /// Open the inode stored in block `id`: read the block and mirror
    /// it, clean.
    pub fn new<T: BlockIO>(block_mgr: &mut BlockMgr<T>, id: Id) -> (r: Result<Inode, RfsError>)
        requires
            old(block_mgr).inv(),
            allocated(old(block_mgr).bm(), id as int),
        ensures
            final(block_mgr).inv(),
            final(block_mgr).infallible() == old(block_mgr).infallible(),
            old(block_mgr).infallible() ==> r matches Ok(_),
            final(block_mgr).bm() == old(block_mgr).bm(),
            dev_equiv(old(block_mgr).dev(), final(block_mgr).dev()),
            r matches Ok(ino) ==> {
                &&& ino.wf()
                &&& ino.spec_id() == id
                &&& !ino.spec_dirty()
                &&& ino.bytes() == dev_block(old(block_mgr).dev(), id as int + 1)
            },
            r matches Err(e) ==> e == RfsError::Eio,
    {
        let data = block_mgr.read_block(id)?;
        Ok(Inode { id, dirty: false, data })
    }

    /// The id of the inode's block.
    pub fn id(&self) -> (r: Id)
        ensures
            r == self.spec_id(),
    {
        self.id
    }

    /// Write the mirror back if it is dirty, then mark it clean.  A
    /// clean inode writes nothing.
    pub fn flush<T: BlockIO>(&mut self, block_mgr: &mut BlockMgr<T>) -> (r: Result<
        (),
        RfsError,
    >)
        requires
            old(self).wf(),
            old(block_mgr).inv(),
            allocated(old(block_mgr).bm(), old(self).spec_id() as int),
        ensures
            final(block_mgr).inv(),
            final(block_mgr).infallible() == old(block_mgr).infallible(),
            old(block_mgr).infallible() ==> r matches Ok(_),
            final(block_mgr).bm() == old(block_mgr).bm(),
            final(self).wf(),
            final(self).bytes() == old(self).bytes(),
            final(self)@ == old(self)@,
            final(self).spec_id() == old(self).spec_id(),
            !old(self).spec_dirty() ==> (r matches Ok(_)) && *final(self) == *old(self)
                && dev_equiv(old(block_mgr).dev(), final(block_mgr).dev()),
            r matches Ok(_) ==> !final(self).spec_dirty() && (if old(self).spec_dirty() {
                dev_updated(
                    old(block_mgr).dev(),
                    final(block_mgr).dev(),
                    old(self).spec_id() as int + 1,
                    old(self).bytes(),
                )
            } else {
                dev_equiv(old(block_mgr).dev(), final(block_mgr).dev())
            }),
            r matches Err(e) ==> e == RfsError::Eio && final(self).spec_dirty() == old(
                self,
            ).spec_dirty() && dev_equiv(old(block_mgr).dev(), final(block_mgr).dev()),
    {
        if self.dirty {
            block_mgr.write_block(self.id, self.data.as_slice())?;
            self.dirty = false;
        }
        Ok(())
    }

    /// The generation counter, advanced on each allocation of the block.
    pub fn generation(&self) -> (r: u64)
        requires
            self.wf(),
        ensures
            r == self@.generation,
    {
        get_le64(&self.data, GENERATION_OFF)
    }

    /// The file size in bytes.
    pub fn length(&self) -> (r: u32)
        requires
            self.wf(),
        ensures
            r == self@.length,
    {
        get_le32(&self.data, LENGTH_OFF)
    }

    /// Set the file size in bytes.
    pub fn set_length(&mut self, length: u32)
        requires
            old(self).wf(),
        ensures
            final(self).wf(),
            final(self).spec_id() == old(self).spec_id(),
            final(self).spec_dirty(),
            final(self)@ == (InodeView { length, ..old(self)@ }),
    {
        put_le32(&mut self.data, LENGTH_OFF, length);
        self.dirty = true;
        proof {
            lemma_eq_outside(old(self).bytes(), self.bytes(), LENGTH_OFF as int, 4);
            assert(self@ =~= (InodeView { length, ..old(self)@ }));
        }
    }

    /// The last access time.
    pub fn atime(&self) -> (r: TimeSpec)
        requires
            self.wf(),
        ensures
            r == self@.atime,
    {
        let sec = get_le64(&self.data, ATIME_OFF) as i64;
        let nsec = get_le32(&self.data, ATIME_OFF + 8) as i32;
        TimeSpec { sec, nsec }
    }

    /// Set the last access time.
    pub fn set_atime(&mut self, atime: TimeSpec)
        requires
            old(self).wf(),
        ensures
            final(self).wf(),
            final(self).spec_id() == old(self).spec_id(),
            final(self).spec_dirty(),
            final(self)@ == (InodeView { atime, ..old(self)@ }),
    {
        put_le64(&mut self.data, ATIME_OFF, atime.sec as u64);
        put_le32(&mut self.data, ATIME_OFF + 8, atime.nsec as u32);
        self.dirty = true;
        proof {
            lemma_eq_outside(old(self).bytes(), self.bytes(), ATIME_OFF as int, 12);
            lemma_i64_bits(atime.sec);
            lemma_i32_bits(atime.nsec);
            assert(self@ =~= (InodeView { atime, ..old(self)@ }));
        }
    }

    /// The last modification time.
    pub fn mtime(&self) -> (r: TimeSpec)
        requires
            self.wf(),
        ensures
            r == self@.mtime,
    {
        let sec = get_le64(&self.data, MTIME_OFF) as i64;
        let nsec = get_le32(&self.data, MTIME_OFF + 8) as i32;
        TimeSpec { sec, nsec }
    }

    /// Set the last modification time.
    pub fn set_mtime(&mut self, mtime: TimeSpec)
        requires
            old(self).wf(),
        ensures
            final(self).wf(),
            final(self).spec_id() == old(self).spec_id(),
            final(self).spec_dirty(),
            final(self)@ == (InodeView { mtime, ..old(self)@ }),
    {
        put_le64(&mut self.data, MTIME_OFF, mtime.sec as u64);
        put_le32(&mut self.data, MTIME_OFF + 8, mtime.nsec as u32);
        self.dirty = true;
        proof {
            lemma_eq_outside(old(self).bytes(), self.bytes(), MTIME_OFF as int, 12);
            lemma_i64_bits(mtime.sec);
            lemma_i32_bits(mtime.nsec);
            assert(self@ =~= (InodeView { mtime, ..old(self)@ }));
        }
    }

    /// The last change time.
    pub fn ctime(&self) -> (r: TimeSpec)
        requires
            self.wf(),
        ensures
            r == self@.ctime,
    {
        let sec = get_le64(&self.data, CTIME_OFF) as i64;
        let nsec = get_le32(&self.data, CTIME_OFF + 8) as i32;
        TimeSpec { sec, nsec }
    }

    /// Set the last change time.
    pub fn set_ctime(&mut self, ctime: TimeSpec)
        requires
            old(self).wf(),
        ensures
            final(self).wf(),
            final(self).spec_id() == old(self).spec_id(),
            final(self).spec_dirty(),
            final(self)@ == (InodeView { ctime, ..old(self)@ }),
    {
        put_le64(&mut self.data, CTIME_OFF, ctime.sec as u64);
        put_le32(&mut self.data, CTIME_OFF + 8, ctime.nsec as u32);
        self.dirty = true;
        proof {
            lemma_eq_outside(old(self).bytes(), self.bytes(), CTIME_OFF as int, 12);
            lemma_i64_bits(ctime.sec);
            lemma_i32_bits(ctime.nsec);
            assert(self@ =~= (InodeView { ctime, ..old(self)@ }));
        }
    }

    /// The file type stored in the mode word, or `Einval` for any
    /// other bit pattern.
    pub fn kind(&self) -> (r: Result<FileType, RfsError>)
        requires
            self.wf(),
        ensures
            r == spec_kind(self@.mode),
    {
        let mode = get_le16(&self.data, MODE_OFF);
        let fmt = (mode / 0x1000) * 0x1000;
        if fmt == S_IFREG {
            Ok(FileType::RegularFile)
        } else if fmt == S_IFDIR {
            Ok(FileType::Directory)
        } else if fmt == S_IFLNK {
            Ok(FileType::Symlink)
        } else {
            Err(RfsError::Einval)
        }
    }

    /// The permission bits of the mode word.
    pub fn perm(&self) -> (r: u16)
        requires
            self.wf(),
        ensures
            r == mode_perm(self@.mode),
    {
        get_le16(&self.data, MODE_OFF) % 0x1000
    }

    /// Set type and permission together.
    pub fn set_mode(&mut self, mode: u16)
        requires
            old(self).wf(),
        ensures
            final(self).wf(),
            final(self).spec_id() == old(self).spec_id(),
            final(self).spec_dirty(),
            final(self)@ == (InodeView { mode, ..old(self)@ }),
    {
        put_le16(&mut self.data, MODE_OFF, mode);
        self.dirty = true;
        proof {
            lemma_eq_outside(old(self).bytes(), self.bytes(), MODE_OFF as int, 2);
            assert(self@ =~= (InodeView { mode, ..old(self)@ }));
        }
    }

    /// The link count.
    pub fn nlink(&self) -> (r: u16)
        requires
            self.wf(),
        ensures
            r == self@.nlink,
    {
        get_le16(&self.data, NLINK_OFF)
    }

    /// Set the link count.
    pub fn set_nlink(&mut self, nlink: u16)
        requires
            old(self).wf(),
        ensures
            final(self).wf(),
            final(self).spec_id() == old(self).spec_id(),
            final(self).spec_dirty(),
            final(self)@ == (InodeView { nlink, ..old(self)@ }),
    {
        put_le16(&mut self.data, NLINK_OFF, nlink);
        self.dirty = true;
        proof {
            lemma_eq_outside(old(self).bytes(), self.bytes(), NLINK_OFF as int, 2);
            assert(self@ =~= (InodeView { nlink, ..old(self)@ }));
        }
    }

    /// The owning user id.
    pub fn uid(&self) -> (r: u32)
        requires
            self.wf(),
        ensures
            r == self@.uid,
    {
        get_le32(&self.data, UID_OFF)
    }

    /// Set the owning user id.
    pub fn set_uid(&mut self, uid: u32)
        requires
            old(self).wf(),
        ensures
            final(self).wf(),
            final(self).spec_id() == old(self).spec_id(),
            final(self).spec_dirty(),
            final(self)@ == (InodeView { uid, ..old(self)@ }),
    {
        put_le32(&mut self.data, UID_OFF, uid);
        self.dirty = true;
        proof {
            lemma_eq_outside(old(self).bytes(), self.bytes(), UID_OFF as int, 4);
            assert(self@ =~= (InodeView { uid, ..old(self)@ }));
        }
    }

    /// The owning group id.
    pub fn gid(&self) -> (r: u32)
        requires
            self.wf(),
        ensures
            r == self@.gid,
    {
        get_le32(&self.data, GID_OFF)
    }

    /// Set the owning group id.
    pub fn set_gid(&mut self, gid: u32)
        requires
            old(self).wf(),
        ensures
            final(self).wf(),
            final(self).spec_id() == old(self).spec_id(),
            final(self).spec_dirty(),
            final(self)@ == (InodeView { gid, ..old(self)@ }),
    {
        put_le32(&mut self.data, GID_OFF, gid);
        self.dirty = true;
        proof {
            lemma_eq_outside(old(self).bytes(), self.bytes(), GID_OFF as int, 4);
            assert(self@ =~= (InodeView { gid, ..old(self)@ }));
        }
    }

    /// The block id stored in slot `index`; 0 means a hole, and any
    /// index past the direct table reads as 0.
    pub fn data_block(&self, index: usize) -> (r: Id)
        requires
            self.wf(),
        ensures
            r == slot_at(self@, index as int),
    {
        if index < DIRECT_BLK_CNT {
            get_le16(&self.data, INDEX_OFF + index * INDEX_SIZE)
        } else {
            0
        }
    }

    /// Store a block id in slot `index`; `Efbig` past the direct
    /// table.  The mirror must be flushed later.
    pub fn set_data_block(&mut self, index: usize, data_block: Id) -> (r: Result<(), RfsError>)
        requires
            old(self).wf(),
        ensures
            final(self).wf(),
            final(self).spec_id() == old(self).spec_id(),
            index < DIRECT_BLK_CNT ==> (r matches Ok(_)) && final(self).spec_dirty()
                && final(self)@ == (InodeView {
                slots: old(self)@.slots.update(index as int, data_block),
                ..old(self)@
            }),
            index >= DIRECT_BLK_CNT ==> (r matches Err(e) && e == RfsError::Efbig) && *final(self)
                == *old(self),
    {
        if index < DIRECT_BLK_CNT {
            put_le16(&mut self.data, INDEX_OFF + index * INDEX_SIZE, data_block);
            self.dirty = true;
            proof {
                lemma_eq_outside(
                    old(self).bytes(),
                    self.bytes(),
                    INDEX_OFF + 2 * index as int,
                    2,
                );
                assert forall|i: int| 0 <= i < DIRECT_BLK_CNT && i != index implies #[trigger] le16_at(
                    self.bytes(),
                    INDEX_OFF + 2 * i,
                ) == le16_at(old(self).bytes(), INDEX_OFF + 2 * i) by {}
                assert(le16_at(self.bytes(), INDEX_OFF + 2 * index as int) == data_block);
                assert(self@.slots =~= old(self)@.slots.update(index as int, data_block));
                assert(self@ =~= (InodeView {
                    slots: old(self)@.slots.update(index as int, data_block),
                    ..old(self)@
                }));
            }
            Ok(())
        } else {
            Err(RfsError::Efbig)
        }
    }
}

/// A signed 64-bit value survives the round trip through its bit
/// pattern.
proof fn lemma_i64_bits(x: i64)
    ensures
        (x as u64) as i64 == x,
{
    assert((x as u64) as i64 == x) by (bit_vector);
}

/// A signed 32-bit value survives the round trip through its bit
/// pattern.
proof fn lemma_i32_bits(x: i32)
    ensures
        (x as u32) as i32 == x,
{
    assert((x as u32) as i32 == x) by (bit_vector);
}

/// When the bytes of `b` agree with `a` outside `[off, off + n)`,
/// every decoded field whose byte range lies outside it is unchanged.
/// The conclusion is given field by field, guarded by where the range
/// falls.
proof fn lemma_eq_outside(a: Seq<u8>, b: Seq<u8>, off: int, n: int)
    requires
        a.len() == BLOCK_SIZE,
        b.len() == BLOCK_SIZE,
        crate::codec::same_outside(a, b, off, n),
    ensures
        off + n <= GENERATION_OFF || off >= GENERATION_OFF + 8 ==> decode_inode(b).generation
            == decode_inode(a).generation,
        off + n <= LENGTH_OFF || off >= LENGTH_OFF + 4 ==> decode_inode(b).length == decode_inode(
            a,
        ).length,
        off + n <= ATIME_OFF || off >= ATIME_OFF + 12 ==> decode_inode(b).atime == decode_inode(
            a,
        ).atime,
        off + n <= MTIME_OFF || off >= MTIME_OFF + 12 ==> decode_inode(b).mtime == decode_inode(
            a,
        ).mtime,
        off + n <= CTIME_OFF || off >= CTIME_OFF + 12 ==> decode_inode(b).ctime == decode_inode(
            a,
        ).ctime,
        off + n <= MODE_OFF || off >= MODE_OFF + 2 ==> decode_inode(b).mode == decode_inode(
            a,
        ).mode,
        off + n <= NLINK_OFF || off >= NLINK_OFF + 2 ==> decode_inode(b).nlink == decode_inode(
            a,
        ).nlink,
        off + n <= UID_OFF || off >= UID_OFF + 4 ==> decode_inode(b).uid == decode_inode(a).uid,
        off + n <= GID_OFF || off >= GID_OFF + 4 ==> decode_inode(b).gid == decode_inode(a).gid,
        off + n <= INDEX_OFF ==> decode_inode(b).slots =~= decode_inode(a).slots,
        forall|i: int|
            0 <= i < DIRECT_BLK_CNT && (off + n <= INDEX_OFF + 2 * i || off >= INDEX_OFF + 2 * i
                + 2) ==> #[trigger] decode_inode(b).slots[i] == decode_inode(a).slots[i],
{
    if off + n <= INDEX_OFF {
        assert forall|i: int| 0 <= i < DIRECT_BLK_CNT implies #[trigger] decode_inode(b).slots[i]
            == decode_inode(a).slots[i] by {}
        assert(decode_inode(b).slots =~= decode_inode(a).slots);
    }
}

} // verus!
