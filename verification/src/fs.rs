//! Namespace layer: directories as a dense array of fixed 64-byte
//! entries, with lookup, link, unlink, rename, mkdir, create and
//! symlink on top of the file data layer.
//!
//! A directory entry is `[ inode id (2B) | name length (1B) | name
//! (up to 60B, zero padded) | reserved ]`; entry `k` occupies bytes
//! `[64k, 64k + 64)` of the directory's file.  Every directory starts
//! with `.` and `..`.

use vstd::prelude::*;
use vstd::pervasive::VecAdditionalExecFns;

use crate::block_io::dev_equiv;
use crate::block_io::BlockIO;
use crate::block_mgr::allocated;
use crate::block_mgr::bm_full;
use crate::codec::le16_at;
use crate::codec::get_le16;
use crate::codec::put_le16;
use crate::file_mgr::file_content;
use crate::file_mgr::inode_ok;
use crate::file_mgr::read_result;
use crate::file_mgr::FileMgr;
use crate::file_mgr::blocks_of;
use crate::file_mgr::is_slot;
use crate::file_mgr::slots_ok;
use crate::inode::slot_at;
use crate::inode::decode_inode;
use crate::inode::mode_perm;
use crate::inode::spec_kind;
use crate::inode::FileType;
use crate::inode::Inode;
use crate::inode::InodeView;
use crate::inode::TimeSpec;
use crate::inode::S_IFDIR;
use crate::inode::S_IFLNK;
use crate::inode::S_IFREG;
use crate::Id;
use crate::RfsError;

verus! {

/// Size in bytes of one directory entry.
pub const DIR_ITEM_SIZE: usize = 64;

/// Longest name a directory entry can hold.
pub const MAX_NAME_LEN: usize = 60;

/// Number of entries a directory's content holds.
pub open spec fn dir_count(c: Seq<u8>) -> int {
    c.len() as int / 64
}

/// The inode id of entry `k`.
pub open spec fn entry_ino(c: Seq<u8>, k: int) -> u16 {
    le16_at(c, 64 * k)
}

/// The name of entry `k`.
pub open spec fn entry_name(c: Seq<u8>, k: int) -> Seq<u8> {
    c.subrange(64 * k + 3, 64 * k + 3 + c[64 * k + 2] as int)
}

/// Well-formed directory content: a whole number of entries, each
/// with a name that fits its record.
pub open spec fn dir_wf(c: Seq<u8>) -> bool {
    &&& c.len() % 64 == 0
    &&& forall|k: int| 0 <= k < dir_count(c) ==> (#[trigger] c[64 * k + 2]) as int <= MAX_NAME_LEN
}

/// No entry of `c` is named `name`.
pub open spec fn no_entry_named(c: Seq<u8>, name: Seq<u8>) -> bool {
    forall|k: int| 0 <= k < dir_count(c) ==> #[trigger] entry_name(c, k) != name
}

/// Content `c2` is `c` with entry `k` removed by the swap-with-last
/// rule: one entry fewer, the last entry moved into place `k`, every
/// other entry unchanged.
pub open spec fn entry_removed_at(c: Seq<u8>, c2: Seq<u8>, k: int) -> bool {
    &&& dir_count(c2) == dir_count(c) - 1
    &&& forall|j: int|
        0 <= j < dir_count(c2) && j != k ==> #[trigger] entry_ino(c2, j) == entry_ino(c, j)
    &&& forall|j: int|
        0 <= j < dir_count(c2) && j != k ==> #[trigger] entry_name(c2, j) == entry_name(c, j)
    &&& (k < dir_count(c2) ==> entry_ino(c2, k) == entry_ino(c, dir_count(c) - 1) && entry_name(
        c2,
        k,
    ) == entry_name(c, dir_count(c) - 1))
}

/// One link of the inode stored in block `t` was dropped: its count
/// decremented, or its block freed when the count was already at most
/// one.
pub open spec fn link_dropped(
    bm0: Seq<u8>,
    dev0: Seq<Seq<u8>>,
    bm2: Seq<u8>,
    dev2: Seq<Seq<u8>>,
    t: Id,
) -> bool {
    let v = stored_view(dev0, t);
    if v.nlink > 1 {
        allocated(bm2, t as int) && stored_view(dev2, t) == (InodeView {
            nlink: (v.nlink - 1) as u16,
            ..v
        })
    } else {
        !allocated(bm2, t as int)
    }
}

/// At most one entry of `c` is named `name`.
pub open spec fn name_unique(c: Seq<u8>, name: Seq<u8>) -> bool {
    forall|k1: int, k2: int|
        0 <= k1 < dir_count(c) && 0 <= k2 < dir_count(c) && #[trigger] entry_name(c, k1) == name
            && #[trigger] entry_name(c, k2) == name ==> k1 == k2
}

/// Entry `k` of `c` is the first one named `name`.
pub open spec fn first_entry_named(c: Seq<u8>, name: Seq<u8>, k: int) -> bool {
    &&& 0 <= k < dir_count(c)
    &&& entry_name(c, k) == name
    &&& forall|j: int| 0 <= j < k ==> #[trigger] entry_name(c, j) != name
}

/// The encoded 64-byte record of one entry.
pub open spec fn spec_dir_item(ino: u16, name: Seq<u8>) -> Seq<u8> {
    Seq::new(
        64,
        |i: int|
            if i == 0 {
                (ino % 256) as u8
            } else if i == 1 {
                (ino / 256) as u8
            } else if i == 2 {
                name.len() as u8
            } else if 3 <= i < 3 + name.len() {
                name[i - 3]
            } else {
                0u8
            },
    )
}

/// The decoded picture of the inode stored in block `id`.
pub open spec fn stored_view(dev: Seq<Seq<u8>>, id: Id) -> InodeView {
    decode_inode(crate::block_io::dev_block(dev, id as int + 1))
}

/// A directory an operation may work on: a sound inode whose content
/// is a whole array of well-formed entries, each naming an allocated
/// inode that is not one of the directory's own data blocks.
pub open spec fn dir_sound(ino: Inode, bm: Seq<u8>, dev: Seq<Seq<u8>>) -> bool {
    &&& inode_ok(ino, bm, dev)
    &&& dir_wf(file_content(ino@, dev))
    &&& forall|k: int|
        0 <= k < dir_count(file_content(ino@, dev)) ==> allocated(
            bm,
            #[trigger] entry_ino(file_content(ino@, dev), k) as int,
        ) && !is_slot(ino@, entry_ino(file_content(ino@, dev), k) as int)
}

/// The host-facing attributes of an inode.
#[derive(Clone, Copy, Debug, PartialEq, Eq, Structural)]
pub struct FileAttr {
    pub ino: u64,
    pub size: u64,
    pub blocks: u64,
    pub atime: TimeSpec,
    pub mtime: TimeSpec,
    pub ctime: TimeSpec,
    pub kind: FileType,
    pub perm: u16,
    pub nlink: u32,
    pub uid: u32,
    pub gid: u32,
}

/// The attributes an inode view shows, given its decoded file type.
pub open spec fn spec_attr(id: Id, v: InodeView, kind: FileType) -> FileAttr {
    FileAttr {
        ino: id as u64,
        size: v.length as u64,
        blocks: blocks_of(v.length as int) as u64,
        atime: v.atime,
        mtime: v.mtime,
        ctime: v.ctime,
        kind,
        perm: mode_perm(v.mode),
        nlink: v.nlink as u32,
        uid: v.uid,
        gid: v.gid,
    }
}

/// Read permission under the classic owner/group/other bits.
pub open spec fn spec_has_read_perm(uid: u32, gid: u32, v: InodeView) -> bool {
    ||| (uid == v.uid && mode_perm(v.mode) & 0o400 > 0)
    ||| (gid == v.gid && mode_perm(v.mode) & 0o040 > 0)
    ||| mode_perm(v.mode) & 0o004 > 0
}

/// Write permission under the classic owner/group/other bits.
pub open spec fn spec_has_write_perm(uid: u32, gid: u32, v: InodeView) -> bool {
    ||| (uid == v.uid && mode_perm(v.mode) & 0o200 > 0)
    ||| (gid == v.gid && mode_perm(v.mode) & 0o020 > 0)
    ||| mode_perm(v.mode) & 0o002 > 0
}

/// Whether an open with `flags` asks to read, and to write.
pub open spec fn spec_reads(flags: u32) -> bool {
    flags % 4 == 0 || flags % 4 == 2
}

pub open spec fn spec_writes(flags: u32) -> bool {
    flags % 4 == 1 || flags % 4 == 2
}

/// Two byte strings hold the same bytes.
fn bytes_eq(a: &[u8], b: &[u8]) -> (r: bool)
    ensures
        r == (a@ == b@),
{
    if a.len() != b.len() {
        proof {
            assert(a@.len() != b@.len());
        }
        return false;
    }
    let n = a.len();
    let mut i: usize = 0;
    while i < n
        invariant
            n == a@.len() == b@.len(),
            i <= n,
            forall|j: int| 0 <= j < i ==> a@[j] == b@[j],
        decreases n - i,
    {
        if *vstd::slice::slice_index_get(a, i) != *vstd::slice::slice_index_get(b, i) {
            return false;
        }
        i = i + 1;
    }
    proof {
        assert(a@ =~= b@);
    }
    true
}

/// The namespace: directory semantics over a file manager.
pub struct Rfs<T: BlockIO> {
    pub file_mgr: Box<FileMgr<T>>,
}

impl<T: BlockIO> Rfs<T> {
    /// The abstract picture of the device underneath.
    pub open spec fn dev(&self) -> Seq<Seq<u8>> {
        self.file_mgr.dev()
    }

    /// The bitmap mirror underneath.
    pub open spec fn bm(&self) -> Seq<u8> {
        self.file_mgr.bm()
    }

    /// Representation invariant.
    pub open spec fn inv(&self) -> bool {
        self.file_mgr.inv()
    }

    /// Whether the device underneath never fails.
    pub open spec fn infallible(&self) -> bool {
        self.file_mgr.infallible()
    }

    /// A namespace over `file_mgr`.
    pub fn new(file_mgr: Box<FileMgr<T>>) -> (r: Rfs<T>)
        requires
            file_mgr.inv(),
        ensures
            r.inv(),
            r.infallible() == file_mgr.infallible(),
            r.dev() == file_mgr.dev(),
            r.bm() == file_mgr.bm(),
    {
        Rfs { file_mgr }
    }

    /// Narrow a host inode number to the 16-bit id space.
    pub fn as_id(x: u64) -> (r: Result<Id, RfsError>)
        ensures
            r matches Ok(i) ==> x <= u16::MAX && i == x,
            r matches Err(e) ==> e == RfsError::Ebadf && x > u16::MAX,
    {
        if x > u16::MAX as u64 {
            Err(RfsError::Ebadf)
        } else {
            Ok(x as Id)
        }
    }

    /// Decode one 64-byte directory record into its id and name.
    pub fn parse_dir_item(item: &Vec<u8>) -> (r: (Id, Vec<u8>))
        requires
            item@.len() == DIR_ITEM_SIZE,
            item@[2] <= MAX_NAME_LEN,
        ensures
            r.0 == le16_at(item@, 0),
            r.1@ == item@.subrange(3, 3 + item@[2] as int),
    {
        let ino = get_le16(item, 0);
        let name_len = item[2] as usize;
        let mut name: Vec<u8> = Vec::new();
        let mut i: usize = 0;
        while i < name_len
            invariant
                name_len == item@[2] as int <= MAX_NAME_LEN,
                item@.len() == DIR_ITEM_SIZE,
                i <= name_len,
                name@.len() == i,
                forall|j: int| 0 <= j < i ==> name@[j] == item@[3 + j],
            decreases name_len - i,
        {
            name.push(item[3 + i]);
            i = i + 1;
        }
        proof {
            assert(name@ =~= item@.subrange(3, 3 + item@[2] as int));
        }
        (ino, name)
    }

    /// Encode an id and a name into one 64-byte record; a name longer
    /// than the record holds is refused.
    pub fn assemble_dir_item(ino: Id, name: &[u8]) -> (r: Result<Vec<u8>, RfsError>)
        ensures
            name@.len() <= MAX_NAME_LEN ==> (r matches Ok(v) && v@ == spec_dir_item(ino, name@)),
            name@.len() > MAX_NAME_LEN ==> (r matches Err(e) && e == RfsError::Enametoolong),
    {
        if name.len() > MAX_NAME_LEN {
            return Err(RfsError::Enametoolong);
        }
        let mut item: Vec<u8> = vec![0u8; DIR_ITEM_SIZE];
        put_le16(&mut item, 0, ino);
        item.set(2, name.len() as u8);
        let n = name.len();
        let mut i: usize = 0;
        while i < n
            invariant
                n == name@.len() <= MAX_NAME_LEN,
                item@.len() == DIR_ITEM_SIZE,
                i <= n,
                le16_at(item@, 0) == ino,
                item@[2] == n as u8,
                forall|j: int| 0 <= j < i ==> item@[3 + j] == name@[j],
                forall|j: int| 3 + i <= j < 64 ==> item@[j] == 0u8,
        decreases n - i,
        {
            item.set(3 + i, *vstd::slice::slice_index_get(name, i));
            i = i + 1;
        }
        proof {
            assert((ino % 256) as int + ((ino / 256) as int) * 256 == ino);
            assert(item@ =~= spec_dir_item(ino, name@));
        }
        Ok(item)
    }

    /// Whether `uid`/`gid` may read the inode.
    pub fn has_read_perm(uid: u32, gid: u32, inode: &Inode) -> (r: bool)
        requires
            inode.wf(),
        ensures
            r == spec_has_read_perm(uid, gid, inode@),
    {
        let perm = inode.perm();
        if uid == inode.uid() && (perm & 0o400) > 0 {
            return true;
        }
        if gid == inode.gid() && (perm & 0o040) > 0 {
            return true;
        }
        (perm & 0o004) > 0
    }

    /// Whether `uid`/`gid` may write the inode.
    pub fn has_write_perm(uid: u32, gid: u32, inode: &Inode) -> (r: bool)
        requires
            inode.wf(),
        ensures
            r == spec_has_write_perm(uid, gid, inode@),
    {
        let perm = inode.perm();
        if uid == inode.uid() && (perm & 0o200) > 0 {
            return true;
        }
        if gid == inode.gid() && (perm & 0o020) > 0 {
            return true;
        }
        (perm & 0o002) > 0
    }

    /// Check the access an open with `flags` asks for; `Eperm` when
    /// the permission bits refuse it.
    pub fn check_perm(uid: u32, gid: u32, inode: &Inode, flags: u32) -> (r: Result<(), RfsError>)
        requires
            inode.wf(),
        ensures
            r matches Ok(_) <==> ((spec_reads(flags) ==> spec_has_read_perm(uid, gid, inode@)) && (
            spec_writes(flags) ==> spec_has_write_perm(uid, gid, inode@))),
            r matches Err(e) ==> e == RfsError::Eperm,
    {
        let acc = flags % 4;
        let is_reading = acc == 0 || acc == 2;
        let is_writing = acc == 1 || acc == 2;
        if is_reading && !Rfs::<T>::has_read_perm(uid, gid, inode) {
            return Err(RfsError::Eperm);
        }
        if is_writing && !Rfs::<T>::has_write_perm(uid, gid, inode) {
            return Err(RfsError::Eperm);
        }
        Ok(())
    }

    /// Find the first entry of `parent` named `name`: its position and
    /// its inode id.  `Enoent` when no entry matches.
    pub fn lookup_item(&mut self, parent: &Inode, name: &[u8]) -> (r: Result<
        (usize, Id),
        RfsError,
    >)
        requires
            old(self).inv(),
            inode_ok(*parent, old(self).bm(), old(self).dev()),
            dir_wf(file_content(parent@, old(self).dev())),
        ensures
            final(self).inv(),
            final(self).infallible() == old(self).infallible(),
            old(self).infallible() ==> !(r matches Err(e) && e == RfsError::Eio),
            final(self).bm() == old(self).bm(),
            dev_equiv(old(self).dev(), final(self).dev()),
            r matches Ok(p) ==> {
                let c = file_content(parent@, old(self).dev());
                &&& 0 <= p.0 < dir_count(c)
                &&& entry_name(c, p.0 as int) == name@
                &&& p.1 == entry_ino(c, p.0 as int)
                &&& forall|j: int| 0 <= j < p.0 ==> #[trigger] entry_name(c, j) != name@
            },
            dir_count(file_content(parent@, old(self).dev())) == 0 ==> (r matches Err(e) && e
                == RfsError::Enoent),
            r matches Err(e) ==> e == RfsError::Eio || (e == RfsError::Enoent && no_entry_named(
                file_content(parent@, old(self).dev()),
                name@,
            )),
    {
        let ghost c = file_content(parent@, old(self).dev());
        let length = parent.length() as usize;
        let count = length / DIR_ITEM_SIZE;
        proof {
            assert(count == dir_count(c));
        }
        let mut offset: usize = 0;
        while offset < count
            invariant
                self.inv(),
                self.infallible() == old(self).infallible(),
                self.bm() == old(self).bm(),
                dev_equiv(old(self).dev(), self.dev()),
                inode_ok(*parent, old(self).bm(), old(self).dev()),
                dir_wf(c),
                c == file_content(parent@, old(self).dev()),
                count == dir_count(c),
                length == parent@.length,
                offset <= count,
                forall|j: int| 0 <= j < offset ==> #[trigger] entry_name(c, j) != name@,
            decreases count - offset,
        {
            proof {
                crate::file_mgr::lemma_content_equiv(parent@, old(self).dev(), self.dev());
                assert(64 * offset + 64 <= length) by {
                    vstd::arithmetic::div_mod::lemma_fundamental_div_mod(length as int, 64);
                }
            }
            let item = match self.file_mgr.read_file(parent, offset * DIR_ITEM_SIZE, DIR_ITEM_SIZE) {
                Ok(v) => v,
                Err(e) => {
                    return Err(e);
                },
            };
            proof {
                assert(item@ == read_result(c, 64 * offset, 64));
                assert(item@ =~= c.subrange(64 * offset, 64 * offset + 64));
                assert(item@[2] == c[64 * offset + 2]);
            }
            let (ino, entry_nm) = Rfs::<T>::parse_dir_item(&item);
            if bytes_eq(entry_nm.as_slice(), name) {
                proof {
                    assert(entry_nm@ =~= entry_name(c, offset as int));
                    assert(ino == entry_ino(c, offset as int));
                }
                return Ok((offset, ino));
            }
            proof {
                assert(entry_nm@ =~= entry_name(c, offset as int));
            }
            offset = offset + 1;
        }
        Err(RfsError::Enoent)
    }

    /// Append a directory entry for `id` under `newname` at the end of
    /// `newparent`.
    pub fn write_dir_item(&mut self, id: Id, newparent: &mut Inode, newname: &[u8]) -> (r: Result<
        (),
        RfsError,
    >)
        requires
            old(self).inv(),
            inode_ok(*old(newparent), old(self).bm(), old(self).dev()),
            dir_wf(file_content(old(newparent)@, old(self).dev())),
            old(newparent)@.length + 64 <= u32::MAX,
        ensures
            final(self).inv(),
            final(self).infallible() == old(self).infallible(),
            old(self).infallible() ==> !(r matches Err(e) && e == RfsError::Eio),
            final(newparent).wf(),
            final(newparent).spec_id() == old(newparent).spec_id(),
            crate::file_mgr::meta_eq(final(newparent)@, old(newparent)@),
            crate::file_mgr::bm_monotone(old(self).bm(), final(self).bm()),
            crate::file_mgr::others_untouched(
                old(newparent)@,
                old(newparent).spec_id(),
                old(self).bm(),
                old(self).dev(),
                final(self).dev(),
            ),
            allocated(final(self).bm(), old(newparent).spec_id() as int),
            forall|k: int|
                0 <= k < crate::inode::DIRECT_BLK_CNT && #[trigger] slot_at(old(newparent)@, k)
                    != 0 ==> slot_at(final(newparent)@, k) == slot_at(old(newparent)@, k),
            forall|k: int|
                0 <= k < crate::inode::DIRECT_BLK_CNT && #[trigger] slot_at(final(newparent)@, k)
                    != slot_at(old(newparent)@, k) ==> !allocated(
                    old(self).bm(),
                    slot_at(final(newparent)@, k) as int,
                ),
            r matches Ok(_) ==> {
                let c = file_content(old(newparent)@, old(self).dev());
                let c2 = file_content(final(newparent)@, final(self).dev());
                &&& newname@.len() <= MAX_NAME_LEN
                &&& c2 == c + spec_dir_item(id, newname@)
                &&& dir_wf(c2)
                &&& inode_ok(*final(newparent), final(self).bm(), final(self).dev())
                &&& !final(newparent).spec_dirty()
                &&& final(newparent)@.length == old(newparent)@.length + 64
                &&& crate::block_io::dev_block(
                    final(self).dev(),
                    old(newparent).spec_id() as int + 1,
                ) == final(newparent).bytes()
            },
            r matches Err(e) && e == RfsError::Enospc ==> bm_full(final(self).bm()),
            r matches Err(e) ==> {
                &&& (e == RfsError::Enametoolong || e == RfsError::Enospc || e == RfsError::Efbig
                    || e == RfsError::Eio)
                &&& e == RfsError::Enametoolong <==> newname@.len() > MAX_NAME_LEN
            },
    {
        let ghost c = file_content(old(newparent)@, old(self).dev());
        let item = match Rfs::<T>::assemble_dir_item(id, newname) {
            Ok(v) => v,
            Err(e) => {
                return Err(e);
            },
        };
        let end_of_file = newparent.length() as usize;
        match self.file_mgr.write_file(newparent, end_of_file, item.as_slice()) {
            Ok(_) => (),
            Err(e) => {
                return Err(e);
            },
        }
        proof {
            crate::file_mgr::lemma_ordered_write_extends(c, end_of_file as int, item@);
            let c2 = file_content(newparent@, self.dev());
            assert(c2 == crate::file_mgr::write_result(c, end_of_file as int, item@));
            assert(c2 =~= c + spec_dir_item(id, newname@)) by {
                assert(crate::file_mgr::zeros(0) =~= Seq::<u8>::empty());
                assert(c + crate::file_mgr::zeros(0) =~= c);
            }
            assert(dir_wf(c2)) by {
                assert(c2.len() == c.len() + 64);
                assert forall|k: int| 0 <= k < dir_count(c2) implies (#[trigger] c2[64 * k
                    + 2]) as int <= MAX_NAME_LEN by {
                    if k < dir_count(c) {
                        assert(64 * k + 2 < c.len()) by {
                            vstd::arithmetic::div_mod::lemma_fundamental_div_mod(
                                c.len() as int,
                                64,
                            );
                        }
                        assert(c2[64 * k + 2] == c[64 * k + 2]);
                    } else {
                        assert(k == dir_count(c)) by {
                            vstd::arithmetic::div_mod::lemma_fundamental_div_mod(
                                c.len() as int,
                                64,
                            );
                        }
                        assert(64 * k == c.len());
                        assert(c2[64 * k + 2] == spec_dir_item(id, newname@)[2]);
                    }
                }
            }
        }
        Ok(())
    }

    /// Remove entry `offset` of `parent`: the last entry moves into
    /// its place and the directory shrinks by one record.  Order is
    /// not preserved.
    #[verifier::rlimit(100)]
    #[verifier::spinoff_prover]
    pub fn erase_dir_item(&mut self, parent: &mut Inode, offset: usize) -> (r: Result<
        (),
        RfsError,
    >)
        requires
            old(self).inv(),
            inode_ok(*old(parent), old(self).bm(), old(self).dev()),
            dir_wf(file_content(old(parent)@, old(self).dev())),
            0 <= offset < dir_count(file_content(old(parent)@, old(self).dev())),
        ensures
            final(self).inv(),
            final(self).infallible() == old(self).infallible(),
            old(self).infallible() ==> !(r matches Err(e) && e == RfsError::Eio),
            final(parent).wf(),
            final(parent).spec_id() == old(parent).spec_id(),
            crate::file_mgr::meta_eq(final(parent)@, old(parent)@),
            forall|j: int|
                #[trigger] allocated(old(self).bm(), j) && !crate::file_mgr::is_slot(
                    old(parent)@,
                    j,
                ) ==> allocated(final(self).bm(), j),
            crate::file_mgr::others_untouched(
                old(parent)@,
                old(parent).spec_id(),
                old(self).bm(),
                old(self).dev(),
                final(self).dev(),
            ),
            allocated(final(self).bm(), old(parent).spec_id() as int),
            r matches Ok(_) ==> {
                let c = file_content(old(parent)@, old(self).dev());
                let c2 = file_content(final(parent)@, final(self).dev());
                &&& dir_count(c2) == dir_count(c) - 1
                &&& dir_wf(c2)
                &&& crate::block_io::dev_block(
                    final(self).dev(),
                    old(parent).spec_id() as int + 1,
                ) == final(parent).bytes()
                &&& forall|k: int|
                    0 <= k < crate::inode::DIRECT_BLK_CNT && #[trigger] slot_at(final(parent)@, k)
                        != slot_at(old(parent)@, k) ==> slot_at(final(parent)@, k) == 0
                        || !allocated(old(self).bm(), slot_at(final(parent)@, k) as int)
                &&& inode_ok(*final(parent), final(self).bm(), final(self).dev())
                &&& !final(parent).spec_dirty()
                &&& entry_removed_at(c, c2, offset as int)
            },
            r matches Err(e) && e == RfsError::Enospc ==> bm_full(final(self).bm()),
            r matches Err(e) ==> e == RfsError::Enospc || e == RfsError::Efbig || e
                == RfsError::Eio,
    {
        let ghost c = file_content(old(parent)@, old(self).dev());
        let length = parent.length() as usize;
        let ghost cnt = dir_count(c);
        proof {
            assert(length % 64 == 0 && length >= 64 && length == 64 * cnt) by {
                vstd::arithmetic::div_mod::lemma_fundamental_div_mod(length as int, 64);
            }
        }
        let last_offset = length / DIR_ITEM_SIZE - 1;
        proof {
            assert(last_offset == cnt - 1);
        }
        let ghost mut c1 = c;
        let ghost mut last_bytes: Seq<u8> = Seq::empty();
        if offset < last_offset {
            let last_item = match self.file_mgr.read_file(
                parent,
                last_offset * DIR_ITEM_SIZE,
                DIR_ITEM_SIZE,
            ) {
                Ok(v) => v,
                Err(e) => {
                    return Err(e);
                },
            };
            proof {
                assert(last_item@ =~= c.subrange(64 * (cnt - 1), 64 * cnt));
                last_bytes = last_item@;
                crate::file_mgr::lemma_content_equiv(parent@, old(self).dev(), self.dev());
            }
            match self.file_mgr.write_file(parent, offset * DIR_ITEM_SIZE, last_item.as_slice()) {
                Ok(_) => (),
                Err(e) => {
                    return Err(e);
                },
            }
            proof {
                c1 = file_content(parent@, self.dev());
                assert(c1 == crate::file_mgr::write_result(c, 64 * (offset as int), last_bytes));
                assert(c1.len() == c.len());
            }
        }
        let r = self.file_mgr.truncate_file(parent, length - DIR_ITEM_SIZE);
        match r {
            Ok(_) => {
                proof {
                    let c2 = file_content(parent@, self.dev());
                    assert(c2 == crate::file_mgr::truncate_result(c1, length - 64));
                    assert(c2.len() == 64 * (cnt - 1));
                    assert(dir_count(c2) == cnt - 1) by {
                        vstd::arithmetic::div_mod::lemma_fundamental_div_mod_converse(
                            64 * (cnt - 1),
                            64,
                            cnt - 1,
                            0,
                        );
                    }
                    assert forall|i: int|
                        0 <= i < c2.len() implies c2[i] == (if offset < cnt - 1 && 64 * offset <= i
                            < 64 * offset + 64 {
                            c[64 * (cnt - 1) + (i - 64 * offset)]
                        } else {
                            c[i]
                        }) by {
                        assert(c2[i] == c1[i]);
                        if offset < last_offset {
                            if 64 * offset <= i < 64 * offset + 64 {
                                assert(c1[i] == last_bytes[i - 64 * offset]);
                            }
                        }
                    }
                    assert(dir_wf(c2)) by {
                        assert forall|k: int| 0 <= k < cnt - 1 implies (#[trigger] c2[64 * k
                            + 2]) as int <= MAX_NAME_LEN by {
                            if offset < cnt - 1 && k == offset {
                                assert(c2[64 * k + 2] == c[64 * (cnt - 1) + 2]);
                            } else {
                                assert(c2[64 * k + 2] == c[64 * k + 2]);
                            }
                        }
                    }
                    assert forall|j: int|
                        0 <= j < cnt - 1 && j != offset implies #[trigger] entry_ino(c2, j)
                            == entry_ino(c, j) && #[trigger] entry_name(c2, j) == entry_name(
                            c,
                            j,
                        ) by {
                        assert(c2[64 * j + 2] == c[64 * j + 2]);
                        assert(entry_name(c2, j) =~= entry_name(c, j));
                    }
                    if offset < cnt - 1 {
                        assert(entry_ino(c2, offset as int) == entry_ino(c, cnt - 1));
                        assert(c2[64 * offset + 2] == c[64 * (cnt - 1) + 2]);
                        assert(entry_name(c2, offset as int) =~= entry_name(c, cnt - 1));
                    }
                    let k = offset as int;
                    assert(dir_count(c2) == dir_count(c) - 1 && (forall|j: int|
                        0 <= j < dir_count(c2) && j != k ==> #[trigger] entry_ino(c2, j)
                            == entry_ino(c, j)) && (forall|j: int|
                        0 <= j < dir_count(c2) && j != k ==> #[trigger] entry_name(c2, j)
                            == entry_name(c, j)) && (k < dir_count(c2) ==> entry_ino(c2, k)
                        == entry_ino(c, dir_count(c) - 1) && entry_name(c2, k) == entry_name(
                        c,
                        dir_count(c) - 1,
                    ))) by {
                        assert forall|j: int|
                            0 <= j < dir_count(c2) && j != k implies #[trigger] entry_ino(c2, j)
                            == entry_ino(c, j) by {}
                        assert forall|j: int|
                            0 <= j < dir_count(c2) && j != k implies #[trigger] entry_name(c2, j)
                            == entry_name(c, j) by {
                            assert(c2[64 * j + 2] == c[64 * j + 2]);
                            assert(entry_name(c2, j) =~= entry_name(c, j));
                        }
                    }
                    assert(entry_removed_at(c, c2, offset as int)) by {
                        assert forall|j: int|
                            0 <= j < dir_count(c2) && j != offset as int implies #[trigger] entry_ino(
                            c2,
                            j,
                        ) == entry_ino(c, j) && #[trigger] entry_name(c2, j) == entry_name(
                            c,
                            j,
                        ) by {
                            assert(c2[64 * j + 2] == c[64 * j + 2]);
                            assert(entry_name(c2, j) =~= entry_name(c, j));
                        }
                        assert((offset as int) < dir_count(c2) ==> entry_ino(c2, offset as int)
                            == entry_ino(c, dir_count(c) - 1) && entry_name(c2, offset as int)
                            == entry_name(c, dir_count(c) - 1));
                    }
                }
                Ok(())
            },
            Err(e) => Err(e),
        }
    }

    /// Stamp a freshly allocated inode: times, mode, owner, and a link
    /// count of one, flushed.
    pub fn set_newly_created(
        &mut self,
        inode: &mut Inode,
        now: TimeSpec,
        uid: u32,
        gid: u32,
        mode: u16,
    ) -> (r: Result<(), RfsError>)
        requires
            old(self).inv(),
            inode_ok(*old(inode), old(self).bm(), old(self).dev()),
        ensures
            final(self).inv(),
            final(self).infallible() == old(self).infallible(),
            old(self).infallible() ==> !(r matches Err(e) && e == RfsError::Eio),
            final(self).bm() == old(self).bm(),
            final(inode).wf(),
            final(inode).spec_id() == old(inode).spec_id(),
            final(inode)@ == (InodeView {
                atime: now,
                mtime: now,
                ctime: now,
                mode,
                nlink: 1,
                uid,
                gid,
                ..old(inode)@
            }),
            forall|db: int|
                db != old(inode).spec_id() as int + 1 ==> #[trigger] crate::block_io::dev_block(
                    final(self).dev(),
                    db,
                ) == crate::block_io::dev_block(old(self).dev(), db),
            r matches Ok(_) ==> !final(inode).spec_dirty() && inode_ok(
                *final(inode),
                final(self).bm(),
                final(self).dev(),
            ) && crate::block_io::dev_block(final(self).dev(), old(inode).spec_id() as int + 1)
                == final(inode).bytes() && file_content(final(inode)@, final(self).dev())
                == file_content(old(inode)@, old(self).dev()),
            r matches Err(e) ==> e == RfsError::Eio,
    {
        inode.set_atime(now);
        inode.set_mtime(now);
        inode.set_ctime(now);
        inode.set_mode(mode);
        inode.set_nlink(1);
        inode.set_uid(uid);
        inode.set_gid(gid);
        let r = self.file_mgr.flush(inode);
        proof {
            let vN = inode@;
            assert(vN.slots == old(inode)@.slots);
            assert forall|k: int| #[trigger] slot_at(vN, k) == slot_at(old(inode)@, k) by {}
            if r is Ok {
                assert forall|x: int|
                    vN.length <= x < blocks_of(vN.length as int) * 4096 implies #[trigger] crate::file_mgr::file_byte(
                    vN,
                    self.dev(),
                    x,
                ) == 0u8 by {
                    let b = x / 4096;
                    let sv = slot_at(vN, b);
                    if sv != 0 {
                        assert(b < blocks_of(vN.length as int)) by {
                            if b >= blocks_of(vN.length as int) {
                                assert(slot_at(vN, b) == 0);
                            }
                        }
                        assert(sv != old(inode).spec_id());
                        assert(crate::file_mgr::file_byte(vN, self.dev(), x)
                            == crate::file_mgr::file_byte(old(inode)@, old(self).dev(), x));
                    }
                }
                assert forall|x: int|
                    0 <= x < vN.length implies #[trigger] crate::file_mgr::file_byte(
                    vN,
                    self.dev(),
                    x,
                ) == crate::file_mgr::file_byte(old(inode)@, old(self).dev(), x) by {
                    let b = x / 4096;
                    let sv = slot_at(vN, b);
                    if sv != 0 {
                        assert(b < blocks_of(vN.length as int)) by {
                            if b >= blocks_of(vN.length as int) {
                                assert(slot_at(vN, b) == 0);
                            }
                        }
                        assert(sv != old(inode).spec_id());
                    }
                }
                assert(file_content(vN, self.dev()) =~= file_content(
                    old(inode)@,
                    old(self).dev(),
                ));
            }
        }
        r
    }

    /// The attributes of an inode; `Einval` when its mode holds no
    /// known file type.
    pub fn getattr_impl(&self, inode: &Inode) -> (r: Result<FileAttr, RfsError>)
        requires
            inode.wf(),
        ensures
            spec_kind(inode@.mode) matches Ok(k) ==> r == Ok::<FileAttr, RfsError>(
                spec_attr(inode.spec_id(), inode@, k),
            ),
            spec_kind(inode@.mode) matches Err(_) ==> r == Err::<FileAttr, RfsError>(
                RfsError::Einval,
            ),
    {
        let kind = match inode.kind() {
            Ok(k) => k,
            Err(e) => {
                return Err(e);
            },
        };
        let length = inode.length();
        let blocks = ((length as u64) + 4095) / 4096;
        Ok(
            FileAttr {
                ino: inode.id() as u64,
                size: length as u64,
                blocks,
                atime: inode.atime(),
                mtime: inode.mtime(),
                ctime: inode.ctime(),
                kind,
                perm: inode.perm(),
                nlink: inode.nlink() as u32,
                uid: inode.uid(),
                gid: inode.gid(),
            },
        )
    }

    /// Read `size` bytes at `offset`; a negative offset is `Einval`.
    pub fn read_impl(&mut self, inode: &Inode, offset: i64, size: u32) -> (r: Result<
        Vec<u8>,
        RfsError,
    >)
        requires
            old(self).inv(),
            inode_ok(*inode, old(self).bm(), old(self).dev()),
        ensures
            final(self).inv(),
            final(self).infallible() == old(self).infallible(),
            old(self).infallible() ==> !(r matches Err(e) && e == RfsError::Eio),
            final(self).bm() == old(self).bm(),
            dev_equiv(old(self).dev(), final(self).dev()),
            r matches Ok(b) ==> offset >= 0 && b@ == crate::file_mgr::read_result(
                file_content(inode@, old(self).dev()),
                offset as int,
                size as int,
            ),
            r matches Err(e) ==> (e == RfsError::Einval && offset < 0) || e == RfsError::Eio,
    {
        if offset < 0 {
            return Err(RfsError::Einval);
        }
        if offset as u64 > u32::MAX as u64 {
            let ghost c = file_content(inode@, old(self).dev());
            proof {
                assert(c.len() == inode@.length <= u32::MAX);
            }
            return Ok(Vec::new());
        }
        let off = offset as usize;
        let mut count = size as usize;
        if count > usize::MAX - off {
            count = usize::MAX - off;
        }
        let r = self.file_mgr.read_file(inode, off, count);
        proof {
            let c = file_content(inode@, old(self).dev());
            assert(c.len() <= u32::MAX);
            if count != size as usize {
                assert(crate::file_mgr::read_result(c, off as int, count as int)
                    == crate::file_mgr::read_result(c, off as int, size as int));
            }
        }
        r
    }

    /// Write `data` at `offset`; a negative offset is `Einval`, and a
    /// write whose end cannot be represented in the 32-bit length is
    /// `Efbig`.
    pub fn write_impl(&mut self, inode: &mut Inode, offset: i64, data: &[u8]) -> (r: Result<
        usize,
        RfsError,
    >)
        requires
            old(self).inv(),
            inode_ok(*old(inode), old(self).bm(), old(self).dev()),
        ensures
            final(self).inv(),
            final(self).infallible() == old(self).infallible(),
            old(self).infallible() ==> !(r matches Err(e) && e == RfsError::Eio),
            final(inode).wf(),
            final(inode).spec_id() == old(inode).spec_id(),
            crate::file_mgr::bm_monotone(old(self).bm(), final(self).bm()),
            crate::file_mgr::others_untouched(
                old(inode)@,
                old(inode).spec_id(),
                old(self).bm(),
                old(self).dev(),
                final(self).dev(),
            ),
            r matches Ok(n) ==> {
                &&& offset >= 0
                &&& n == data@.len()
                &&& inode_ok(*final(inode), final(self).bm(), final(self).dev())
                &&& !final(inode).spec_dirty()
                &&& file_content(final(inode)@, final(self).dev())
                    == crate::file_mgr::write_result(
                    file_content(old(inode)@, old(self).dev()),
                    offset as int,
                    data@,
                )
            },
            r matches Err(e) && e == RfsError::Enospc ==> bm_full(final(self).bm()),
            r matches Err(e) ==> {
                &&& (e == RfsError::Einval ==> offset < 0)
                &&& (e == RfsError::Einval || e == RfsError::Enospc || e == RfsError::Efbig || e
                    == RfsError::Eio)
            },
    {
        if offset < 0 {
            return Err(RfsError::Einval);
        }
        if offset as u64 > u32::MAX as u64 || (data.len() as u64) > u32::MAX as u64 - (
        offset as u64) {
            return Err(RfsError::Efbig);
        }
        self.file_mgr.write_file(inode, offset as usize, data)
    }

    /// Open the inode of a host inode number, checking the access
    /// `flags` ask for.
    pub fn open_impl(&mut self, uid: u32, gid: u32, ino: u64, flags: u32) -> (r: Result<
        Inode,
        RfsError,
    >)
        requires
            old(self).inv(),
            ino <= u16::MAX ==> allocated(old(self).bm(), ino as int),
        ensures
            final(self).inv(),
            final(self).infallible() == old(self).infallible(),
            old(self).infallible() ==> !(r matches Err(e) && e == RfsError::Eio),
            final(self).bm() == old(self).bm(),
            dev_equiv(old(self).dev(), final(self).dev()),
            r matches Ok(inode) ==> {
                &&& ino <= u16::MAX
                &&& inode.wf()
                &&& !inode.spec_dirty()
                &&& inode.spec_id() == ino
                &&& inode@ == stored_view(old(self).dev(), ino as Id)
                &&& (spec_reads(flags) ==> spec_has_read_perm(uid, gid, inode@))
                &&& (spec_writes(flags) ==> spec_has_write_perm(uid, gid, inode@))
            },
            r matches Err(e) ==> (e == RfsError::Ebadf && ino > u16::MAX) || e == RfsError::Eperm
                || e == RfsError::Eio,
    {
        let id = match Rfs::<T>::as_id(ino) {
            Ok(i) => i,
            Err(e) => {
                return Err(e);
            },
        };
        let inode = match self.file_mgr.read_inode(id) {
            Ok(i) => i,
            Err(e) => {
                return Err(e);
            },
        };
        match Rfs::<T>::check_perm(uid, gid, &inode, flags) {
            Ok(_) => Ok(inode),
            Err(e) => Err(e),
        }
    }

    /// Mount-time initialisation: format an unformatted device, then
    /// stamp the root directory and write fresh `.` and `..` entries;
    /// every mount stamps the root anew.
    #[verifier::rlimit(100)]
    pub fn init_impl(&mut self, now: TimeSpec, uid: u32, gid: u32) -> (r: Result<(), RfsError>)
        requires
            old(self).inv(),
            crate::block_mgr::is_magic(crate::block_io::dev_block(old(self).dev(), 0))
                ==> root_stored_sound(old(self).dev()),
        ensures
            final(self).inv(),
            final(self).infallible() == old(self).infallible(),
            old(self).infallible() ==> !(r matches Err(e) && e == RfsError::Eio),
            r matches Ok(_) ==> {
                &&& allocated(final(self).bm(), 1)
                &&& !crate::block_mgr::is_magic(crate::block_io::dev_block(old(self).dev(), 0))
                    ==> {
                    let v = stored_view(final(self).dev(), 1);
                    let c = file_content(v, final(self).dev());
                    &&& v.mode == 0o040777
                    &&& v.nlink == 1
                    &&& v.uid == uid
                    &&& v.gid == gid
                    &&& v.atime == now && v.mtime == now && v.ctime == now
                    &&& c == spec_dir_item(1, seq![46u8]) + spec_dir_item(1, seq![46u8, 46u8])
                    &&& dir_wf(c)
                }
            },
            r matches Err(e) && e == RfsError::Enospc ==> bm_full(final(self).bm()),
            r matches Err(e) ==> e == RfsError::Enospc || e == RfsError::Eio || e
                == RfsError::Einval || e == RfsError::Efbig,
    {
        let formatted = match self.file_mgr.is_formatted() {
            Ok(b) => b,
            Err(e) => {
                return Err(e);
            },
        };
        let ghost d1 = self.dev();
        let need_format = !formatted;
        match self.file_mgr.init(need_format) {
            Ok(_) => (),
            Err(e) => {
                return Err(e);
            },
        }
        let ghost d2 = self.dev();
        if !self.file_mgr.is_allocated(1) {
            // a formatted device whose root bit is missing is corrupt
            return Err(RfsError::Einval);
        }
        let mut root = match self.file_mgr.read_root_inode() {
            Ok(i) => i,
            Err(e) => {
                return Err(e);
            },
        };
        proof {
            root.slots_len();
            root.view_is_decode();
            if need_format {
                assert(root@.length == 0);
                assert(blocks_of(0) == 0);
                assert(inode_ok(root, self.bm(), self.dev()));
                assert(file_content(root@, self.dev()) =~= Seq::<u8>::empty());
                assert(dir_wf(file_content(root@, self.dev())));
            } else {
                assert(dev_equiv(old(self).dev(), self.dev())) by {
                    assert forall|i: int|
                        #[trigger] crate::block_io::dev_block(old(self).dev(), i)
                            == crate::block_io::dev_block(self.dev(), i) by {
                        assert(crate::block_io::dev_block(old(self).dev(), i)
                            == crate::block_io::dev_block(d1, i));
                        assert(crate::block_io::dev_block(d1, i) == crate::block_io::dev_block(
                            d2,
                            i,
                        ));
                    }
                }
                assert(root@ == stored_view(old(self).dev(), 1));
                assert(self.bm() == crate::block_io::dev_block(old(self).dev(), 1)) by {
                    assert(self.bm() == crate::block_io::dev_block(d2, 1));
                    assert(crate::block_io::dev_block(d1, 1) == crate::block_io::dev_block(d2, 1));
                    assert(crate::block_io::dev_block(old(self).dev(), 1)
                        == crate::block_io::dev_block(d1, 1));
                }
                crate::file_mgr::lemma_content_equiv(root@, old(self).dev(), self.dev());
                assert(inode_ok(root, self.bm(), self.dev()));
                assert(dir_wf(file_content(root@, self.dev())));
            }
        }
        match self.init_root(&mut root, now, uid, gid) {
            Ok(_) => (),
            Err(e) => {
                return Err(e);
            },
        }
        proof {
            if need_format {
                assert(file_content(root@, self.dev()) =~= spec_dir_item(1, seq![46u8])
                    + spec_dir_item(1, seq![46u8, 46u8]));
            }
        }
        Ok(())
    }

    /// Stamp the root directory and append fresh `.` and `..` entries.
    fn init_root(&mut self, root: &mut Inode, now: TimeSpec, uid: u32, gid: u32) -> (r: Result<
        (),
        RfsError,
    >)
        requires
            old(self).inv(),
            inode_ok(*old(root), old(self).bm(), old(self).dev()),
            dir_wf(file_content(old(root)@, old(self).dev())),
            old(root).spec_id() == 1,
            old(root)@.length + 128 <= u32::MAX,
        ensures
            final(self).inv(),
            final(self).infallible() == old(self).infallible(),
            old(self).infallible() ==> !(r matches Err(e) && e == RfsError::Eio),
            allocated(final(self).bm(), 1) == allocated(old(self).bm(), 1),
            r matches Ok(_) ==> {
                let v = stored_view(final(self).dev(), 1);
                let c = file_content(v, final(self).dev());
                &&& v.mode == 0o040777
                &&& v.nlink == 1
                &&& v.uid == uid
                &&& v.gid == gid
                &&& v.atime == now && v.mtime == now && v.ctime == now
                &&& c == file_content(old(root)@, old(self).dev()) + spec_dir_item(1, seq![46u8])
                    + spec_dir_item(1, seq![46u8, 46u8])
                &&& dir_wf(c)
                &&& c == file_content(final(root)@, final(self).dev())
            },
            r matches Err(e) && e == RfsError::Enospc ==> bm_full(final(self).bm()),
            r matches Err(e) ==> e == RfsError::Enospc || e == RfsError::Eio || e
                == RfsError::Efbig,
    {
        match self.set_newly_created(root, now, uid, gid, 0o040777) {
            Ok(_) => (),
            Err(e) => {
                return Err(e);
            },
        }
        let mut dot: Vec<u8> = Vec::new();
        dot.push(46);
        proof {
            assert(dot@ =~= seq![46u8]);
        }
        match self.write_dir_item(1, root, dot.as_slice()) {
            Ok(_) => (),
            Err(e) => {
                proof {
                    assert(e != RfsError::Enametoolong);
                }
                return Err(e);
            },
        }
        dot.push(46);
        proof {
            assert(dot@ =~= seq![46u8, 46u8]);
        }
        match self.write_dir_item(1, root, dot.as_slice()) {
            Ok(_) => (),
            Err(e) => {
                proof {
                    assert(e != RfsError::Enametoolong);
                }
                return Err(e);
            },
        }
        proof {
            root.view_is_decode();
            assert(stored_view(self.dev(), 1) == root@);
        }
        Ok(())
    }

    /// Look a name up in a directory and return the attributes and
    /// generation of the inode it names.
    pub fn lookup_impl(&mut self, parent: &Inode, name: &[u8]) -> (r: Result<
        (FileAttr, u64),
        RfsError,
    >)
        requires
            old(self).inv(),
            dir_sound(*parent, old(self).bm(), old(self).dev()),
        ensures
            final(self).inv(),
            final(self).infallible() == old(self).infallible(),
            old(self).infallible() ==> !(r matches Err(e) && e == RfsError::Eio),
            final(self).bm() == old(self).bm(),
            dev_equiv(old(self).dev(), final(self).dev()),
            r matches Ok(p) ==> {
                let c = file_content(parent@, old(self).dev());
                exists|k: int|
                    {
                        &&& 0 <= k < dir_count(c)
                        &&& #[trigger] entry_name(c, k) == name@
                        &&& (forall|j: int| 0 <= j < k ==> #[trigger] entry_name(c, j) != name@)
                        &&& {
                            let v = stored_view(old(self).dev(), entry_ino(c, k));
                            &&& (spec_kind(v.mode) matches Ok(kind) && p.0 == spec_attr(
                                entry_ino(c, k),
                                v,
                                kind,
                            ))
                            &&& p.1 == v.generation
                        }
                    }
            },
            r matches Err(e) ==> e == RfsError::Eio || e == RfsError::Einval || (e
                == RfsError::Enoent && no_entry_named(
                file_content(parent@, old(self).dev()),
                name@,
            )),
    {
        let ghost c = file_content(parent@, old(self).dev());
        let (off, ino) = match self.lookup_item(parent, name) {
            Ok(p) => p,
            Err(e) => {
                return Err(e);
            },
        };
        let ghost d1 = self.dev();
        let inode = match self.file_mgr.read_inode(ino) {
            Ok(i) => i,
            Err(e) => {
                return Err(e);
            },
        };
        proof {
            assert(crate::block_io::dev_block(d1, ino as int + 1) == crate::block_io::dev_block(
                old(self).dev(),
                ino as int + 1,
            ));
            assert(inode@ == stored_view(old(self).dev(), ino));
        }
        let attr = match self.getattr_impl(&inode) {
            Ok(a) => a,
            Err(e) => {
                return Err(e);
            },
        };
        let generation = inode.generation();
        proof {
            assert(entry_name(c, off as int) == name@);
        }
        Ok((attr, generation))
    }

    /// Apply the optional attribute changes in order — mode, owner,
    /// size (as a truncation), times — then flush and return the new
    /// attributes.
    #[verifier::rlimit(100)]
    #[verifier::spinoff_prover]
    pub fn setattr_impl(
        &mut self,
        inode: &mut Inode,
        mode: Option<u32>,
        uid: Option<u32>,
        gid: Option<u32>,
        size: Option<u64>,
        atime: Option<TimeSpec>,
        mtime: Option<TimeSpec>,
        chgtime: Option<TimeSpec>,
    ) -> (r: Result<FileAttr, RfsError>)
        requires
            old(self).inv(),
            inode_ok(*old(inode), old(self).bm(), old(self).dev()),
        ensures
            final(self).inv(),
            final(self).infallible() == old(self).infallible(),
            old(self).infallible() ==> !(r matches Err(e) && e == RfsError::Eio),
            final(inode).wf(),
            final(inode).spec_id() == old(inode).spec_id(),
            crate::file_mgr::others_untouched(
                old(inode)@,
                old(inode).spec_id(),
                old(self).bm(),
                old(self).dev(),
                final(self).dev(),
            ),
            r matches Ok(a) ==> {
                &&& inode_ok(*final(inode), final(self).bm(), final(self).dev())
                &&& !final(inode).spec_dirty()
                &&& (mode matches Some(m) ==> final(inode)@.mode == m as u16)
                &&& (mode is None ==> final(inode)@.mode == old(inode)@.mode)
                &&& (uid matches Some(u) ==> final(inode)@.uid == u)
                &&& (uid is None ==> final(inode)@.uid == old(inode)@.uid)
                &&& (gid matches Some(g) ==> final(inode)@.gid == g)
                &&& (gid is None ==> final(inode)@.gid == old(inode)@.gid)
                &&& (size matches Some(sz) ==> final(inode)@.length == sz
                    && file_content(final(inode)@, final(self).dev())
                    == crate::file_mgr::truncate_result(
                    file_content(old(inode)@, old(self).dev()),
                    sz as int,
                ))
                &&& (size is None ==> final(inode)@.length == old(inode)@.length
                    && file_content(final(inode)@, final(self).dev()) == file_content(
                    old(inode)@,
                    old(self).dev(),
                ))
                &&& (atime matches Some(t) ==> final(inode)@.atime == t)
                &&& (atime is None ==> final(inode)@.atime == old(inode)@.atime)
                &&& (mtime matches Some(t) ==> final(inode)@.mtime == t)
                &&& (mtime is None ==> final(inode)@.mtime == old(inode)@.mtime)
                &&& (chgtime matches Some(t) ==> final(inode)@.ctime == t)
                &&& (chgtime is None ==> final(inode)@.ctime == old(inode)@.ctime)
                &&& (spec_kind(final(inode)@.mode) matches Ok(kind) && a == spec_attr(
                    final(inode).spec_id(),
                    final(inode)@,
                    kind,
                ))
            },
            r matches Err(e) ==> e == RfsError::Einval || e == RfsError::Efbig || e
                == RfsError::Eio,
    {
        if let Some(m) = mode {
            inode.set_mode(m as u16);
        }
        if let Some(u) = uid {
            inode.set_uid(u);
        }
        if let Some(g) = gid {
            inode.set_gid(g);
        }
        proof {
            inode.slots_len();
            crate::file_mgr::lemma_content_same_slots(old(inode)@, inode@, old(self).dev());
            assert(slots_ok(inode@, inode.spec_id(), self.bm()));
            assert(crate::file_mgr::tail_zero(inode@, self.dev()));
        }
        if let Some(sz) = size {
            if sz > u32::MAX as u64 {
                return Err(RfsError::Efbig);
            }
            match self.file_mgr.truncate_file(inode, sz as usize) {
                Ok(_) => (),
                Err(e) => {
                    return Err(e);
                },
            }
        }
        let ghost v_sz = inode@;
        let ghost dev_sz = self.dev();
        let ghost bm_sz = self.bm();
        proof {
            assert(inode_ok(*inode, self.bm(), self.dev()));
            match size {
                Some(sz) => {
                    assert(file_content(v_sz, dev_sz) == crate::file_mgr::truncate_result(
                        file_content(old(inode)@, old(self).dev()),
                        sz as int,
                    ));
                },
                None => {
                    assert(file_content(v_sz, dev_sz) == file_content(
                        old(inode)@,
                        old(self).dev(),
                    ));
                },
            }
        }
        if let Some(t) = atime {
            inode.set_atime(t);
        }
        if let Some(t) = mtime {
            inode.set_mtime(t);
        }
        if let Some(t) = chgtime {
            inode.set_ctime(t);
        }
        proof {
            crate::file_mgr::lemma_content_same_slots(v_sz, inode@, dev_sz);
            assert(slots_ok(inode@, inode.spec_id(), self.bm()));
            assert(crate::file_mgr::tail_zero(inode@, self.dev()));
        }
        let ghost v_before = inode@;
        let r = self.file_mgr.flush(inode);
        match r {
            Ok(_) => {
                proof {
                    crate::file_mgr::lemma_untouched_block(
                        inode@,
                        inode.spec_id(),
                        self.bm(),
                        dev_sz,
                        self.dev(),
                        inode.spec_id() as int + 1,
                    );
                    assert(file_content(inode@, self.dev()) == file_content(v_sz, dev_sz)) by {
                        assert(file_content(inode@, self.dev()) == file_content(inode@, dev_sz));
                        assert(file_content(inode@, dev_sz) == file_content(v_sz, dev_sz));
                    }
                    assert(crate::file_mgr::tail_zero(inode@, self.dev()));
                    assert(inode_ok(*inode, self.bm(), self.dev()));
                }
                self.getattr_impl(inode)
            },
            Err(e) => Err(e),
        }
    }

    /// Add a hard link: raise the link count and write a directory
    /// entry for the inode under `newname` in `newparent`.
    pub fn link_impl(&mut self, inode: &mut Inode, newparent: &mut Inode, newname: &[u8]) -> (r:
        Result<(FileAttr, u64), RfsError>)
        requires
            old(self).inv(),
            inode_ok(*old(inode), old(self).bm(), old(self).dev()),
            dir_sound(*old(newparent), old(self).bm(), old(self).dev()),
            old(newparent)@.length + 64 <= u32::MAX,
            old(inode)@.nlink < u16::MAX,
            old(inode).spec_id() != old(newparent).spec_id(),
            !is_slot(old(newparent)@, old(inode).spec_id() as int),
        ensures
            final(self).inv(),
            final(self).infallible() == old(self).infallible(),
            old(self).infallible() ==> !(r matches Err(e) && e == RfsError::Eio),
            final(inode).wf(),
            final(inode).spec_id() == old(inode).spec_id(),
            final(inode)@ == (InodeView {
                nlink: (old(inode)@.nlink + 1) as u16,
                ..old(inode)@
            }),
            r matches Ok(p) ==> {
                let c = file_content(old(newparent)@, old(self).dev());
                &&& newname@.len() <= MAX_NAME_LEN
                &&& file_content(final(newparent)@, final(self).dev()) == c + spec_dir_item(
                    old(inode).spec_id(),
                    newname@,
                )
                &&& (spec_kind(final(inode)@.mode) matches Ok(kind) && p.0 == spec_attr(
                    final(inode).spec_id(),
                    final(inode)@,
                    kind,
                ))
            },
            r matches Err(e) && e == RfsError::Enospc ==> bm_full(final(self).bm()),
            r matches Err(e) ==> {
                &&& (e == RfsError::Einval || e == RfsError::Enametoolong || e == RfsError::Enospc
                    || e == RfsError::Efbig || e == RfsError::Eio)
                &&& e == RfsError::Enametoolong ==> newname@.len() > MAX_NAME_LEN
                &&& e == RfsError::Einval ==> (spec_kind(old(inode)@.mode) matches Err(_))
            },
    {
        let n = inode.nlink();
        inode.set_nlink(n + 1);
        let r = self.file_mgr.flush(inode);
        match r {
            Ok(_) => (),
            Err(e) => {
                return Err(e);
            },
        }
        proof {
            newparent.slots_len();
            crate::file_mgr::lemma_untouched_block(
                newparent@,
                newparent.spec_id(),
                self.bm(),
                old(self).dev(),
                self.dev(),
                old(inode).spec_id() as int + 1,
            );
        }
        let attr = match self.getattr_impl(inode) {
            Ok(a) => a,
            Err(e) => {
                return Err(e);
            },
        };
        let generation = inode.generation();
        match self.write_dir_item(inode.id(), newparent, newname) {
            Ok(_) => Ok((attr, generation)),
            Err(e) => Err(e),
        }
    }

    /// Drop one link of an open inode: decrement its stored count, or
    /// free its block when the count is already at most one.
    fn drop_one_link(&mut self, child: Inode) -> (r: Result<(), RfsError>)
        requires
            old(self).inv(),
            child.wf(),
            !child.spec_dirty(),
            allocated(old(self).bm(), child.spec_id() as int),
            child@ == stored_view(old(self).dev(), child.spec_id()),
        ensures
            final(self).inv(),
            final(self).infallible() == old(self).infallible(),
            old(self).infallible() ==> !(r matches Err(e) && e == RfsError::Eio),
            forall|j: int|
                #[trigger] allocated(final(self).bm(), j) <==> (allocated(old(self).bm(), j) && !(j
                    == child.spec_id() && stored_view(old(self).dev(), child.spec_id()).nlink
                    <= 1)),
            forall|db: int|
                2 <= db && db != child.spec_id() as int + 1 ==> #[trigger] crate::block_io::dev_block(
                    final(self).dev(),
                    db,
                ) == crate::block_io::dev_block(old(self).dev(), db),
            r matches Ok(_) ==> link_dropped(
                old(self).bm(),
                old(self).dev(),
                final(self).bm(),
                final(self).dev(),
                child.spec_id(),
            ),
            r matches Err(e) ==> e == RfsError::Eio,
    {
        let mut child = child;
        let ghost t = child.spec_id();
        let nlink = child.nlink();
        if nlink > 1 {
            child.set_nlink(nlink - 1);
            let r = self.file_mgr.flush(&mut child);
            proof {
                if r is Ok {
                    child.view_is_decode();
                    assert(stored_view(self.dev(), t) == child@);
                }
            }
            r
        } else {
            self.file_mgr.del_inode(&child)
        }
    }

    /// Remove the entry `name` of `parent` and drop one link of the
    /// inode it names; the inode's block is freed when its link count
    /// reaches zero.  A directory with entries beyond `.` and `..` is
    /// refused with `Enotempty`, and an entry naming the directory
    /// itself with `Einval`.
    #[verifier::rlimit(100)]
    #[verifier::spinoff_prover]
    pub fn unlink_impl(&mut self, parent: &mut Inode, name: &[u8]) -> (r: Result<(), RfsError>)
        requires
            old(self).inv(),
            dir_sound(*old(parent), old(self).bm(), old(self).dev()),
        ensures
            final(self).inv(),
            final(self).infallible() == old(self).infallible(),
            old(self).infallible() ==> !(r matches Err(e) && e == RfsError::Eio),
            final(parent).wf(),
            final(parent).spec_id() == old(parent).spec_id(),
            r matches Ok(_) ==> {
                let c = file_content(old(parent)@, old(self).dev());
                let c2 = file_content(final(parent)@, final(self).dev());
                &&& dir_wf(c2)
                &&& inode_ok(*final(parent), final(self).bm(), final(self).dev())
                &&& exists|k: int|
                    {
                        &&& #[trigger] first_entry_named(c, name@, k)
                        &&& entry_removed_at(c, c2, k)
                        &&& entry_ino(c, k) != old(parent).spec_id()
                        &&& link_dropped(
                            old(self).bm(),
                            old(self).dev(),
                            final(self).bm(),
                            final(self).dev(),
                            entry_ino(c, k),
                        )
                        &&& forall|j: int|
                            #[trigger] allocated(old(self).bm(), j) && !is_slot(old(parent)@, j)
                                && j != entry_ino(c, k) as int ==> allocated(final(self).bm(), j)
                        &&& forall|db: int|
                            2 <= db && allocated(old(self).bm(), db - 1) && db != old(
                                parent,
                            ).spec_id() as int + 1 && db != entry_ino(c, k) as int + 1 && !is_slot(
                                old(parent)@,
                                db - 1,
                            ) ==> #[trigger] crate::block_io::dev_block(final(self).dev(), db)
                                == crate::block_io::dev_block(old(self).dev(), db)
                    }
            },
            ({
                let c = file_content(old(parent)@, old(self).dev());
                forall|k: int|
                    #[trigger] first_entry_named(c, name@, k) && entry_ino(c, k) != old(
                        parent,
                    ).spec_id() && spec_kind(stored_view(old(self).dev(), entry_ino(c, k)).mode)
                        == Ok::<FileType, RfsError>(FileType::Directory) && stored_view(
                        old(self).dev(),
                        entry_ino(c, k),
                    ).length > 128 ==> r == Err::<(), RfsError>(RfsError::Enotempty) || r == Err::<
                        (),
                        RfsError,
                    >(RfsError::Eio)
            }),
            ({
                let c = file_content(old(parent)@, old(self).dev());
                forall|k: int|
                    #[trigger] first_entry_named(c, name@, k) && entry_ino(c, k) == old(
                        parent,
                    ).spec_id() ==> r == Err::<(), RfsError>(RfsError::Einval) || r == Err::<
                        (),
                        RfsError,
                    >(RfsError::Eio)
            }),
            r matches Err(e) && e == RfsError::Enotempty ==> ({
                let c = file_content(old(parent)@, old(self).dev());
                exists|k: int|
                    {
                        &&& #[trigger] first_entry_named(c, name@, k)
                        &&& spec_kind(stored_view(old(self).dev(), entry_ino(c, k)).mode) == Ok::<
                            FileType,
                            RfsError,
                        >(FileType::Directory)
                        &&& stored_view(old(self).dev(), entry_ino(c, k)).length > 128
                    }
            }),
            r matches Err(e) && (e == RfsError::Enotempty || e == RfsError::Einval || e
                == RfsError::Enoent) ==> final(self).bm() == old(self).bm() && dev_equiv(
                old(self).dev(),
                final(self).dev(),
            ) && *final(parent) == *old(parent),
            r matches Err(e) && e == RfsError::Enospc ==> bm_full(final(self).bm()),
            r matches Err(e) ==> (e == RfsError::Enoent && no_entry_named(
                file_content(old(parent)@, old(self).dev()),
                name@,
            )) || e == RfsError::Enotempty || e == RfsError::Einval || e == RfsError::Enospc || e
                == RfsError::Efbig || e == RfsError::Eio,
    {
        let ghost c = file_content(old(parent)@, old(self).dev());
        let (off, ino) = match self.lookup_item(parent, name) {
            Ok(p) => p,
            Err(e) => {
                return Err(e);
            },
        };
        proof {
            assert(first_entry_named(c, name@, off as int));
        }
        if ino == parent.id() {
            // `.` cannot be unlinked
            return Err(RfsError::Einval);
        }
        let inode = match self.file_mgr.read_inode(ino) {
            Ok(i) => i,
            Err(e) => {
                return Err(e);
            },
        };
        proof {
            assert(inode@ == stored_view(old(self).dev(), ino));
        }
        let kind = match inode.kind() {
            Ok(k) => k,
            Err(e) => {
                return Err(e);
            },
        };
        if kind == FileType::Directory && inode.length() as usize > 2 * DIR_ITEM_SIZE {
            return Err(RfsError::Enotempty);
        }
        proof {
            crate::file_mgr::lemma_content_equiv(parent@, old(self).dev(), self.dev());
        }
        match self.erase_dir_item(parent, off) {
            Ok(_) => (),
            Err(e) => {
                return Err(e);
            },
        }
        proof {
            parent.slots_len();
            assert(!is_slot(parent@, ino as int)) by {
                if is_slot(parent@, ino as int) {
                    let i = choose|i: int|
                        0 <= i < blocks_of(parent@.length as int) && #[trigger] slot_at(parent@, i)
                            == ino;
                    if slot_at(parent@, i) == slot_at(old(parent)@, i) {
                        assert(is_slot(old(parent)@, ino as int)) by {
                            assert(blocks_of(parent@.length as int) <= blocks_of(
                                old(parent)@.length as int,
                            )) by {
                                vstd::arithmetic::div_mod::lemma_div_is_ordered(
                                    parent@.length + 4095,
                                    old(parent)@.length + 4095,
                                    4096,
                                );
                            }
                        }
                    }
                }
            }
            assert(allocated(self.bm(), ino as int)) by {
                assert(allocated(old(self).bm(), ino as int));
                assert(!is_slot(old(parent)@, ino as int));
            }
            assert(crate::block_io::dev_block(self.dev(), ino as int + 1)
                == crate::block_io::dev_block(old(self).dev(), ino as int + 1)) by {
                assert(!is_slot(old(parent)@, ino as int));
            }
            assert(inode@ == stored_view(self.dev(), ino));
        }
        let ghost bm_mid = self.bm();
        let ghost dev_mid = self.dev();
        let ghost v_mid = parent@;
        let ghost c_mid = file_content(parent@, self.dev());
        let r = self.drop_one_link(inode);
        proof {
            assert(parent.spec_id() != ino);
            assert forall|sl: int| #[trigger] is_slot(v_mid, sl) && allocated(bm_mid, sl) implies
                allocated(self.bm(), sl) by {
                assert(sl != ino as int);
            }
            crate::file_mgr::lemma_preserved(*parent, bm_mid, dev_mid, self.bm(), self.dev());
            assert forall|db: int|
                2 <= db && allocated(old(self).bm(), db - 1) && db != old(parent).spec_id() as int
                    + 1 && db != ino as int + 1 && !is_slot(old(parent)@, db - 1) implies
                #[trigger] crate::block_io::dev_block(self.dev(), db)
                == crate::block_io::dev_block(old(self).dev(), db) by {
                assert(crate::block_io::dev_block(dev_mid, db) == crate::block_io::dev_block(
                    old(self).dev(),
                    db,
                ));
            }
            if r is Ok {
                assert(link_dropped(old(self).bm(), old(self).dev(), self.bm(), self.dev(), ino))
                    by {
                    assert(stored_view(dev_mid, ino) == stored_view(old(self).dev(), ino));
                    assert(link_dropped(bm_mid, dev_mid, self.bm(), self.dev(), ino));
                    assert(forall|j: int|
                        #[trigger] allocated(bm_mid, j) ==> allocated(old(self).bm(), j) || !is_slot(
                            old(parent)@,
                            j,
                        ));
                    assert(allocated(bm_mid, ino as int) == allocated(old(self).bm(), ino as int));
                }
                assert(file_content(parent@, self.dev()) == c_mid);
                assert(entry_removed_at(c, file_content(parent@, self.dev()), off as int));
            }
        }
        match r {
            Ok(_) => Ok(()),
            Err(e) => Err(e),
        }
    }

    /// Allocate and stamp a fresh inode, with the parent's facts kept
    /// alive across the allocation.
    fn new_child(&mut self, parent: &Inode, now: TimeSpec, uid: u32, gid: u32, mode: u16) -> (r:
        Result<Inode, RfsError>)
        requires
            old(self).inv(),
            inode_ok(*parent, old(self).bm(), old(self).dev()),
        ensures
            final(self).inv(),
            final(self).infallible() == old(self).infallible(),
            old(self).infallible() ==> !(r matches Err(e) && e == RfsError::Eio),
            crate::file_mgr::bm_monotone(old(self).bm(), final(self).bm()),
            inode_ok(*parent, final(self).bm(), final(self).dev()),
            file_content(parent@, final(self).dev()) == file_content(parent@, old(self).dev()),
            r matches Ok(child) ==> {
                &&& child.wf()
                &&& !child.spec_dirty()
                &&& !allocated(old(self).bm(), child.spec_id() as int)
                &&& allocated(final(self).bm(), child.spec_id() as int)
                &&& child.spec_id() != parent.spec_id()
                &&& !is_slot(parent@, child.spec_id() as int)
                &&& inode_ok(child, final(self).bm(), final(self).dev())
                &&& child@ == (InodeView {
                    atime: now,
                    mtime: now,
                    ctime: now,
                    mode,
                    nlink: 1,
                    uid,
                    gid,
                    ..child@
                })
                &&& child@.length == 0
                &&& file_content(child@, final(self).dev()) == Seq::<u8>::empty()
                &&& crate::block_io::dev_block(final(self).dev(), child.spec_id() as int + 1)
                    == child.bytes()
                &&& forall|i: int| 0 <= i < crate::inode::DIRECT_BLK_CNT
                    ==> #[trigger] child@.slots[i] == 0
            },
            r matches Err(e) && e == RfsError::Enospc ==> bm_full(final(self).bm()),
            r matches Err(e) ==> e == RfsError::Enospc || e == RfsError::Eio,
    {
        let mut child = match self.file_mgr.new_inode() {
            Ok(c) => c,
            Err(e) => {
                proof {
                    crate::file_mgr::lemma_preserved(
                        *parent,
                        old(self).bm(),
                        old(self).dev(),
                        self.bm(),
                        self.dev(),
                    );
                }
                return Err(e);
            },
        };
        proof {
            crate::file_mgr::lemma_preserved(
                *parent,
                old(self).bm(),
                old(self).dev(),
                self.bm(),
                self.dev(),
            );
            assert(!is_slot(parent@, child.spec_id() as int)) by {
                if is_slot(parent@, child.spec_id() as int) {
                    let i = choose|i: int|
                        0 <= i < blocks_of(parent@.length as int) && #[trigger] slot_at(parent@, i)
                            == child.spec_id();
                    assert(allocated(old(self).bm(), slot_at(parent@, i) as int));
                }
            }
        }
        let ghost bm_mid = self.bm();
        let ghost dev_mid = self.dev();
        let r = self.set_newly_created(&mut child, now, uid, gid, mode);
        proof {
            crate::file_mgr::lemma_preserved(*parent, bm_mid, dev_mid, self.bm(), self.dev());
            if r is Ok {
                assert(file_content(child@, self.dev()) =~= Seq::<u8>::empty());
            }
        }
        match r {
            Ok(_) => Ok(child),
            Err(e) => Err(e),
        }
    }

    /// Create a regular file named `name` under `parent` and open it.
    pub fn create_impl(
        &mut self,
        parent: &mut Inode,
        name: &[u8],
        mode: u16,
        flags: u32,
        now: TimeSpec,
        uid: u32,
        gid: u32,
    ) -> (r: Result<(Inode, FileAttr, u64), RfsError>)
        requires
            old(self).inv(),
            dir_sound(*old(parent), old(self).bm(), old(self).dev()),
            old(parent)@.length + 64 <= u32::MAX,
        ensures
            final(self).inv(),
            final(self).infallible() == old(self).infallible(),
            old(self).infallible() ==> !(r matches Err(e) && e == RfsError::Eio),
            final(parent).spec_id() == old(parent).spec_id(),
            r matches Ok(p) ==> {
                let c = file_content(old(parent)@, old(self).dev());
                &&& !allocated(old(self).bm(), p.0.spec_id() as int)
                &&& allocated(final(self).bm(), p.0.spec_id() as int)
                &&& p.0@.mode == (S_IFREG | (mode & 0o7777))
                &&& p.0@.nlink == 1 && p.0@.uid == uid && p.0@.gid == gid
                &&& p.0@.length == 0
                &&& file_content(final(parent)@, final(self).dev()) == c + spec_dir_item(
                    p.0.spec_id(),
                    name@,
                )
                &&& p.1 == spec_attr(p.0.spec_id(), p.0@, FileType::RegularFile)
                &&& inode_ok(*final(parent), final(self).bm(), final(self).dev())
            },
            name@.len() > MAX_NAME_LEN ==> !(r matches Ok(_)),
            r matches Err(e) && e == RfsError::Enospc ==> bm_full(final(self).bm()),
            r matches Err(e) ==> {
                &&& (e == RfsError::Enospc || e == RfsError::Enametoolong || e == RfsError::Efbig
                    || e == RfsError::Eio || e == RfsError::Eperm)
                &&& e == RfsError::Enametoolong ==> name@.len() > MAX_NAME_LEN
            },
    {
        let inode = match self.new_child(parent, now, uid, gid, S_IFREG | (mode & 0o7777)) {
            Ok(c) => c,
            Err(e) => {
                return Err(e);
            },
        };
        proof {
            lemma_mode_fmt(mode);
        }
        let attr = match self.getattr_impl(&inode) {
            Ok(a) => a,
            Err(e) => {
                return Err(e);
            },
        };
        let generation = inode.generation();
        match self.write_dir_item(inode.id(), parent, name) {
            Ok(_) => (),
            Err(e) => {
                return Err(e);
            },
        }
        match Rfs::<T>::check_perm(uid, gid, &inode, flags) {
            Ok(_) => Ok((inode, attr, generation)),
            Err(e) => Err(e),
        }
    }

    /// Write the `.` and `..` entries of a fresh directory.
    fn add_dot_entries(&mut self, dir: &mut Inode, parent_id: Id) -> (r: Result<(), RfsError>)
        requires
            old(self).inv(),
            inode_ok(*old(dir), old(self).bm(), old(self).dev()),
            file_content(old(dir)@, old(self).dev()) == Seq::<u8>::empty(),
            old(dir)@.length == 0,
        ensures
            final(self).inv(),
            final(self).infallible() == old(self).infallible(),
            old(self).infallible() ==> !(r matches Err(e) && e == RfsError::Eio),
            final(dir).wf(),
            final(dir).spec_id() == old(dir).spec_id(),
            crate::file_mgr::meta_eq(final(dir)@, old(dir)@),
            crate::file_mgr::bm_monotone(old(self).bm(), final(self).bm()),
            crate::file_mgr::others_untouched(
                old(dir)@,
                old(dir).spec_id(),
                old(self).bm(),
                old(self).dev(),
                final(self).dev(),
            ),
            forall|k: int|
                0 <= k < crate::inode::DIRECT_BLK_CNT && #[trigger] slot_at(final(dir)@, k)
                    != slot_at(old(dir)@, k) ==> !allocated(
                    old(self).bm(),
                    slot_at(final(dir)@, k) as int,
                ),
            r matches Ok(_) ==> {
                let c = file_content(final(dir)@, final(self).dev());
                &&& c == spec_dir_item(old(dir).spec_id(), seq![46u8]) + spec_dir_item(
                    parent_id,
                    seq![46u8, 46u8],
                )
                &&& dir_wf(c)
                &&& inode_ok(*final(dir), final(self).bm(), final(self).dev())
                &&& !final(dir).spec_dirty()
                &&& crate::block_io::dev_block(final(self).dev(), old(dir).spec_id() as int + 1)
                    == final(dir).bytes()
            },
            r matches Err(e) && e == RfsError::Enospc ==> bm_full(final(self).bm()),
            r matches Err(e) && e == RfsError::Enospc ==> bm_full(final(self).bm()),
            r matches Err(e) ==> e == RfsError::Enospc || e == RfsError::Efbig || e
                == RfsError::Eio,
    {
        let self_id = dir.id();
        let mut dot: Vec<u8> = Vec::new();
        dot.push(46);
        proof {
            assert(dot@ =~= seq![46u8]);
            assert(dir_wf(file_content(old(dir)@, old(self).dev())));
        }
        let r1 = self.write_dir_item(self_id, dir, dot.as_slice());
        match r1 {
            Ok(_) => (),
            Err(e) => {
                proof {
                    assert(e != RfsError::Enametoolong);
                }
                return Err(e);
            },
        }
        let ghost bm_m = self.bm();
        let ghost dev_m = self.dev();
        let ghost v_m = dir@;
        dot.push(46);
        proof {
            assert(dot@ =~= seq![46u8, 46u8]);
        }
        let r = self.write_dir_item(parent_id, dir, dot.as_slice());
        proof {
            assert forall|db: int|
                2 <= db && allocated(old(self).bm(), db - 1) && db != old(dir).spec_id() as int + 1
                    && !is_slot(old(dir)@, db - 1) implies #[trigger] crate::block_io::dev_block(
                self.dev(),
                db,
            ) == crate::block_io::dev_block(old(self).dev(), db) by {
                assert(allocated(bm_m, db - 1));
                assert(!is_slot(v_m, db - 1)) by {
                    if is_slot(v_m, db - 1) {
                        let i = choose|i: int|
                            0 <= i < blocks_of(v_m.length as int) && #[trigger] slot_at(v_m, i)
                                == db - 1;
                        if slot_at(v_m, i) == slot_at(old(dir)@, i) {
                            assert(slot_at(old(dir)@, i) == 0) by {
                                if 0 <= i < blocks_of(old(dir)@.length as int) {
                                } else {
                                    assert(slot_at(old(dir)@, i) == 0);
                                }
                            }
                        } else {
                            assert(!allocated(old(self).bm(), db - 1));
                        }
                    }
                }
                assert(crate::block_io::dev_block(dev_m, db) == crate::block_io::dev_block(
                    old(self).dev(),
                    db,
                ));
            }
            assert forall|k: int|
                0 <= k < crate::inode::DIRECT_BLK_CNT && #[trigger] slot_at(dir@, k) != slot_at(
                    old(dir)@,
                    k,
                ) implies !allocated(old(self).bm(), slot_at(dir@, k) as int) by {
                if slot_at(dir@, k) == slot_at(v_m, k) {
                } else {
                    assert(!allocated(bm_m, slot_at(dir@, k) as int));
                }
            }
        }
        match r {
            Ok(_) => {
                proof {
                    assert(file_content(dir@, self.dev()) =~= spec_dir_item(
                        old(dir).spec_id(),
                        seq![46u8],
                    ) + spec_dir_item(parent_id, seq![46u8, 46u8]));
                }
                Ok(())
            },
            Err(e) => {
                proof {
                    assert(e != RfsError::Enametoolong);
                }
                Err(e)
            },
        }
    }

    /// Create a directory named `name` under `parent`, with its `.`
    /// and `..` entries written.
    pub fn mkdir_impl(
        &mut self,
        parent: &mut Inode,
        name: &[u8],
        mode: u16,
        now: TimeSpec,
        uid: u32,
        gid: u32,
    ) -> (r: Result<(FileAttr, u64), RfsError>)
        requires
            old(self).inv(),
            dir_sound(*old(parent), old(self).bm(), old(self).dev()),
            old(parent)@.length + 64 <= u32::MAX,
        ensures
            final(self).inv(),
            final(self).infallible() == old(self).infallible(),
            old(self).infallible() ==> !(r matches Err(e) && e == RfsError::Eio),
            final(parent).spec_id() == old(parent).spec_id(),
            r matches Ok(p) ==> {
                let c = file_content(old(parent)@, old(self).dev());
                exists|child: Id|
                    {
                        &&& !allocated(old(self).bm(), child as int)
                        &&& allocated(final(self).bm(), child as int)
                        &&& #[trigger] stored_view(final(self).dev(), child).mode == (S_IFDIR | (
                        mode & 0o7777))
                        &&& stored_view(final(self).dev(), child).nlink == 1
                        &&& stored_view(final(self).dev(), child).uid == uid
                        &&& stored_view(final(self).dev(), child).gid == gid
                        &&& file_content(
                            stored_view(final(self).dev(), child),
                            final(self).dev(),
                        ) == spec_dir_item(child, seq![46u8]) + spec_dir_item(
                            old(parent).spec_id(),
                            seq![46u8, 46u8],
                        )
                        &&& file_content(final(parent)@, final(self).dev()) == c + spec_dir_item(
                            child,
                            name@,
                        )
                        &&& p.0 == spec_attr(
                            child,
                            stored_view(final(self).dev(), child),
                            FileType::Directory,
                        )
                    }
            },
            name@.len() > MAX_NAME_LEN ==> !(r matches Ok(_)),
            r matches Err(e) && e == RfsError::Enospc ==> bm_full(final(self).bm()),
            r matches Err(e) ==> {
                &&& (e == RfsError::Enospc || e == RfsError::Enametoolong || e == RfsError::Efbig
                    || e == RfsError::Eio)
                &&& e == RfsError::Enametoolong ==> name@.len() > MAX_NAME_LEN
            },
    {
        let mut inode = match self.new_child(parent, now, uid, gid, S_IFDIR | (mode & 0o7777)) {
            Ok(c) => c,
            Err(e) => {
                return Err(e);
            },
        };
        proof {
            lemma_mode_fmt(mode);
        }
        let ghost bm1 = self.bm();
        let ghost dev1 = self.dev();
        let ghost v_child0 = inode@;
        let ghost child_id = inode.spec_id();
        let parent_id = parent.id();
        let r = self.add_dot_entries(&mut inode, parent_id);
        proof {
            assert forall|db: int|
                2 <= db && allocated(bm1, db - 1) && (db == parent.spec_id() as int + 1 || is_slot(
                    parent@,
                    db - 1,
                )) implies #[trigger] crate::block_io::dev_block(self.dev(), db)
                == crate::block_io::dev_block(dev1, db) by {
                assert(db != child_id as int + 1) by {
                    if db != parent.spec_id() as int + 1 {
                        let i = choose|i: int|
                            0 <= i < blocks_of(parent@.length as int) && #[trigger] slot_at(
                                parent@,
                                i,
                            ) == db - 1;
                        assert(allocated(old(self).bm(), db - 1));
                    }
                }
                assert(blocks_of(v_child0.length as int) == 0);
                assert(!is_slot(v_child0, db - 1));
            }
            crate::file_mgr::lemma_preserved(*parent, bm1, dev1, self.bm(), self.dev());
        }
        match r {
            Ok(_) => (),
            Err(e) => {
                return Err(e);
            },
        }
        let attr = match self.getattr_impl(&inode) {
            Ok(a) => a,
            Err(e) => {
                return Err(e);
            },
        };
        let generation = inode.generation();
        let ghost bm2 = self.bm();
        let ghost dev2 = self.dev();
        let r = self.write_dir_item(inode.id(), parent, name);
        proof {
            if r is Ok {
                assert forall|db: int|
                    2 <= db && allocated(bm2, db - 1) && (db == child_id as int + 1 || is_slot(
                        inode@,
                        db - 1,
                    )) implies #[trigger] crate::block_io::dev_block(self.dev(), db)
                    == crate::block_io::dev_block(dev2, db) by {
                    assert(db != parent.spec_id() as int + 1) by {
                        if db == child_id as int + 1 {
                        } else {
                            let i = choose|i: int|
                                0 <= i < blocks_of(inode@.length as int) && #[trigger] slot_at(
                                    inode@,
                                    i,
                                ) == db - 1;
                            assert(slot_at(inode@, i) != slot_at(v_child0, i) ==> !allocated(
                                bm1,
                                db - 1,
                            ));
                            assert(allocated(old(self).bm(), parent.spec_id() as int));
                        }
                    }
                    assert(!is_slot(parent@, db - 1)) by {
                        if is_slot(parent@, db - 1) {
                            let i = choose|i: int|
                                0 <= i < blocks_of(parent@.length as int) && #[trigger] slot_at(
                                    parent@,
                                    i,
                                ) == db - 1;
                            assert(allocated(old(self).bm(), db - 1));
                            if db == child_id as int + 1 {
                                assert(!allocated(old(self).bm(), child_id as int));
                            } else {
                                let j = choose|j: int|
                                    0 <= j < blocks_of(inode@.length as int) && #[trigger] slot_at(
                                        inode@,
                                        j,
                                    ) == db - 1;
                                assert(slot_at(inode@, j) != slot_at(v_child0, j) ==> !allocated(
                                    bm1,
                                    db - 1,
                                ));
                            }
                        }
                    }
                }
                crate::file_mgr::lemma_preserved(inode, bm2, dev2, self.bm(), self.dev());
                inode.view_is_decode();
                assert(crate::block_io::dev_block(self.dev(), child_id as int + 1)
                    == crate::block_io::dev_block(dev2, child_id as int + 1));
                assert(stored_view(self.dev(), child_id) == inode@);
            }
        }
        match r {
            Ok(_) => Ok((attr, generation)),
            Err(e) => Err(e),
        }
    }

    /// Create a symbolic link named `name` under `parent` whose
    /// target path is `link`.  The returned attributes are taken
    /// before the target bytes are written, so their size is zero.
    pub fn symlink_impl(
        &mut self,
        parent: &mut Inode,
        name: &[u8],
        link: &[u8],
        now: TimeSpec,
        uid: u32,
        gid: u32,
    ) -> (r: Result<(FileAttr, u64), RfsError>)
        requires
            old(self).inv(),
            dir_sound(*old(parent), old(self).bm(), old(self).dev()),
            old(parent)@.length + 64 <= u32::MAX,
        ensures
            final(self).inv(),
            final(self).infallible() == old(self).infallible(),
            old(self).infallible() ==> !(r matches Err(e) && e == RfsError::Eio),
            final(parent).spec_id() == old(parent).spec_id(),
            r matches Ok(p) ==> {
                let c = file_content(old(parent)@, old(self).dev());
                exists|child: Id|
                    {
                        &&& !allocated(old(self).bm(), child as int)
                        &&& allocated(final(self).bm(), child as int)
                        &&& #[trigger] stored_view(final(self).dev(), child).mode == (S_IFLNK
                            | 0o777)
                        &&& stored_view(final(self).dev(), child).length == link@.len()
                        &&& file_content(
                            stored_view(final(self).dev(), child),
                            final(self).dev(),
                        ) == link@
                        &&& file_content(final(parent)@, final(self).dev()) == c + spec_dir_item(
                            child,
                            name@,
                        )
                        &&& p.0.ino == child as u64 && p.0.kind == FileType::Symlink && p.0.size
                            == 0 && p.0.nlink == 1 && p.0.uid == uid && p.0.gid == gid
                    }
            },
            name@.len() > MAX_NAME_LEN ==> !(r matches Ok(_)),
            r matches Err(e) && e == RfsError::Enospc ==> bm_full(final(self).bm()),
            r matches Err(e) ==> {
                &&& (e == RfsError::Enospc || e == RfsError::Enametoolong || e == RfsError::Efbig
                    || e == RfsError::Eio)
                &&& e == RfsError::Enametoolong ==> name@.len() > MAX_NAME_LEN
            },
    {
        if link.len() > u32::MAX as usize {
            return Err(RfsError::Efbig);
        }
        let mut inode = match self.new_child(parent, now, uid, gid, S_IFLNK | 0o777) {
            Ok(c) => c,
            Err(e) => {
                return Err(e);
            },
        };
        proof {
            lemma_mode_fmt(0);
        }
        let ghost child_id = inode.spec_id();
        let ghost v_child0 = inode@;
        let ghost bm1 = self.bm();
        let ghost dev1 = self.dev();
        let attr = match self.getattr_impl(&inode) {
            Ok(a) => a,
            Err(e) => {
                return Err(e);
            },
        };
        let generation = inode.generation();
        let r = self.write_dir_item(inode.id(), parent, name);
        proof {
            if r is Ok {
                assert forall|db: int|
                    2 <= db && allocated(bm1, db - 1) && (db == child_id as int + 1 || is_slot(
                        inode@,
                        db - 1,
                    )) implies #[trigger] crate::block_io::dev_block(self.dev(), db)
                    == crate::block_io::dev_block(dev1, db) by {
                    assert(blocks_of(v_child0.length as int) == 0);
                    assert(db == child_id as int + 1);
                    assert(db != parent.spec_id() as int + 1);
                    assert(!is_slot(parent@, db - 1)) by {
                        if is_slot(parent@, db - 1) {
                            let i = choose|i: int|
                                0 <= i < blocks_of(parent@.length as int) && #[trigger] slot_at(
                                    parent@,
                                    i,
                                ) == db - 1;
                            assert(allocated(old(self).bm(), db - 1));
                            assert(!allocated(old(self).bm(), child_id as int));
                        }
                    }
                }
                crate::file_mgr::lemma_preserved(inode, bm1, dev1, self.bm(), self.dev());
            }
        }
        match r {
            Ok(_) => (),
            Err(e) => {
                return Err(e);
            },
        }
        let ghost bm2 = self.bm();
        let ghost dev2 = self.dev();
        let ghost v_parent2 = parent@;
        match self.file_mgr.truncate_file(&mut inode, link.len()) {
            Ok(_) => (),
            Err(e) => {
                return Err(e);
            },
        }
        let ghost b_t = inode.bytes();
        let ghost dev_t = self.dev();
        match self.file_mgr.write_file(&mut inode, 0, link) {
            Ok(_) => (),
            Err(e) => {
                return Err(e);
            },
        }
        proof {
            // the child's data lives in fresh blocks; the parent is untouched
            let bm3 = self.bm();
            let dev3 = self.dev();
            assert forall|db: int|
                2 <= db && allocated(bm2, db - 1) && (db == parent.spec_id() as int + 1 || is_slot(
                    v_parent2,
                    db - 1,
                )) implies #[trigger] crate::block_io::dev_block(dev3, db)
                == crate::block_io::dev_block(dev2, db) by {
                assert(db != child_id as int + 1) by {
                    if db != parent.spec_id() as int + 1 {
                        let i = choose|i: int|
                            0 <= i < blocks_of(v_parent2.length as int) && #[trigger] slot_at(
                                v_parent2,
                                i,
                            ) == db - 1;
                        assert(slot_at(v_parent2, i) != slot_at(old(parent)@, i) ==> !allocated(
                            old(self).bm(),
                            db - 1,
                        ));
                        assert(!allocated(old(self).bm(), child_id as int));
                    }
                }
                assert(blocks_of(v_child0.length as int) == 0);
                assert(!is_slot(v_child0, db - 1));
            }
            crate::file_mgr::lemma_preserved(*parent, bm2, dev2, bm3, dev3);
            // the written link is the whole content of the child
            assert(file_content(inode@, self.dev()) =~= link@);
            inode.view_is_decode();
            assert(crate::block_io::dev_block(self.dev(), child_id as int + 1)
                == inode.bytes()) by {
                if inode.bytes() == b_t {
                    assert(crate::block_io::dev_block(dev_t, child_id as int + 1) == b_t);
                }
            }
            assert(stored_view(self.dev(), child_id) == inode@);
        }
        Ok((attr, generation))
    }

    /// List the entries of a directory from entry number `offset` on:
    /// each entry's inode id, file type and name.
    pub fn readdir_impl(&mut self, inode: &Inode, offset: i64) -> (r: Result<
        Vec<(Id, FileType, Vec<u8>)>,
        RfsError,
    >)
        requires
            old(self).inv(),
            dir_sound(*inode, old(self).bm(), old(self).dev()),
        ensures
            final(self).inv(),
            final(self).infallible() == old(self).infallible(),
            old(self).infallible() ==> !(r matches Err(e) && e == RfsError::Eio),
            final(self).bm() == old(self).bm(),
            dev_equiv(old(self).dev(), final(self).dev()),
            r matches Ok(list) ==> {
                let c = file_content(inode@, old(self).dev());
                &&& offset >= 0
                &&& (offset <= dir_count(c) ==> list@.len() == dir_count(c) - offset)
                &&& (offset > dir_count(c) ==> list@.len() == 0)
                &&& forall|i: int|
                    0 <= i < list@.len() ==> {
                        &&& (#[trigger] list@[i]).0 == entry_ino(c, offset + i)
                        &&& list@[i].2@ == entry_name(c, offset + i)
                        &&& spec_kind(
                            stored_view(old(self).dev(), entry_ino(c, offset + i)).mode,
                        ) == Ok::<FileType, RfsError>(list@[i].1)
                    }
            },
            offset < 0 ==> (r matches Err(e) && e == RfsError::Einval),
            r matches Err(e) ==> e == RfsError::Eio || (e == RfsError::Einval && (offset < 0 || (
            exists|k: int|
                0 <= k < dir_count(file_content(inode@, old(self).dev()))
                    && spec_kind(
                    stored_view(
                        old(self).dev(),
                        #[trigger] entry_ino(file_content(inode@, old(self).dev()), k),
                    ).mode,
                ) matches Err(_)))),
    {
        if offset < 0 {
            return Err(RfsError::Einval);
        }
        let ghost c = file_content(inode@, old(self).dev());
        let length = inode.length() as usize;
        let count = length / DIR_ITEM_SIZE;
        let mut list: Vec<(Id, FileType, Vec<u8>)> = Vec::new();
        if offset as u64 > count as u64 {
            return Ok(list);
        }
        let mut pos = offset as usize;
        proof {
            assert(count == dir_count(c));
        }
        while pos < count
            invariant
                self.inv(),
                self.infallible() == old(self).infallible(),
                self.bm() == old(self).bm(),
                dev_equiv(old(self).dev(), self.dev()),
                dir_sound(*inode, old(self).bm(), old(self).dev()),
                c == file_content(inode@, old(self).dev()),
                count == dir_count(c),
                length == inode@.length,
                0 <= offset <= pos <= count,
                list@.len() == pos - offset,
                forall|i: int|
                    0 <= i < list@.len() ==> {
                        &&& (#[trigger] list@[i]).0 == entry_ino(c, offset + i)
                        &&& list@[i].2@ == entry_name(c, offset + i)
                        &&& spec_kind(
                            stored_view(old(self).dev(), entry_ino(c, offset + i)).mode,
                        ) == Ok::<FileType, RfsError>(list@[i].1)
                    },
            decreases count - pos,
        {
            proof {
                crate::file_mgr::lemma_content_equiv(inode@, old(self).dev(), self.dev());
                assert(64 * pos + 64 <= length) by {
                    vstd::arithmetic::div_mod::lemma_fundamental_div_mod(length as int, 64);
                }
            }
            let item = match self.file_mgr.read_file(inode, pos * DIR_ITEM_SIZE, DIR_ITEM_SIZE) {
                Ok(v) => v,
                Err(e) => {
                    return Err(e);
                },
            };
            proof {
                assert(item@ =~= c.subrange(64 * pos, 64 * pos + 64));
                assert(item@[2] == c[64 * pos + 2]);
            }
            let (ino, nm) = Rfs::<T>::parse_dir_item(&item);
            proof {
                assert(ino == entry_ino(c, pos as int));
                assert(nm@ =~= entry_name(c, pos as int));
            }
            let ghost d1 = self.dev();
            let child = match self.file_mgr.read_inode(ino) {
                Ok(i) => i,
                Err(e) => {
                    return Err(e);
                },
            };
            proof {
                assert(crate::block_io::dev_block(d1, ino as int + 1)
                    == crate::block_io::dev_block(old(self).dev(), ino as int + 1));
                assert(child@ == stored_view(old(self).dev(), ino));
            }
            let kind = match child.kind() {
                Ok(k) => k,
                Err(e) => {
                    return Err(e);
                },
            };
            list.push((ino, kind, nm));
            pos = pos + 1;
        }
        Ok(list)
    }

    /// Rename within one directory: erase the entry `name` first, so
    /// the appended entry `newname` names the same inode; any entry
    /// already named `newname` is displaced.
    #[verifier::rlimit(100)]
    pub fn rename_within(&mut self, parent: &mut Inode, name: &[u8], newname: &[u8]) -> (r: Result<
        (),
        RfsError,
    >)
        requires
            old(self).inv(),
            inode_ok(*old(parent), old(self).bm(), old(self).dev()),
            dir_wf(file_content(old(parent)@, old(self).dev())),
        ensures
            final(self).inv(),
            final(self).infallible() == old(self).infallible(),
            old(self).infallible() ==> !(r matches Err(e) && e == RfsError::Eio),
            final(parent).wf(),
            final(parent).spec_id() == old(parent).spec_id(),
            r matches Ok(_) ==> {
                let c2 = file_content(final(parent)@, final(self).dev());
                let c = file_content(old(parent)@, old(self).dev());
                &&& dir_count(c2) >= 1
                &&& entry_name(c2, dir_count(c2) - 1) == newname@
                &&& (name_unique(c, name@) && newname@ != name@ ==> no_entry_named(c2, name@))
                &&& exists|k: int|
                    0 <= k < dir_count(c) && #[trigger] entry_name(c, k) == name@ && entry_ino(
                        c,
                        k,
                    ) == entry_ino(c2, dir_count(c2) - 1)
            },
            r matches Ok(_) ==> forall|j: int|
                #[trigger] allocated(old(self).bm(), j) && !is_slot(old(parent)@, j) ==> allocated(
                    final(self).bm(),
                    j,
                ) && !is_slot(final(parent)@, j),
            r matches Ok(_) ==> forall|db: int|
                2 <= db && allocated(old(self).bm(), db - 1) && db != old(parent).spec_id() as int
                    + 1 && !is_slot(old(parent)@, db - 1)
                    ==> #[trigger] crate::block_io::dev_block(final(self).dev(), db)
                    == crate::block_io::dev_block(old(self).dev(), db),
            newname@.len() > MAX_NAME_LEN ==> !(r matches Ok(_)),
            r matches Err(e) && e == RfsError::Enospc ==> bm_full(final(self).bm()),
            r matches Err(e) ==> {
                &&& (e == RfsError::Enoent && no_entry_named(
                    file_content(old(parent)@, old(self).dev()),
                    name@,
                )) || e == RfsError::Enametoolong || e == RfsError::Enospc || e == RfsError::Efbig
                    || e == RfsError::Eio
                &&& e == RfsError::Enametoolong ==> newname@.len() > MAX_NAME_LEN
            },
    {
        let ghost c = file_content(old(parent)@, old(self).dev());
        let ghost dev_0 = self.dev();
        let (off, ino) = match self.lookup_item(parent, name) {
            Ok(p) => p,
            Err(e) => {
                return Err(e);
            },
        };
        proof {
            crate::file_mgr::lemma_content_equiv(parent@, dev_0, self.dev());
        }
        match self.erase_dir_item(parent, off) {
            Ok(_) => (),
            Err(e) => {
                return Err(e);
            },
        }
        proof {
            if name_unique(c, name@) {
                let c1 = file_content(parent@, self.dev());
                assert forall|j: int| 0 <= j < dir_count(c1) implies #[trigger] entry_name(c1, j)
                    != name@ by {
                    if j != off {
                        assert(entry_name(c1, j) == entry_name(c, j));
                    } else {
                        assert(entry_name(c1, j) == entry_name(c, dir_count(c) - 1));
                    }
                }
                assert(no_entry_named(c1, name@));
            }
            assert forall|j: int|
                #[trigger] allocated(old(self).bm(), j) && !is_slot(old(parent)@, j) implies
                allocated(self.bm(), j) && !is_slot(parent@, j) && (j
                != old(parent).spec_id() as int ==> crate::block_io::dev_block(self.dev(), j + 1)
                == crate::block_io::dev_block(old(self).dev(), j + 1)) by {
                lemma_dir_step_preserves(
                    j,
                    old(parent)@,
                    parent@,
                    old(parent).spec_id(),
                    old(self).bm(),
                    self.bm(),
                    dev_0,
                    self.dev(),
                );
                assert(crate::block_io::dev_block(dev_0, j + 1) == crate::block_io::dev_block(
                    old(self).dev(),
                    j + 1,
                ));
            }
        }
        let ghost v_b = parent@;
        let ghost bm_b = self.bm();
        let ghost dev_b = self.dev();
        let ghost dev_1 = self.dev();
        match self.lookup_item(parent, newname) {
            Ok(p) => {
                proof {
                    crate::file_mgr::lemma_content_equiv(parent@, dev_1, self.dev());
                }
                let ghost dev_l2 = self.dev();
                match self.erase_dir_item(parent, p.0) {
                    Ok(_) => (),
                    Err(e) => {
                        return Err(e);
                    },
                }
                proof {
                    assert forall|j: int|
                        #[trigger] allocated(bm_b, j) && !is_slot(v_b, j) implies allocated(
                        self.bm(),
                        j,
                    ) && !is_slot(parent@, j) && (j != old(parent).spec_id() as int
                        ==> crate::block_io::dev_block(self.dev(), j + 1)
                        == crate::block_io::dev_block(dev_b, j + 1)) by {
                        lemma_dir_step_preserves(
                            j,
                            v_b,
                            parent@,
                            old(parent).spec_id(),
                            bm_b,
                            self.bm(),
                            dev_l2,
                            self.dev(),
                        );
                        assert(crate::block_io::dev_block(dev_l2, j + 1)
                            == crate::block_io::dev_block(dev_b, j + 1));
                    }
                }
            },
            Err(RfsError::Enoent) => {
                proof {
                    crate::file_mgr::lemma_content_equiv(parent@, dev_1, self.dev());
                    assert forall|j: int|
                        #[trigger] allocated(bm_b, j) && !is_slot(v_b, j) implies allocated(
                        self.bm(),
                        j,
                    ) && !is_slot(parent@, j) && (j != old(parent).spec_id() as int
                        ==> crate::block_io::dev_block(self.dev(), j + 1)
                        == crate::block_io::dev_block(dev_b, j + 1)) by {
                        assert(crate::block_io::dev_block(self.dev(), j + 1)
                            == crate::block_io::dev_block(dev_b, j + 1));
                    }
                }
            },
            Err(e) => {
                return Err(e);
            },
        }
        proof {
            if name_unique(c, name@) {
                let c1 = file_content(parent@, self.dev());
                assert forall|j: int| 0 <= j < dir_count(c1) implies #[trigger] entry_name(c1, j)
                    != name@ by {}
                assert(no_entry_named(c1, name@));
            }
        }
        let ghost c_mid = file_content(parent@, self.dev());
        let ghost v_c = parent@;
        let ghost bm_c = self.bm();
        let ghost dev_c = self.dev();
        let r = self.write_dir_item(ino, parent, newname);
        proof {
            if r is Ok {
                assert forall|j: int|
                    #[trigger] allocated(old(self).bm(), j) && !is_slot(old(parent)@, j) implies
                    allocated(self.bm(), j) && !is_slot(parent@, j) && (j
                    != old(parent).spec_id() as int ==> crate::block_io::dev_block(
                    self.dev(),
                    j + 1,
                ) == crate::block_io::dev_block(old(self).dev(), j + 1)) by {
                    assert(allocated(bm_b, j) && !is_slot(v_b, j));
                    assert(allocated(bm_c, j) && !is_slot(v_c, j));
                    lemma_dir_step_preserves(
                        j,
                        v_c,
                        parent@,
                        old(parent).spec_id(),
                        bm_c,
                        self.bm(),
                        dev_c,
                        self.dev(),
                    );
                }
                assert forall|db: int|
                    2 <= db && allocated(old(self).bm(), db - 1) && db != old(
                        parent,
                    ).spec_id() as int + 1 && !is_slot(old(parent)@, db - 1) implies
                    #[trigger] crate::block_io::dev_block(self.dev(), db)
                    == crate::block_io::dev_block(old(self).dev(), db) by {
                    let j = db - 1;
                    assert(allocated(old(self).bm(), j) && !is_slot(old(parent)@, j));
                }
                lemma_appended_entry(c_mid, ino, newname@);
                if name_unique(c, name@) && newname@ != name@ {
                    let c3 = file_content(parent@, self.dev());
                    assert forall|j: int| 0 <= j < dir_count(c3) implies #[trigger] entry_name(
                        c3,
                        j,
                    ) != name@ by {
                        if j < dir_count(c_mid) {
                            assert(entry_name(c3, j) =~= entry_name(c_mid, j)) by {
                                assert(c_mid.len() == 64 * dir_count(c_mid)) by {
                                    vstd::arithmetic::div_mod::lemma_fundamental_div_mod(
                                        c_mid.len() as int,
                                        64,
                                    );
                                }
                                assert(c3[64 * j + 2] == c_mid[64 * j + 2]);
                            }
                        } else {
                            assert(j == dir_count(c3) - 1);
                        }
                    }
                    assert(no_entry_named(c3, name@));
                }
            }
        }
        match r {
            Ok(_) => Ok(()),
            Err(e) => Err(e),
        }
    }

    /// Rename across two directories: erase the entry `name` of
    /// `parent` and append it under `newname` in `newparent`,
    /// displacing any entry already so named.
    #[verifier::rlimit(100)]
    pub fn rename_across(
        &mut self,
        parent: &mut Inode,
        name: &[u8],
        newparent: &mut Inode,
        newname: &[u8],
    ) -> (r: Result<(), RfsError>)
        requires
            old(self).inv(),
            inode_ok(*old(parent), old(self).bm(), old(self).dev()),
            dir_wf(file_content(old(parent)@, old(self).dev())),
            inode_ok(*old(newparent), old(self).bm(), old(self).dev()),
            dir_wf(file_content(old(newparent)@, old(self).dev())),
            old(newparent)@.length + 64 <= u32::MAX,
            old(parent).spec_id() != old(newparent).spec_id(),
            !is_slot(old(parent)@, old(newparent).spec_id() as int),
            !is_slot(old(newparent)@, old(parent).spec_id() as int),
            forall|i: int, j: int|
                0 <= i < blocks_of(old(parent)@.length as int) && 0 <= j < blocks_of(
                    old(newparent)@.length as int,
                ) && #[trigger] slot_at(old(parent)@, i) != 0 ==> slot_at(old(parent)@, i)
                    != #[trigger] slot_at(old(newparent)@, j),
        ensures
            final(self).inv(),
            final(self).infallible() == old(self).infallible(),
            old(self).infallible() ==> !(r matches Err(e) && e == RfsError::Eio),
            final(parent).spec_id() == old(parent).spec_id(),
            final(newparent).spec_id() == old(newparent).spec_id(),
            r matches Ok(_) ==> {
                let c2 = file_content(final(newparent)@, final(self).dev());
                let c = file_content(old(parent)@, old(self).dev());
                &&& dir_count(c2) >= 1
                &&& entry_name(c2, dir_count(c2) - 1) == newname@
                &&& exists|k: int|
                    0 <= k < dir_count(c) && #[trigger] entry_name(c, k) == name@ && entry_ino(
                        c,
                        k,
                    ) == entry_ino(c2, dir_count(c2) - 1)
            },
            r matches Ok(_) ==> forall|j: int|
                #[trigger] allocated(old(self).bm(), j) && !is_slot(old(parent)@, j) && !is_slot(
                    old(newparent)@,
                    j,
                ) ==> allocated(final(self).bm(), j),
            r matches Ok(_) ==> forall|db: int|
                2 <= db && allocated(old(self).bm(), db - 1) && db != old(parent).spec_id() as int
                    + 1 && db != old(newparent).spec_id() as int + 1 && !is_slot(
                    old(parent)@,
                    db - 1,
                ) && !is_slot(old(newparent)@, db - 1) ==> #[trigger] crate::block_io::dev_block(
                    final(self).dev(),
                    db,
                ) == crate::block_io::dev_block(old(self).dev(), db),
            newname@.len() > MAX_NAME_LEN ==> !(r matches Ok(_)),
            r matches Err(e) && e == RfsError::Enospc ==> bm_full(final(self).bm()),
            r matches Err(e) ==> {
                &&& (e == RfsError::Enoent && no_entry_named(
                    file_content(old(parent)@, old(self).dev()),
                    name@,
                )) || e == RfsError::Enametoolong || e == RfsError::Enospc || e == RfsError::Efbig
                    || e == RfsError::Eio
                &&& e == RfsError::Enametoolong ==> newname@.len() > MAX_NAME_LEN
            },
    {
        let ghost dev_0 = self.dev();
        let (off, ino) = match self.lookup_item(parent, name) {
            Ok(p) => p,
            Err(e) => {
                return Err(e);
            },
        };
        proof {
            crate::file_mgr::lemma_content_equiv(parent@, dev_0, self.dev());
        }
        let ghost bm_l = self.bm();
        let ghost dev_l = self.dev();
        match self.erase_dir_item(parent, off) {
            Ok(_) => (),
            Err(e) => {
                return Err(e);
            },
        }
        proof {
            crate::file_mgr::lemma_content_equiv(newparent@, old(self).dev(), dev_l);
            assert forall|db: int|
                2 <= db && allocated(bm_l, db - 1) && (db == newparent.spec_id() as int + 1
                    || is_slot(newparent@, db - 1)) implies #[trigger] crate::block_io::dev_block(
                self.dev(),
                db,
            ) == crate::block_io::dev_block(dev_l, db) by {
                assert(db != parent.spec_id() as int + 1) by {
                    if db != newparent.spec_id() as int + 1 {
                        let j = choose|j: int|
                            0 <= j < blocks_of(old(newparent)@.length as int) && #[trigger] slot_at(
                                old(newparent)@,
                                j,
                            ) == db - 1;
                        assert(!is_slot(old(newparent)@, old(parent).spec_id() as int));
                    }
                }
                assert(!is_slot(old(parent)@, db - 1)) by {
                    if is_slot(old(parent)@, db - 1) {
                        let i = choose|i: int|
                            0 <= i < blocks_of(old(parent)@.length as int) && #[trigger] slot_at(
                                old(parent)@,
                                i,
                            ) == db - 1;
                        if db == newparent.spec_id() as int + 1 {
                            assert(!is_slot(old(parent)@, old(newparent).spec_id() as int));
                        } else {
                            let j = choose|j: int|
                                0 <= j < blocks_of(old(newparent)@.length as int)
                                    && #[trigger] slot_at(old(newparent)@, j) == db - 1;
                            assert(slot_at(old(parent)@, i) != slot_at(old(newparent)@, j));
                        }
                    }
                }
            }
            assert(allocated(self.bm(), newparent.spec_id() as int)) by {
                assert(!is_slot(old(parent)@, old(newparent).spec_id() as int));
            }
            assert forall|sl: int| #[trigger] is_slot(newparent@, sl) && allocated(bm_l, sl)
                implies allocated(self.bm(), sl) by {
                assert(!is_slot(old(parent)@, sl)) by {
                    if is_slot(old(parent)@, sl) {
                        let i = choose|i: int|
                            0 <= i < blocks_of(old(parent)@.length as int) && #[trigger] slot_at(
                                old(parent)@,
                                i,
                            ) == sl;
                        let j = choose|j: int|
                            0 <= j < blocks_of(old(newparent)@.length as int) && #[trigger] slot_at(
                                old(newparent)@,
                                j,
                            ) == sl;
                        if slot_at(old(parent)@, i) != 0 {
                            assert(slot_at(old(parent)@, i) != slot_at(old(newparent)@, j));
                        } else {
                            assert(allocated(bm_l, 0) == false);
                        }
                    }
                }
            }
            crate::file_mgr::lemma_preserved(*newparent, bm_l, dev_l, self.bm(), self.dev());
            assert forall|j: int|
                #[trigger] allocated(old(self).bm(), j) && !is_slot(old(parent)@, j) && !is_slot(
                    old(newparent)@,
                    j,
                ) implies allocated(self.bm(), j) && !is_slot(newparent@, j) && (j != old(
                parent,
            ).spec_id() as int && j != old(newparent).spec_id() as int
                ==> crate::block_io::dev_block(self.dev(), j + 1) == crate::block_io::dev_block(
                old(self).dev(),
                j + 1,
            )) by {
                lemma_dir_step_preserves(
                    j,
                    old(parent)@,
                    parent@,
                    old(parent).spec_id(),
                    old(self).bm(),
                    self.bm(),
                    dev_l,
                    self.dev(),
                );
                assert(crate::block_io::dev_block(dev_l, j + 1) == crate::block_io::dev_block(
                    old(self).dev(),
                    j + 1,
                ));
            }
        }
        let ghost v_bn = newparent@;
        let ghost bm_b2 = self.bm();
        let ghost dev_b2 = self.dev();
        let ghost dev_2 = self.dev();
        match self.lookup_item(newparent, newname) {
            Ok(p) => {
                proof {
                    crate::file_mgr::lemma_content_equiv(newparent@, dev_2, self.dev());
                }
                let ghost dev_l2 = self.dev();
                match self.erase_dir_item(newparent, p.0) {
                    Ok(_) => (),
                    Err(e) => {
                        return Err(e);
                    },
                }
                proof {
                    assert forall|j: int|
                        #[trigger] allocated(bm_b2, j) && !is_slot(v_bn, j) implies allocated(
                        self.bm(),
                        j,
                    ) && !is_slot(newparent@, j) && (j != old(newparent).spec_id() as int
                        ==> crate::block_io::dev_block(self.dev(), j + 1)
                        == crate::block_io::dev_block(dev_b2, j + 1)) by {
                        lemma_dir_step_preserves(
                            j,
                            v_bn,
                            newparent@,
                            old(newparent).spec_id(),
                            bm_b2,
                            self.bm(),
                            dev_l2,
                            self.dev(),
                        );
                        assert(crate::block_io::dev_block(dev_l2, j + 1)
                            == crate::block_io::dev_block(dev_b2, j + 1));
                    }
                }
            },
            Err(RfsError::Enoent) => {
                proof {
                    crate::file_mgr::lemma_content_equiv(newparent@, dev_2, self.dev());
                    assert forall|j: int|
                        #[trigger] allocated(bm_b2, j) && !is_slot(v_bn, j) implies allocated(
                        self.bm(),
                        j,
                    ) && !is_slot(newparent@, j) && (j != old(newparent).spec_id() as int
                        ==> crate::block_io::dev_block(self.dev(), j + 1)
                        == crate::block_io::dev_block(dev_b2, j + 1)) by {
                        assert(crate::block_io::dev_block(self.dev(), j + 1)
                            == crate::block_io::dev_block(dev_b2, j + 1));
                    }
                }
            },
            Err(e) => {
                return Err(e);
            },
        }
        let ghost c_mid = file_content(newparent@, self.dev());
        let ghost v_cn = newparent@;
        let ghost bm_cn = self.bm();
        let ghost dev_cn = self.dev();
        let r = self.write_dir_item(ino, newparent, newname);
        proof {
            if r is Ok {
                assert forall|j: int|
                    #[trigger] allocated(old(self).bm(), j) && !is_slot(old(parent)@, j)
                        && !is_slot(old(newparent)@, j) implies allocated(self.bm(), j) && (j
                    != old(parent).spec_id() as int && j != old(newparent).spec_id() as int
                    ==> crate::block_io::dev_block(self.dev(), j + 1) == crate::block_io::dev_block(
                    old(self).dev(),
                    j + 1,
                )) by {
                    assert(allocated(bm_b2, j) && !is_slot(v_bn, j));
                    assert(allocated(bm_cn, j) && !is_slot(v_cn, j));
                    lemma_dir_step_preserves(
                        j,
                        v_cn,
                        newparent@,
                        old(newparent).spec_id(),
                        bm_cn,
                        self.bm(),
                        dev_cn,
                        self.dev(),
                    );
                }
                assert forall|db: int|
                    2 <= db && allocated(old(self).bm(), db - 1) && db != old(
                        parent,
                    ).spec_id() as int + 1 && db != old(newparent).spec_id() as int + 1
                        && !is_slot(old(parent)@, db - 1) && !is_slot(old(newparent)@, db - 1)
                        implies #[trigger] crate::block_io::dev_block(self.dev(), db)
                    == crate::block_io::dev_block(old(self).dev(), db) by {
                    let j = db - 1;
                    assert(allocated(old(self).bm(), j) && !is_slot(old(parent)@, j) && !is_slot(
                        old(newparent)@,
                        j,
                    ));
                }
                lemma_appended_entry(c_mid, ino, newname@);
            }
        }
        match r {
            Ok(_) => Ok(()),
            Err(e) => Err(e),
        }
    }
}


/// Setting the permission bits under a type nibble keeps the nibble.
proof fn lemma_mode_fmt(m: u16)
    ensures
        crate::inode::mode_fmt(S_IFREG | (m & 0o7777)) == S_IFREG,
        crate::inode::mode_fmt(S_IFDIR | (m & 0o7777)) == S_IFDIR,
        crate::inode::mode_fmt(S_IFLNK | 0o777) == S_IFLNK,
{
    assert((((0o100000u16 | (m & 0o7777u16)) / 0x1000u16) * 0x1000u16) == 0o100000u16 && (((
    0o040000u16 | (m & 0o7777u16)) / 0x1000u16) * 0x1000u16) == 0o040000u16 && ((((0o120000u16
        | 0o777u16)) / 0x1000u16) * 0x1000u16) == 0o120000u16) by (bit_vector);
}

/// One directory-rewriting step keeps every unrelated allocated block
/// alive and untouched: a block that was allocated, was not one of the
/// directory's data blocks, and is not the directory's own block,
/// stays allocated, stays off the slot table, and keeps its bytes.
proof fn lemma_dir_step_preserves(
    j: int,
    v_prev: InodeView,
    v_next: InodeView,
    id: Id,
    bm_prev: Seq<u8>,
    bm_next: Seq<u8>,
    dev_prev: Seq<Seq<u8>>,
    dev_next: Seq<Seq<u8>>,
)
    requires
        slots_ok(v_prev, id, bm_prev),
        crate::file_mgr::others_untouched(v_prev, id, bm_prev, dev_prev, dev_next),
        forall|x: int|
            #[trigger] allocated(bm_prev, x) && !is_slot(v_prev, x) ==> allocated(bm_next, x),
        forall|k: int|
            0 <= k < crate::inode::DIRECT_BLK_CNT && #[trigger] slot_at(v_next, k) != slot_at(
                v_prev,
                k,
            ) ==> slot_at(v_next, k) == 0 || !allocated(bm_prev, slot_at(v_next, k) as int),
        allocated(bm_prev, j),
        !is_slot(v_prev, j),
    ensures
        allocated(bm_next, j),
        !is_slot(v_next, j),
        j != id ==> crate::block_io::dev_block(dev_next, j + 1) == crate::block_io::dev_block(
            dev_prev,
            j + 1,
        ),
{
    assert(!is_slot(v_next, j)) by {
        if is_slot(v_next, j) {
            let i = choose|i: int|
                0 <= i < blocks_of(v_next.length as int) && #[trigger] slot_at(v_next, i) == j;
            if slot_at(v_next, i) == slot_at(v_prev, i) {
                assert(j >= 1);
                assert(0 <= i < blocks_of(v_prev.length as int)) by {
                    if i >= blocks_of(v_prev.length as int) {
                        assert(slot_at(v_prev, i) == 0);
                    }
                }
            }
        }
    }
}

/// The record appended at the end of a directory reads back as its
/// last entry.
proof fn lemma_appended_entry(c: Seq<u8>, ino: Id, nm: Seq<u8>)
    requires
        c.len() % 64 == 0,
        nm.len() <= MAX_NAME_LEN,
    ensures
        ({
            let cn = c + spec_dir_item(ino, nm);
            &&& dir_count(cn) == dir_count(c) + 1
            &&& entry_ino(cn, dir_count(cn) - 1) == ino
            &&& entry_name(cn, dir_count(cn) - 1) == nm
        }),
{
    let cn = c + spec_dir_item(ino, nm);
    assert(c.len() == 64 * dir_count(c)) by {
        vstd::arithmetic::div_mod::lemma_fundamental_div_mod(c.len() as int, 64);
    }
    assert(dir_count(cn) == dir_count(c) + 1) by {
        vstd::arithmetic::div_mod::lemma_fundamental_div_mod_converse(
            c.len() as int + 64,
            64,
            dir_count(c) + 1,
            0,
        );
    }
    assert(entry_ino(cn, dir_count(cn) - 1) == ino) by {
        assert(cn[64 * (dir_count(cn) - 1)] == spec_dir_item(ino, nm)[0]);
        assert(cn[64 * (dir_count(cn) - 1) + 1] == spec_dir_item(ino, nm)[1]);
        assert((ino % 256) as int + ((ino / 256) as int) * 256 == ino);
    }
    assert(entry_name(cn, dir_count(cn) - 1) =~= nm) by {
        assert(cn[64 * (dir_count(cn) - 1) + 2] == nm.len() as u8);
    }
}

/// Every directory begins with `.` and `..`: the two records a fresh
/// directory is given decode as entries 0 and 1, the first naming the
/// directory itself and the second its parent, and the content is a
/// whole number of well-formed entries.
pub proof fn lemma_fresh_dir_entries(ino: Id, parent: Id)
    ensures
        ({
            let c = spec_dir_item(ino, seq![46u8]) + spec_dir_item(parent, seq![46u8, 46u8]);
            &&& c.len() % 64 == 0
            &&& dir_count(c) == 2
            &&& entry_ino(c, 0) == ino
            &&& entry_name(c, 0) == seq![46u8]
            &&& entry_ino(c, 1) == parent
            &&& entry_name(c, 1) == seq![46u8, 46u8]
            &&& dir_wf(c)
        }),
{
    let c = spec_dir_item(ino, seq![46u8]) + spec_dir_item(parent, seq![46u8, 46u8]);
    assert(entry_ino(c, 0) == ino) by {
        assert(c[0] == spec_dir_item(ino, seq![46u8])[0]);
        assert(c[1] == spec_dir_item(ino, seq![46u8])[1]);
        assert((ino % 256) as int + ((ino / 256) as int) * 256 == ino);
    }
    assert(c[2] == 1);
    assert(entry_name(c, 0) =~= seq![46u8]);
    assert(entry_ino(c, 1) == parent) by {
        assert(c[64] == spec_dir_item(parent, seq![46u8, 46u8])[0]);
        assert(c[65] == spec_dir_item(parent, seq![46u8, 46u8])[1]);
        assert((parent % 256) as int + ((parent / 256) as int) * 256 == parent);
    }
    assert(c[66] == 2);
    assert(entry_name(c, 1) =~= seq![46u8, 46u8]);
}

/// Every directory stored on the device names only allocated inodes.
pub open spec fn all_dir_entries_allocated(bm: Seq<u8>, dev: Seq<Seq<u8>>) -> bool {
    forall|id: Id, k: int|
        allocated(bm, id as int) && 0 <= k < dir_count(file_content(stored_view(dev, id), dev))
            ==> allocated(
            bm,
            #[trigger] entry_ino(file_content(stored_view(dev, id), dev), k) as int,
        )
}

/// Inode id `id` can be reached from the root in `n` steps: it is the
/// root itself, or some directory reachable in `n - 1` steps has an
/// entry naming it.
pub open spec fn reachable(dev: Seq<Seq<u8>>, n: nat, id: Id) -> bool
    decreases n,
{
    if n == 0 {
        id == 1
    } else {
        exists|p: Id, k: int|
            #![trigger entry_ino(file_content(stored_view(dev, p), dev), k)]
            {
                &&& reachable(dev, (n - 1) as nat, p)
                &&& 0 <= k < dir_count(file_content(stored_view(dev, p), dev))
                &&& entry_ino(file_content(stored_view(dev, p), dev), k) == id
            }
    }
}

/// Every inode id reachable from the root has its bitmap bit set,
/// provided the root's bit is set and every directory on the device
/// names only allocated inodes — the invariant the namespace
/// operations keep through [`dir_sound`].
pub proof fn lemma_reachable_allocated(dev: Seq<Seq<u8>>, bm: Seq<u8>, n: nat, id: Id)
    requires
        allocated(bm, 1),
        all_dir_entries_allocated(bm, dev),
        reachable(dev, n, id),
    ensures
        allocated(bm, id as int),
    decreases n,
{
    if n > 0 {
        let (p, k) = choose|p: Id, k: int|
            #![trigger entry_ino(file_content(stored_view(dev, p), dev), k)]
            {
                &&& reachable(dev, (n - 1) as nat, p)
                &&& 0 <= k < dir_count(file_content(stored_view(dev, p), dev))
                &&& entry_ino(file_content(stored_view(dev, p), dev), k) == id
            };
        lemma_reachable_allocated(dev, bm, (n - 1) as nat, p);
    }
}

/// What the device of an already-formatted filesystem holds at its
/// root: the bitmap block marks id 1 allocated, block 2 decodes to a
/// sound directory inode, and the directory can still grow.
pub open spec fn root_stored_sound(dev: Seq<Seq<u8>>) -> bool {
    let bmv = crate::block_io::dev_block(dev, 1);
    let v = stored_view(dev, 1);
    &&& allocated(bmv, 1)
    &&& crate::file_mgr::slots_ok(v, 1, bmv)
    &&& crate::file_mgr::tail_zero(v, dev)
    &&& dir_wf(file_content(v, dev))
    &&& v.length + 128 <= u32::MAX
}

} // verus!
