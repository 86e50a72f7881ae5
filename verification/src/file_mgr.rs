//! File data layer: inode allocation and the byte-level file
//! operations — partial-block read and write, sparse holes, and
//! truncation.  A file's bytes are a function of its inode's length
//! and slot table and of the device blocks the slots name; slot 0 is
//! a hole and reads as zeros.

use vstd::prelude::*;
use vstd::pervasive::VecAdditionalExecFns;
use vstd::slice::slice_subrange;

use crate::block_io::dev_block;
use crate::block_io::dev_equiv;
use crate::block_io::BlockIO;
use crate::block_mgr::allocated;
use crate::block_mgr::bm_full;
use crate::block_mgr::is_magic;
use crate::block_mgr::BlockMgr;
use crate::codec::le64_at;
use crate::codec::get_le64;
use crate::codec::put_le64;
use crate::inode::decode_inode;
use crate::inode::slot_at;
use crate::inode::Inode;
use crate::inode::InodeView;
use crate::inode::DIRECT_BLK_CNT;
use crate::BLOCK_SIZE;
use crate::Id;
use crate::RfsError;

verus! {

/// Number of slots a file of `len` bytes uses: `ceil(len / 4096)`.
pub open spec fn blocks_of(len: int) -> int {
    (len + 4095) / 4096
}

/// Byte `i` of the file an inode describes: byte `i % 4096` of the
/// data block its slot `i / 4096` names, or zero across a hole.
pub open spec fn file_byte(v: InodeView, dev: Seq<Seq<u8>>, i: int) -> u8 {
    let s = slot_at(v, i / 4096);
    if s == 0 {
        0u8
    } else {
        dev_block(dev, s as int + 1)[i % 4096]
    }
}

/// The whole file an inode describes: `length` bytes.
pub open spec fn file_content(v: InodeView, dev: Seq<Seq<u8>>) -> Seq<u8> {
    Seq::new(v.length as nat, |i: int| file_byte(v, dev, i))
}

/// What a read of `count` bytes at `offset` returns out of content
/// `c`: nothing past the end, else the range clamped to the end.
pub open spec fn read_result(c: Seq<u8>, offset: int, count: int) -> Seq<u8> {
    if offset >= c.len() {
        Seq::empty()
    } else if offset + count >= c.len() {
        c.subrange(offset, c.len() as int)
    } else {
        c.subrange(offset, offset + count)
    }
}

/// What content `c` becomes when `data` is written at `offset`: the
/// file grows to cover the write, any gap reads as zeros.
pub open spec fn write_result(c: Seq<u8>, offset: int, data: Seq<u8>) -> Seq<u8> {
    let new_len = if c.len() >= offset + data.len() {
        c.len() as int
    } else {
        offset + data.len()
    };
    Seq::new(
        new_len as nat,
        |i: int|
            if offset <= i < offset + data.len() {
                data[i - offset]
            } else if i < c.len() {
                c[i]
            } else {
                0u8
            },
    )
}

/// What content `c` becomes when the file is truncated to `len`
/// bytes: cut short, or grown with zeros.
pub open spec fn truncate_result(c: Seq<u8>, len: int) -> Seq<u8> {
    Seq::new(
        len as nat,
        |i: int|
            if i < c.len() {
                c[i]
            } else {
                0u8
            },
    )
}

/// The used slots of an inode view are sound against the bitmap: a
/// used slot is either a hole or an allocated block that is neither
/// the inode's own block nor any other used slot, and every slot past
/// the used range is clear.
pub open spec fn slots_ok(v: InodeView, id: Id, bm: Seq<u8>) -> bool {
    &&& forall|i: int|
        0 <= i < blocks_of(v.length as int) && #[trigger] slot_at(v, i) != 0 ==> allocated(
            bm,
            slot_at(v, i) as int,
        ) && slot_at(v, i) != id
    &&& forall|i: int, j: int|
        0 <= i < blocks_of(v.length as int) && 0 <= j < blocks_of(v.length as int) && i != j
            && #[trigger] slot_at(v, i) != 0 ==> slot_at(v, i) != #[trigger] slot_at(v, j)
    &&& forall|i: int|
        blocks_of(v.length as int) <= i < DIRECT_BLK_CNT ==> #[trigger] slot_at(v, i) == 0
}

/// The bytes of the last used block past the file's length are zero,
/// so growing the file uncovers zeros only.
pub open spec fn tail_zero(v: InodeView, dev: Seq<Seq<u8>>) -> bool {
    forall|i: int|
        v.length <= i < blocks_of(v.length as int) * 4096 ==> #[trigger] file_byte(v, dev, i)
            == 0u8
}

/// An open inode is sound against the manager's bitmap and device.
pub open spec fn inode_ok(ino: Inode, bm: Seq<u8>, dev: Seq<Seq<u8>>) -> bool {
    &&& ino.wf()
    &&& allocated(bm, ino.spec_id() as int)
    &&& slots_ok(ino@, ino.spec_id(), bm)
    &&& tail_zero(ino@, dev)
}

/// Device block `b` belongs to a used slot of `v`.
pub open spec fn is_slot(v: InodeView, b: int) -> bool {
    exists|i: int| 0 <= i < blocks_of(v.length as int) && #[trigger] slot_at(v, i) == b
}

/// Every device block allocated under `bm` that is neither the
/// inode's own block nor one of its used data blocks holds in `d2`
/// the bytes it held in `d1`.  (`db` ranges over device block
/// indexes; external id `e` lives in device block `e + 1`.)
pub open spec fn others_untouched(
    v: InodeView,
    id: Id,
    bm: Seq<u8>,
    d1: Seq<Seq<u8>>,
    d2: Seq<Seq<u8>>,
) -> bool {
    forall|db: int|
        2 <= db && allocated(bm, db - 1) && db != id + 1 && !is_slot(v, db - 1)
            ==> #[trigger] dev_block(d2, db) == dev_block(d1, db)
}

/// Every id allocated under `bm1` is still allocated under `bm2`.
pub open spec fn bm_monotone(bm1: Seq<u8>, bm2: Seq<u8>) -> bool {
    forall|j: int| #[trigger] allocated(bm1, j) ==> allocated(bm2, j)
}

/// The metadata fields two inode views share when only file data was
/// touched.
pub open spec fn meta_eq(a: InodeView, b: InodeView) -> bool {
    &&& a.generation == b.generation
    &&& a.atime == b.atime
    &&& a.mtime == b.mtime
    &&& a.ctime == b.ctime
    &&& a.mode == b.mode
    &&& a.nlink == b.nlink
    &&& a.uid == b.uid
    &&& a.gid == b.gid
}

/// Manager of file data: owns the block manager and hands out inodes.
pub struct FileMgr<T: BlockIO> {
    block_mgr: Box<BlockMgr<T>>,
}

impl<T: BlockIO> FileMgr<T> {
    /// The abstract picture of the device underneath.
    pub closed spec fn dev(&self) -> Seq<Seq<u8>> {
        self.block_mgr.dev()
    }

    /// The bitmap mirror of the block manager underneath.
    pub closed spec fn bm(&self) -> Seq<u8> {
        self.block_mgr.bm()
    }

    /// Representation invariant.
    pub closed spec fn inv(&self) -> bool {
        self.block_mgr.inv()
    }

    /// Whether the device underneath never fails.
    pub closed spec fn infallible(&self) -> bool {
        self.block_mgr.infallible()
    }

    /// A manager over `block_mgr`.
    pub fn new(block_mgr: Box<BlockMgr<T>>) -> (r: FileMgr<T>)
        requires
            block_mgr.inv(),
        ensures
            r.inv(),
            r.infallible() == block_mgr.infallible(),
            r.dev() == block_mgr.dev(),
            r.bm() == block_mgr.bm(),
    {
        FileMgr { block_mgr }
    }

    /// Whether the device holds a formatted filesystem.
    pub fn is_formatted(&mut self) -> (r: Result<bool, RfsError>)
        requires
            old(self).inv(),
        ensures
            final(self).inv(),
            final(self).infallible() == old(self).infallible(),
            old(self).infallible() ==> r matches Ok(_),
            final(self).bm() == old(self).bm(),
            dev_equiv(old(self).dev(), final(self).dev()),
            r matches Ok(b) ==> b == is_magic(dev_block(old(self).dev(), 0)),
            r matches Err(e) ==> e == RfsError::Eio,
    {
        self.block_mgr.is_formatted()
    }

    /// Initialise: format if asked and allocate the root inode, whose
    /// id is always 1.
    pub fn init(&mut self, need_format: bool) -> (r: Result<(), RfsError>)
        requires
            old(self).inv(),
        ensures
            final(self).inv(),
            final(self).infallible() == old(self).infallible(),
            old(self).infallible() ==> r matches Ok(_),
            r matches Ok(_) && need_format ==> {
                &&& allocated(final(self).bm(), 1)
                &&& forall|j: int| #[trigger] allocated(final(self).bm(), j) <==> j == 1
                &&& root_fresh(decode_inode(dev_block(final(self).dev(), 2)))
            },
            r matches Ok(_) && !need_format ==> dev_equiv(old(self).dev(), final(self).dev())
                && final(self).bm() == dev_block(old(self).dev(), 1),
            r matches Err(e) && e == RfsError::Enospc ==> bm_full(final(self).bm()),
            r matches Err(e) ==> e == RfsError::Enospc || e == RfsError::Eio,
    {
        self.block_mgr.init(need_format)?;
        proof {
            if need_format {
                crate::block_mgr::lemma_zero_bm_clear();
                assert(self.bm() == crate::block_io::zero_block());
                assert(!bm_full(self.bm())) by {
                    if bm_full(self.bm()) {
                        assert(crate::block_mgr::bm_bit(self.bm(), 0));
                        assert(allocated(self.bm(), 1));
                    }
                }
            }
        }
        if need_format {
            let root_inode = self.new_inode()?;
            proof {
                if root_inode.spec_id() != 1 {
                    assert(allocated(crate::block_io::zero_block(), 1));
                }
            }
        }
        Ok(())
    }

    /// Allocate a block, stamp it as a fresh inode — generation
    /// advanced, everything else zero — and open it.
    pub fn new_inode(&mut self) -> (r: Result<Inode, RfsError>)
        requires
            old(self).inv(),
        ensures
            final(self).inv(),
            final(self).infallible() == old(self).infallible(),
            old(self).infallible() ==> (r matches Ok(_)) || (r matches Err(e) && e
                == RfsError::Enospc),
            bm_monotone(old(self).bm(), final(self).bm()),
            forall|db: int|
                2 <= db && allocated(old(self).bm(), db - 1) ==> #[trigger] dev_block(
                    final(self).dev(),
                    db,
                ) == dev_block(old(self).dev(), db),
            r matches Ok(ino) ==> {
                &&& ino.wf()
                &&& !ino.spec_dirty()
                &&& !allocated(old(self).bm(), ino.spec_id() as int)
                &&& forall|j: int|
                    1 <= j < ino.spec_id() ==> #[trigger] allocated(old(self).bm(), j)
                &&& forall|j: int|
                    #[trigger] allocated(final(self).bm(), j) <==> (allocated(old(self).bm(), j)
                        || j == ino.spec_id())
                &&& root_fresh(ino@)
                &&& ino@.generation == wrap_inc(
                    le64_at(dev_block(old(self).dev(), ino.spec_id() as int + 1), 0),
                )
                &&& inode_ok(ino, final(self).bm(), final(self).dev())
                &&& ino.bytes() == dev_block(final(self).dev(), ino.spec_id() as int + 1)
                &&& ino@ == decode_inode(dev_block(final(self).dev(), ino.spec_id() as int + 1))
            },
            r matches Err(e) ==> {
                &&& e == RfsError::Enospc || e == RfsError::Eio
                &&& e == RfsError::Enospc ==> bm_full(old(self).bm()) && bm_full(final(self).bm())
            },
    {
        let id = self.block_mgr.new_block()?;
        let block = self.block_mgr.read_block(id)?;
        let generation = get_le64(&block, 0);
        let generation = if generation == u64::MAX {
            0
        } else {
            generation + 1
        };
        let mut fresh: Vec<u8> = vec![0u8; BLOCK_SIZE];
        put_le64(&mut fresh, 0, generation);
        self.block_mgr.write_block(id, fresh.as_slice())?;
        let ino = Inode::new(&mut self.block_mgr, id)?;
        proof {
            ino.view_is_decode();
            assert(ino.bytes() == fresh@);
            assert(forall|k: int| 8 <= k < BLOCK_SIZE ==> #[trigger] fresh@[k] == 0u8);
            let v = ino@;
            assert forall|i: int| 0 <= i < DIRECT_BLK_CNT implies #[trigger] v.slots[i] == 0 by {
                assert(fresh@[60 + 2 * i] == 0u8 && fresh@[60 + 2 * i + 1] == 0u8);
            }
        }
        Ok(ino)
    }

    /// Open the inode stored in block `id`, straight from the device.
    pub fn read_inode(&mut self, id: Id) -> (r: Result<Inode, RfsError>)
        requires
            old(self).inv(),
            allocated(old(self).bm(), id as int),
        ensures
            final(self).inv(),
            final(self).infallible() == old(self).infallible(),
            old(self).infallible() ==> r matches Ok(_),
            final(self).bm() == old(self).bm(),
            dev_equiv(old(self).dev(), final(self).dev()),
            r matches Ok(ino) ==> {
                &&& ino.wf()
                &&& ino.spec_id() == id
                &&& !ino.spec_dirty()
                &&& ino.bytes() == dev_block(old(self).dev(), id as int + 1)
                &&& ino@ == decode_inode(dev_block(old(self).dev(), id as int + 1))
            },
            r matches Err(e) ==> e == RfsError::Eio,
    {
        match Inode::new(&mut self.block_mgr, id) {
            Ok(ino) => {
                proof {
                    ino.view_is_decode();
                }
                Ok(ino)
            },
            Err(e) => Err(e),
        }
    }

    /// Open the root inode, id 1.
    pub fn read_root_inode(&mut self) -> (r: Result<Inode, RfsError>)
        requires
            old(self).inv(),
            allocated(old(self).bm(), 1),
        ensures
            final(self).inv(),
            final(self).infallible() == old(self).infallible(),
            old(self).infallible() ==> r matches Ok(_),
            final(self).bm() == old(self).bm(),
            dev_equiv(old(self).dev(), final(self).dev()),
            r matches Ok(ino) ==> {
                &&& ino.wf()
                &&& ino.spec_id() == 1
                &&& !ino.spec_dirty()
                &&& ino.bytes() == dev_block(old(self).dev(), 2)
                &&& ino@ == decode_inode(dev_block(old(self).dev(), 2))
            },
            r matches Err(e) ==> e == RfsError::Eio,
    {
        self.read_inode(1)
    }

    /// Free an inode's block.  Its data blocks are untouched.
    pub fn del_inode(&mut self, inode: &Inode) -> (r: Result<(), RfsError>)
        requires
            old(self).inv(),
            inode.wf(),
        ensures
            final(self).inv(),
            final(self).infallible() == old(self).infallible(),
            old(self).infallible() ==> r matches Ok(_),
            forall|j: int|
                #[trigger] allocated(final(self).bm(), j) <==> (allocated(old(self).bm(), j) && j
                    != inode.spec_id()),
            forall|db: int|
                2 <= db ==> #[trigger] dev_block(final(self).dev(), db) == dev_block(
                    old(self).dev(),
                    db,
                ),
            r matches Ok(_) ==> dev_block(final(self).dev(), 1) == final(self).bm(),
            r matches Err(e) ==> e == RfsError::Eio,
    {
        self.block_mgr.del_block(inode.id())
    }

    /// Whether external id `id` is currently marked allocated.
    pub fn is_allocated(&self, id: Id) -> (r: bool)
        requires
            self.inv(),
        ensures
            r == allocated(self.bm(), id as int),
    {
        self.block_mgr.is_allocated(id)
    }

    /// Flush an inode through the block manager.
    pub fn flush(&mut self, inode: &mut Inode) -> (r: Result<(), RfsError>)
        requires
            old(self).inv(),
            old(inode).wf(),
            allocated(old(self).bm(), old(inode).spec_id() as int),
        ensures
            final(self).inv(),
            final(self).infallible() == old(self).infallible(),
            old(self).infallible() ==> r matches Ok(_),
            final(self).bm() == old(self).bm(),
            final(inode).wf(),
            final(inode)@ == old(inode)@,
            final(inode).bytes() == old(inode).bytes(),
            final(inode).spec_id() == old(inode).spec_id(),
            !old(inode).spec_dirty() ==> (r matches Ok(_)) && *final(inode) == *old(inode)
                && dev_equiv(old(self).dev(), final(self).dev()),
            r matches Ok(_) ==> !final(inode).spec_dirty() && (if old(inode).spec_dirty() {
                crate::block_io::dev_updated(
                    old(self).dev(),
                    final(self).dev(),
                    old(inode).spec_id() as int + 1,
                    old(inode).bytes(),
                )
            } else {
                dev_equiv(old(self).dev(), final(self).dev())
            }),
            r matches Err(e) ==> e == RfsError::Eio && dev_equiv(old(self).dev(), final(self).dev())
                && final(inode).spec_dirty() == old(inode).spec_dirty(),
    {
        inode.flush(&mut self.block_mgr)
    }

    /// Read `count` bytes at `offset`.  A read at or past the end
    /// returns nothing; otherwise the range is clamped to the file's
    /// length, and holes read as zeros.
    pub fn read_file(&mut self, inode: &Inode, offset: usize, count: usize) -> (r: Result<
        Vec<u8>,
        RfsError,
    >)
        requires
            old(self).inv(),
            inode_ok(*inode, old(self).bm(), old(self).dev()),
            offset + count <= usize::MAX,
        ensures
            final(self).inv(),
            final(self).infallible() == old(self).infallible(),
            old(self).infallible() ==> r matches Ok(_),
            final(self).bm() == old(self).bm(),
            dev_equiv(old(self).dev(), final(self).dev()),
            offset >= inode@.length ==> (r matches Ok(b) && b@ == Seq::<u8>::empty()),
            r matches Ok(b) ==> b@ == read_result(
                file_content(inode@, old(self).dev()),
                offset as int,
                count as int,
            ),
            r matches Err(e) ==> e == RfsError::Eio,
    {
        let ghost c = file_content(inode@, old(self).dev());
        let length = inode.length() as usize;
        if offset >= length {
            return Ok(Vec::new());
        }
        let end = if length < offset + count {
            length
        } else {
            offset + count
        };
        let mut ret: Vec<u8> = Vec::new();
        let mut pos = offset;
        while pos < end
            invariant
                self.inv(),
                self.infallible() == old(self).infallible(),
                self.bm() == old(self).bm(),
                dev_equiv(old(self).dev(), self.dev()),
                inode_ok(*inode, old(self).bm(), old(self).dev()),
                c == file_content(inode@, old(self).dev()),
                offset <= pos <= end,
                end <= length,
                length == inode@.length,
                end == length || end == offset + count,
                offset + count <= usize::MAX,
                ret@ == c.subrange(offset as int, pos as int),
            decreases end - pos,
        {
            let ghost pre_ret = ret@;
            let blk = pos / BLOCK_SIZE;
            proof {
                lemma_blk_in_range(pos as int, length as int);
            }
            let next64 = (blk as u64 + 1) * (BLOCK_SIZE as u64);
            let blk_end = if (end as u64) < next64 {
                end
            } else {
                next64 as usize
            };
            let id = inode.data_block(blk);
            if id > 0 {
                let block = self.block_mgr.read_block(id)?;
                let lo = pos % BLOCK_SIZE;
                let n = blk_end - pos;
                let src = slice_subrange(block.as_slice(), lo, lo + n);
                ret.extend_from_slice(src);
                proof {
                    assert forall|i: int| offset <= i < blk_end implies ret@[i - offset] == c[i] by {
                        if i >= pos {
                            lemma_in_block(i, blk as int);
                            assert(file_byte(inode@, old(self).dev(), i) == dev_block(
                                old(self).dev(),
                                id as int + 1,
                            )[i % 4096]);
                            assert(ret@[i - offset] == block@[pos % 4096 + (i - pos)]);
                        }
                    }
                    assert(ret@ =~= c.subrange(offset as int, blk_end as int));
                }
            } else {
                append_zeros(&mut ret, blk_end - pos);
                proof {
                    assert forall|i: int| offset <= i < blk_end implies ret@[i - offset] == c[i] by {
                        if i >= pos {
                            lemma_in_block(i, blk as int);
                            assert(file_byte(inode@, old(self).dev(), i) == 0u8);
                        }
                    }
                    assert(ret@ =~= c.subrange(offset as int, blk_end as int));
                }
            }
            pos = blk_end;
        }
        proof {
            assert(ret@ == read_result(c, offset as int, count as int));
        }
        Ok(ret)
    }

    /// Write `data` at `offset`: a touched hole gets a fresh block, a
    /// partial block is read, patched and written back, and the length
    /// grows to cover the write.  The inode is flushed on the way out.
    #[verifier::loop_isolation(false)]
    #[verifier::rlimit(100)]
    #[verifier::spinoff_prover]
    pub fn write_file(&mut self, inode: &mut Inode, offset: usize, data: &[u8]) -> (r: Result<
        usize,
        RfsError,
    >)
        requires
            old(self).inv(),
            inode_ok(*old(inode), old(self).bm(), old(self).dev()),
            offset + data@.len() <= u32::MAX,
        ensures
            final(self).inv(),
            final(self).infallible() == old(self).infallible(),
            old(self).infallible() ==> (r matches Ok(_)) || (r matches Err(e) && (e
                == RfsError::Enospc || e == RfsError::Efbig)),
            old(self).infallible() ==> (r matches Err(_) ==> !final(inode).spec_dirty()),
            final(inode).wf(),
            final(inode).spec_id() == old(inode).spec_id(),
            meta_eq(final(inode)@, old(inode)@),
            bm_monotone(old(self).bm(), final(self).bm()),
            others_untouched(
                old(inode)@,
                old(inode).spec_id(),
                old(self).bm(),
                old(self).dev(),
                final(self).dev(),
            ),
            allocated(final(self).bm(), old(inode).spec_id() as int),
            forall|k: int|
                0 <= k < DIRECT_BLK_CNT && #[trigger] slot_at(old(inode)@, k) != 0 ==> slot_at(
                    final(inode)@,
                    k,
                ) == slot_at(old(inode)@, k),
            forall|k: int|
                0 <= k < DIRECT_BLK_CNT && #[trigger] slot_at(final(inode)@, k) != slot_at(
                    old(inode)@,
                    k,
                ) ==> !allocated(old(self).bm(), slot_at(final(inode)@, k) as int),
            (r matches Ok(_)) || (r matches Err(e) && e == RfsError::Enospc) ==> forall|j: int|
                allocated(final(self).bm(), j) && !allocated(old(self).bm(), j) ==> is_slot(
                    final(inode)@,
                    j,
                ),
            r matches Ok(n) ==> {
                &&& n == data@.len()
                &&& (final(inode)@.length != old(inode)@.length ==> dev_block(
                    final(self).dev(),
                    old(inode).spec_id() as int + 1,
                ) == final(inode).bytes())
                &&& (dev_block(final(self).dev(), old(inode).spec_id() as int + 1)
                    == final(inode).bytes() || (final(inode).bytes() == old(inode).bytes()
                    && dev_block(final(self).dev(), old(inode).spec_id() as int + 1) == dev_block(
                    old(self).dev(),
                    old(inode).spec_id() as int + 1,
                )))
                &&& inode_ok(*final(inode), final(self).bm(), final(self).dev())
                &&& !final(inode).spec_dirty()
                &&& final(inode)@.length == (if old(inode)@.length >= offset + data@.len() {
                    old(inode)@.length as int
                } else {
                    offset + data@.len()
                })
                &&& file_content(final(inode)@, final(self).dev()) == write_result(
                    file_content(old(inode)@, old(self).dev()),
                    offset as int,
                    data@,
                )
            },
            r matches Err(e) ==> {
                &&& (e == RfsError::Enospc || e == RfsError::Efbig || e == RfsError::Eio)
                &&& e == RfsError::Efbig ==> offset + data@.len() > DIRECT_BLK_CNT * 4096
                &&& e == RfsError::Enospc ==> bm_full(final(self).bm())
                &&& (final(inode)@.length == old(inode)@.length || (old(inode)@.length
                    < final(inode)@.length && offset <= final(inode)@.length <= offset
                    + data@.len()))
            },
    {
        let ghost v_old = old(inode)@;
        let ghost dev0 = old(self).dev();
        let ghost bm0 = old(self).bm();
        let ghost c0 = file_content(v_old, dev0);
        let ghost id0 = old(inode).spec_id();
        proof {
            inode.slots_len();
        }
        let end = offset + data.len();
        let mut pos = offset;
        let mut write_cnt: usize = 0;
        while pos < end
            invariant
                self.inv(),
                self.infallible() == old(self).infallible(),
                inode.wf(),
                inode.spec_id() == id0,
                inode@.slots.len() == DIRECT_BLK_CNT,
                meta_eq(inode@, v_old),
                offset <= pos <= end,
                end == offset + data@.len(),
                end <= u32::MAX,
                write_cnt == pos - offset,
                pos == offset || pos % BLOCK_SIZE == 0 || pos == end,
                inode@.length == (if pos > offset && pos > v_old.length {
                    pos as int
                } else {
                    v_old.length as int
                }),
                inode@.length != v_old.length ==> inode.spec_dirty(),
                !inode.spec_dirty() ==> inode.bytes() == old(inode).bytes(),
                dev_block(self.dev(), id0 as int + 1) == dev_block(dev0, id0 as int + 1),
                inode.wf() && allocated(self.bm(), id0 as int) && slots_ok(
                    inode@,
                    id0,
                    self.bm(),
                ),
                bm_monotone(bm0, self.bm()),
                forall|j: int|
                    allocated(self.bm(), j) && !allocated(bm0, j) ==> is_slot(inode@, j),
                others_untouched(v_old, id0, bm0, dev0, self.dev()),
                forall|k: int|
                    0 <= k < DIRECT_BLK_CNT && #[trigger] slot_at(v_old, k) != 0 ==> slot_at(
                        inode@,
                        k,
                    ) == slot_at(v_old, k),
                forall|k: int|
                    0 <= k < DIRECT_BLK_CNT && #[trigger] slot_at(inode@, k) != slot_at(v_old, k)
                        ==> !allocated(bm0, slot_at(inode@, k) as int),
                forall|x: int|
                    0 <= x ==> #[trigger] file_byte(inode@, self.dev(), x) == (if offset <= x
                        < pos {
                        data@[x - offset]
                    } else {
                        file_byte(v_old, dev0, x)
                    }),
            decreases end - pos,
        {
            let ghost v_pre = inode@;
            let ghost dev_pre = self.dev();
            let ghost bm_pre = self.bm();
            let blk = pos / BLOCK_SIZE;
            proof {
                vstd::arithmetic::div_mod::lemma_fundamental_div_mod(pos as int, 4096);
                vstd::arithmetic::div_mod::lemma_mod_bound(pos as int, 4096);
                assert(blk * 4096 <= pos);
                assert(blk as int + 1 <= 0x100000);
                vstd::arithmetic::mul::lemma_mul_inequality(blk as int + 1, 0x100000, 4096);
                assert((blk as int + 1) * 4096 <= 0x100000 * 4096);
            }
            let next64 = (blk as u64 + 1) * (BLOCK_SIZE as u64);
            let blk_end = if (end as u64) < next64 {
                end
            } else {
                next64 as usize
            };
            let mut id = inode.data_block(blk);
            let ghost was_fresh = id == 0;
            let mut block: Vec<u8>;
            if id == 0 {
                if blk >= DIRECT_BLK_CNT {
                    proof {
                        assert(pos >= blk * 4096);
                        assert(end > DIRECT_BLK_CNT * 4096);
                    }
                    let _ = inode.flush(&mut self.block_mgr);
                    return Err(RfsError::Efbig);
                }
                match self.block_mgr.new_block() {
                    Ok(nid) => {
                        id = nid;
                    },
                    Err(e) => {
                        let _ = inode.flush(&mut self.block_mgr);
                        return Err(e);
                    },
                }
                proof {
                    assert(id != id0);
                    assert(!allocated(bm0, id as int));
                }
                match inode.set_data_block(blk, id) {
                    Ok(_) => (),
                    Err(_) => {
                        proof {
                            assert(false);
                        }
                        return Err(RfsError::Efbig);
                    },
                }
                proof {
                    assert forall|k: int|
                        0 <= k < DIRECT_BLK_CNT && k != blk implies #[trigger] slot_at(inode@, k)
                        == slot_at(v_pre, k) by {}
                    assert(slot_at(inode@, blk as int) == id);
                    assert(slot_at(v_pre, blk as int) == 0);
                }
                block = vec![0u8; BLOCK_SIZE];
                proof {
                    assert forall|y: int| 0 <= y < BLOCK_SIZE implies #[trigger] block@[y]
                        == 0u8 by {}
                }
            } else {
                proof {
                    assert(slot_at(v_pre, blk as int) == id);
                    assert(blk < blocks_of(v_pre.length as int)) by {
                        if blk >= blocks_of(v_pre.length as int) {
                            assert(slot_at(v_pre, blk as int) == 0);
                        }
                    }
                }
                block = match self.block_mgr.read_block(id) {
                    Ok(b) => b,
                    Err(e) => {
                        let _ = inode.flush(&mut self.block_mgr);
                        return Err(e);
                    },
                };
            }
            let ghost v_mid = inode@;
            let ghost bm_mid = self.bm();
            let ghost pre_block = block@;
            let lo = pos % BLOCK_SIZE;
            let cnt = blk_end - pos;
            proof {
                assert(lo + cnt <= BLOCK_SIZE);
                assert(write_cnt + cnt <= data@.len());
            }
            let mut k: usize = 0;
            while k < cnt
                invariant
                    block@.len() == BLOCK_SIZE,
                    k <= cnt,
                    lo + cnt <= BLOCK_SIZE,
                    write_cnt + cnt <= data@.len(),
                    forall|y: int|
                        0 <= y < BLOCK_SIZE && !(lo <= y < lo + k) ==> #[trigger] block@[y]
                            == pre_block[y],
                    forall|y: int|
                        0 <= y < k ==> #[trigger] block@[lo + y] == data@[write_cnt + y],
                decreases cnt - k,
            {
                let b = *vstd::slice::slice_index_get(data, write_cnt + k);
                block.set(lo + k, b);
                k = k + 1;
            }
            match self.block_mgr.write_block(id, block.as_slice()) {
                Ok(_) => (),
                Err(e) => {
                    let _ = inode.flush(&mut self.block_mgr);
                    return Err(e);
                },
            }
            let cur_len = inode.length();
            if (blk_end as u32) > cur_len {
                inode.set_length(blk_end as u32);
            }
            proof {
                let P = pos as int;
                let B = blk as int;
                let E = blk_end as int;
                assert(inode@.slots == v_mid.slots);
                assert forall|y: int| #[trigger] slot_at(inode@, y) == slot_at(v_mid, y) by {}
                // the patched block's bytes
                assert(dev_block(self.dev(), id as int + 1) == block@);
                // where the current slot came from
                if was_fresh {
                    assert(slot_at(inode@, B) == id);
                    assert forall|y: int|
                        0 <= y < DIRECT_BLK_CNT && y != B implies #[trigger] inode@.slots[y]
                            == v_pre.slots[y] by {}
                } else {
                    assert(inode@.slots == v_pre.slots);
                }
                // bytes across the whole device picture
                assert forall|x: int|
                    0 <= x implies #[trigger] file_byte(inode@, self.dev(), x) == (if offset <= x
                        < E {
                        data@[x - offset]
                    } else {
                        file_byte(v_old, dev0, x)
                    }) by {
                    if x < DIRECT_BLK_CNT * 4096 {
                        lemma_in_range_of_mul(x, DIRECT_BLK_CNT as int);
                        let b = x / 4096;
                        if b == B {
                            assert(slot_at(inode@, b) == id);
                            assert(file_byte(inode@, self.dev(), x) == block@[x % 4096]);
                            if P <= x < E {
                                assert(x % 4096 == lo + (x - P));
                                assert(block@[lo + (x - P)] == data@[write_cnt + (x - P)]);
                            } else {
                                assert(x % 4096 < lo || x % 4096 >= lo + cnt);
                                assert(block@[x % 4096] == pre_block[x % 4096]);
                                if was_fresh {
                                    assert(pre_block[x % 4096] == 0u8);
                                    assert(slot_at(v_pre, b) == 0);
                                    assert(file_byte(v_pre, dev_pre, x) == 0u8);
                                } else {
                                    assert(pre_block[x % 4096] == dev_block(
                                        dev_pre,
                                        id as int + 1,
                                    )[x % 4096]);
                                    assert(file_byte(v_pre, dev_pre, x) == dev_block(
                                        dev_pre,
                                        id as int + 1,
                                    )[x % 4096]);
                                }
                                assert(file_byte(v_pre, dev_pre, x) == (if offset <= x < P {
                                    data@[x - offset]
                                } else {
                                    file_byte(v_old, dev0, x)
                                }));
                                assert(!(offset <= x < P)) by {
                                    if offset <= x < P {
                                        assert(P != offset);
                                        assert(P < end);
                                        assert(P % 4096 == 0);
                                        assert(x >= B * 4096);
                                        assert(B * 4096 == P);
                                    }
                                }
                            }
                        } else {
                            let sv = slot_at(inode@, b);
                            assert(sv == slot_at(v_pre, b));
                            if sv != 0 {
                                assert(sv != id) by {
                                    if was_fresh {
                                        assert(allocated(bm_pre, sv as int));
                                    } else {
                                        assert(b < blocks_of(v_pre.length as int)) by {
                                            if b >= blocks_of(v_pre.length as int) {
                                                assert(slot_at(v_pre, b) == 0);
                                            }
                                        }
                                        assert(blk < blocks_of(v_pre.length as int));
                                        assert(slot_at(v_pre, b) != slot_at(v_pre, B));
                                    }
                                }
                                assert(dev_block(self.dev(), sv as int + 1) == dev_block(
                                    dev_pre,
                                    sv as int + 1,
                                ));
                            }
                            assert(file_byte(inode@, self.dev(), x) == file_byte(
                                v_pre,
                                dev_pre,
                                x,
                            ));
                            assert(!(P <= x < E)) by {
                                vstd::arithmetic::div_mod::lemma_fundamental_div_mod(P, 4096);
                                if P <= x < E {
                                    lemma_in_block(x, B);
                                }
                            }
                        }
                    } else {
                        assert(slot_at(inode@, x / 4096) == 0 && slot_at(v_old, x / 4096) == 0)
                            by {
                            vstd::arithmetic::div_mod::lemma_div_multiples_vanish(
                                DIRECT_BLK_CNT as int,
                                4096,
                            );
                            vstd::arithmetic::div_mod::lemma_div_is_ordered(
                                DIRECT_BLK_CNT * 4096,
                                x,
                                4096,
                            );
                        }
                        assert(!(P <= x < E)) by {
                            assert(E <= (B + 1) * 4096);
                            assert(B < DIRECT_BLK_CNT);
                        }
                    }
                }
                // the slot table is still sound
                assert forall|y: int|
                    0 <= y < blocks_of(inode@.length as int) && #[trigger] slot_at(inode@, y)
                        != 0 implies allocated(self.bm(), slot_at(inode@, y) as int) && slot_at(
                    inode@,
                    y,
                ) != id0 by {
                    if y == B {
                    } else {
                        assert(slot_at(inode@, y) == slot_at(v_pre, y));
                        if y < blocks_of(v_pre.length as int) {
                        } else {
                            assert(slot_at(v_pre, y) == 0);
                        }
                    }
                }
                assert forall|y: int, z: int|
                    0 <= y < blocks_of(inode@.length as int) && 0 <= z < blocks_of(
                        inode@.length as int,
                    ) && y != z && #[trigger] slot_at(inode@, y) != 0 implies slot_at(inode@, y)
                    != #[trigger] slot_at(inode@, z) by {
                    let uy = slot_at(inode@, y);
                    let uz = slot_at(inode@, z);
                    if y != B && z != B {
                        assert(uy == slot_at(v_pre, y) && uz == slot_at(v_pre, z));
                        if uy != 0 {
                            assert(y < blocks_of(v_pre.length as int)) by {
                                if y >= blocks_of(v_pre.length as int) {
                                    assert(slot_at(v_pre, y) == 0);
                                }
                            }
                        }
                        if uz != 0 {
                            assert(z < blocks_of(v_pre.length as int)) by {
                                if z >= blocks_of(v_pre.length as int) {
                                    assert(slot_at(v_pre, z) == 0);
                                }
                            }
                        }
                    } else if was_fresh {
                        if y == B {
                            assert(uz == slot_at(v_pre, z));
                            if uz != 0 {
                                assert(allocated(bm_pre, uz as int));
                            }
                        } else {
                            assert(uy == slot_at(v_pre, y));
                            if uy != 0 {
                                assert(allocated(bm_pre, uy as int));
                            }
                        }
                    } else {
                        assert(inode@.slots == v_pre.slots);
                        assert(blk < blocks_of(v_pre.length as int));
                        if y == B {
                            if uz != 0 {
                                assert(z < blocks_of(v_pre.length as int)) by {
                                    if z >= blocks_of(v_pre.length as int) {
                                        assert(slot_at(v_pre, z) == 0);
                                    }
                                }
                            }
                        } else {
                            assert(y < blocks_of(v_pre.length as int)) by {
                                if y >= blocks_of(v_pre.length as int) {
                                    assert(slot_at(v_pre, y) == 0);
                                }
                            }
                        }
                    }
                }
                assert forall|y: int|
                    blocks_of(inode@.length as int) <= y < DIRECT_BLK_CNT implies #[trigger] slot_at(
                    inode@,
                    y,
                ) == 0 by {
                    assert(inode@.length >= blk_end);
                    assert(y * 4096 >= blocks_of(inode@.length as int) * 4096);
                    assert(blocks_of(inode@.length as int) * 4096 >= inode@.length) by {
                        vstd::arithmetic::div_mod::lemma_fundamental_div_mod(
                            inode@.length as int,
                            4096,
                        );
                        vstd::arithmetic::div_mod::lemma_mod_bound(inode@.length as int, 4096);
                    }
                    assert(y != B) by {
                        assert(inode@.length >= B * 4096 + 1);
                        vstd::arithmetic::div_mod::lemma_div_is_ordered(
                            B * 4096 + 4096,
                            inode@.length + 4095,
                            4096,
                        );
                        vstd::arithmetic::div_mod::lemma_div_multiples_vanish(B + 1, 4096);
                    }
                    assert(slot_at(inode@, y) == slot_at(v_pre, y));
                    assert(y >= blocks_of(v_pre.length as int)) by {
                        vstd::arithmetic::div_mod::lemma_div_is_ordered(
                            v_pre.length + 4095,
                            inode@.length + 4095,
                            4096,
                        );
                    }
                }
                // blocks of other files are untouched
                assert forall|db: int|
                    2 <= db && allocated(bm0, db - 1) && db != id0 + 1 && !is_slot(v_old, db - 1)
                        implies #[trigger] dev_block(self.dev(), db) == dev_block(dev0, db) by {
                    assert(db != id as int + 1) by {
                        if was_fresh {
                            assert(!allocated(bm0, id as int));
                        } else {
                            assert(id == slot_at(v_pre, blk as int));
                            if slot_at(v_old, blk as int) == id {
                                assert(blk < blocks_of(v_old.length as int)) by {
                                    if blk as int >= blocks_of(v_old.length as int) {
                                        assert(slot_at(v_old, blk as int) == 0);
                                    }
                                }
                                assert(is_slot(v_old, id as int));
                            } else {
                                assert(slot_at(v_pre, blk as int) != slot_at(v_old, blk as int));
                                assert(!allocated(bm0, id as int));
                            }
                        }
                    }
                    assert(dev_block(dev_pre, db) == dev_block(dev0, db));
                }
                assert forall|k: int|
                    0 <= k < DIRECT_BLK_CNT && #[trigger] slot_at(v_old, k) != 0 implies slot_at(
                    inode@,
                    k,
                ) == slot_at(v_old, k) by {
                    if k != B {
                        assert(slot_at(inode@, k) == slot_at(v_pre, k));
                    } else {
                        if was_fresh {
                            assert(slot_at(v_pre, k) == 0);
                            assert(slot_at(v_old, k) == slot_at(v_pre, k));
                        }
                    }
                }
                assert forall|k: int|
                    0 <= k < DIRECT_BLK_CNT && #[trigger] slot_at(inode@, k) != slot_at(v_old, k)
                        implies !allocated(bm0, slot_at(inode@, k) as int) by {
                    if k == B && was_fresh {
                        assert(slot_at(inode@, k) == id);
                        assert(!allocated(bm0, id as int));
                    } else {
                        assert(slot_at(inode@, k) == slot_at(v_pre, k));
                    }
                }
                assert(blocks_of(v_pre.length as int) <= blocks_of(inode@.length as int)) by {
                    vstd::arithmetic::div_mod::lemma_div_is_ordered(
                        v_pre.length + 4095,
                        inode@.length + 4095,
                        4096,
                    );
                }
                assert forall|j: int|
                    allocated(self.bm(), j) && !allocated(bm0, j) implies is_slot(
                    inode@,
                    j,
                ) by {
                    if was_fresh && j == id as int {
                        assert(slot_at(inode@, B) == id);
                        assert(0 <= B < blocks_of(inode@.length as int)) by {
                            assert(inode@.length >= blk_end);
                            assert(B * 4096 + 1 <= blk_end);
                            vstd::arithmetic::div_mod::lemma_div_is_ordered(
                                B * 4096 + 4096,
                                inode@.length + 4095,
                                4096,
                            );
                            vstd::arithmetic::div_mod::lemma_div_multiples_vanish(B + 1, 4096);
                        }
                    } else {
                        assert(allocated(bm_pre, j));
                        assert(is_slot(v_pre, j));
                        let i = choose|i: int|
                            0 <= i < blocks_of(v_pre.length as int) && #[trigger] slot_at(
                                v_pre,
                                i,
                            ) == j;
                        assert(slot_at(inode@, i) == slot_at(v_pre, i)) by {
                            if i == B && was_fresh {
                                assert(slot_at(v_pre, B) == 0);
                                assert(j >= 1);
                            }
                        }
                    }
                }
            }
            write_cnt = write_cnt + cnt;
            pos = blk_end;
        }
        let ghost v_exit = inode@;
        let cur_len = inode.length();
        if (end as u32) > cur_len {
            inode.set_length(end as u32);
        }
        proof {
            assert(inode@.slots == v_exit.slots);
            assert forall|k: int| #[trigger] slot_at(inode@, k) == slot_at(v_exit, k) by {}
            assert(blocks_of(v_exit.length as int) <= blocks_of(inode@.length as int)) by {
                vstd::arithmetic::div_mod::lemma_div_is_ordered(
                    v_exit.length + 4095,
                    inode@.length + 4095,
                    4096,
                );
            }
            assert forall|k: int|
                0 <= k < blocks_of(inode@.length as int) && #[trigger] slot_at(inode@, k) != 0
                    implies allocated(self.bm(), slot_at(inode@, k) as int) && slot_at(inode@, k)
                != id0 by {
                if k >= blocks_of(v_exit.length as int) {
                    assert(slot_at(v_exit, k) == 0);
                }
            }
            assert forall|k: int, j: int|
                0 <= k < blocks_of(inode@.length as int) && 0 <= j < blocks_of(
                    inode@.length as int,
                ) && k != j && #[trigger] slot_at(inode@, k) != 0 implies slot_at(inode@, k)
                != #[trigger] slot_at(inode@, j) by {
                if k >= blocks_of(v_exit.length as int) {
                    assert(slot_at(v_exit, k) == 0);
                }
                if j >= blocks_of(v_exit.length as int) {
                    assert(slot_at(v_exit, j) == 0);
                }
            }
            assert forall|k: int|
                blocks_of(inode@.length as int) <= k < DIRECT_BLK_CNT implies #[trigger] slot_at(
                inode@,
                k,
            ) == 0 by {
                assert(slot_at(v_exit, k) == 0);
            }
            assert(slots_ok(inode@, id0, self.bm()));
            assert forall|j: int|
                allocated(self.bm(), j) && !allocated(bm0, j) implies is_slot(inode@, j) by {
                assert(is_slot(v_exit, j));
                let i = choose|i: int|
                    0 <= i < blocks_of(v_exit.length as int) && #[trigger] slot_at(v_exit, i) == j;
                assert(slot_at(inode@, i) == slot_at(v_exit, i));
                assert(blocks_of(v_exit.length as int) <= blocks_of(inode@.length as int));
            }
            assert forall|x: int|
                0 <= x implies #[trigger] file_byte(inode@, self.dev(), x) == (if offset <= x
                    < end {
                    data@[x - offset]
                } else {
                    file_byte(v_old, dev0, x)
                }) by {
                assert(file_byte(inode@, self.dev(), x) == file_byte(v_exit, self.dev(), x));
            }
        }
        let ghost v1 = inode@;
        let ghost dev1 = self.dev();
        let r = inode.flush(&mut self.block_mgr);
        match r {
            Ok(_) => {
                proof {
                    let L = v1.length as int;
                    let vN = inode@;
                    assert(vN == v1);
                    assert forall|x: int|
                        0 <= x implies #[trigger] file_byte(vN, self.dev(), x) == file_byte(
                        v1,
                        dev1,
                        x,
                    ) by {
                        let b = x / 4096;
                        let sv = slot_at(vN, b);
                        if sv != 0 {
                            assert(sv != id0) by {
                                if 0 <= b < blocks_of(L) {
                                } else {
                                    assert(slot_at(vN, b) == 0);
                                }
                            }
                        }
                    }
                    assert(file_content(vN, self.dev()) =~= write_result(c0, offset as int, data@))
                        by {
                        assert forall|x: int|
                            0 <= x < vN.length implies file_content(vN, self.dev())[x]
                                == write_result(c0, offset as int, data@)[x] by {
                            assert(file_byte(vN, self.dev(), x) == file_byte(v1, dev1, x));
                            if !(offset <= x < end) && x >= v_old.length {
                                assert(file_byte(v_old, dev0, x) == 0u8) by {
                                    let b = x / 4096;
                                    if slot_at(v_old, b) != 0 {
                                        assert(b < blocks_of(v_old.length as int)) by {
                                            if b >= blocks_of(v_old.length as int) {
                                                assert(slot_at(v_old, b) == 0);
                                            }
                                        }
                                        assert(x < blocks_of(v_old.length as int) * 4096) by {
                                            vstd::arithmetic::div_mod::lemma_fundamental_div_mod(
                                                x,
                                                4096,
                                            );
                                            vstd::arithmetic::div_mod::lemma_mod_bound(x, 4096);
                                        }
                                    }
                                }
                            }
                        }
                    }
                    assert forall|x: int|
                        vN.length <= x < blocks_of(vN.length as int) * 4096 implies #[trigger] file_byte(
                        vN,
                        self.dev(),
                        x,
                    ) == 0u8 by {
                        assert(file_byte(vN, self.dev(), x) == file_byte(v1, dev1, x));
                        assert(x >= end && x >= v_old.length);
                        let b = x / 4096;
                        if slot_at(v_old, b) != 0 {
                            assert(b < blocks_of(v_old.length as int)) by {
                                if b >= blocks_of(v_old.length as int) {
                                    assert(slot_at(v_old, b) == 0);
                                }
                            }
                            assert(x < blocks_of(v_old.length as int) * 4096) by {
                                vstd::arithmetic::div_mod::lemma_fundamental_div_mod(x, 4096);
                                vstd::arithmetic::div_mod::lemma_mod_bound(x, 4096);
                            }
                        }
                    }
                }
                Ok(data.len())
            },
            Err(e) => {
                Err(e)
            },
        }
    }

    /// Truncate the file to `length` bytes.  A shrink frees every
    /// block past the new end and zeroes the tail of the last kept
    /// block in place; a grow only sets the length, realised lazily as
    /// holes.  The inode is flushed on the way out.
    #[verifier::loop_isolation(false)]
    #[verifier::rlimit(100)]
    pub fn truncate_file(&mut self, inode: &mut Inode, length: usize) -> (r: Result<(), RfsError>)
        requires
            old(self).inv(),
            inode_ok(*old(inode), old(self).bm(), old(self).dev()),
            length <= u32::MAX,
        ensures
            final(self).inv(),
            final(self).infallible() == old(self).infallible(),
            old(self).infallible() ==> r matches Ok(_),
            final(inode).wf(),
            final(inode).spec_id() == old(inode).spec_id(),
            meta_eq(final(inode)@, old(inode)@),
            others_untouched(
                old(inode)@,
                old(inode).spec_id(),
                old(self).bm(),
                old(self).dev(),
                final(self).dev(),
            ),
            forall|j: int| #[trigger] allocated(final(self).bm(), j) ==> allocated(old(self).bm(), j),
            forall|j: int|
                #[trigger] allocated(old(self).bm(), j) && !is_slot(old(inode)@, j) ==> allocated(
                    final(self).bm(),
                    j,
                ),
            allocated(final(self).bm(), old(inode).spec_id() as int),
            forall|k: int|
                0 <= k < DIRECT_BLK_CNT && #[trigger] slot_at(final(inode)@, k) != 0 ==> slot_at(
                    final(inode)@,
                    k,
                ) == slot_at(old(inode)@, k),
            r matches Ok(_) ==> {
                &&& inode_ok(*final(inode), final(self).bm(), final(self).dev())
                &&& !final(inode).spec_dirty()
                &&& dev_block(final(self).dev(), old(inode).spec_id() as int + 1)
                    == final(inode).bytes()
                &&& forall|k: int|
                    blocks_of(length as int) <= k < DIRECT_BLK_CNT && #[trigger] slot_at(
                        old(inode)@,
                        k,
                    ) != 0 ==> !allocated(final(self).bm(), slot_at(old(inode)@, k) as int)
                &&& (old(inode)@.length <= length ==> final(self).bm() == old(self).bm() && (
                forall|db: int|
                    2 <= db && db != old(inode).spec_id() as int + 1 ==> #[trigger] dev_block(
                        final(self).dev(),
                        db,
                    ) == dev_block(old(self).dev(), db)))
                &&& final(inode)@.length == length
                &&& file_content(final(inode)@, final(self).dev()) == truncate_result(
                    file_content(old(inode)@, old(self).dev()),
                    length as int,
                )
            },
            r matches Err(e) ==> e == RfsError::Eio,
    {
        let ghost v_old = old(inode)@;
        let ghost dev0 = old(self).dev();
        let ghost bm0 = old(self).bm();
        let ghost c0 = file_content(v_old, dev0);
        let ghost id0 = old(inode).spec_id();
        let ghost mut tzid: int = -1;
        proof {
            inode.slots_len();
        }
        let cur = inode.length() as usize;
        let new_blocks = ((length as u64 + 4095) / 4096) as usize;
        assert(new_blocks == blocks_of(length as int));
        if length < cur {
            let old_cnt = ((cur as u64 + 4095) / 4096) as usize;
            assert(old_cnt == blocks_of(cur as int));
            assert(new_blocks <= old_cnt) by {
                vstd::arithmetic::div_mod::lemma_div_is_ordered(
                    length + 4095,
                    cur + 4095,
                    4096,
                );
            }
            let mut i = new_blocks;
            while i < old_cnt
                invariant
                    self.inv(),
                    self.infallible() == old(self).infallible(),
                    inode.wf(),
                    inode.spec_id() == id0,
                    meta_eq(inode@, v_old),
                    inode@.length == v_old.length,
                    cur == v_old.length,
                    length < cur <= u32::MAX,
                    new_blocks == blocks_of(length as int),
                    old_cnt == blocks_of(cur as int),
                    new_blocks <= i <= old_cnt,
                    inode@.slots.len() == DIRECT_BLK_CNT,
                    v_old.slots.len() == DIRECT_BLK_CNT,
                    inode_ok(*inode, self.bm(), self.dev()),
                    forall|k: int| new_blocks <= k < i ==> slot_at(inode@, k) == 0,
                    forall|k: int|
                        new_blocks <= k < i && #[trigger] slot_at(v_old, k) != 0 ==> !allocated(
                            self.bm(),
                            slot_at(v_old, k) as int,
                        ),
                    forall|k: int|
                        0 <= k < DIRECT_BLK_CNT && !(new_blocks <= k < i)
                            ==> #[trigger] inode@.slots[k] == v_old.slots[k],
                    forall|j: int| #[trigger] allocated(self.bm(), j) ==> allocated(bm0, j),
                    forall|j: int|
                        #[trigger] allocated(bm0, j) && !is_slot(v_old, j) ==> allocated(
                            self.bm(),
                            j,
                        ),
                    allocated(self.bm(), id0 as int),
                    forall|db: int|
                        2 <= db ==> #[trigger] dev_block(self.dev(), db) == dev_block(dev0, db),
                decreases old_cnt - i,
            {
                let ghost vpre = inode@;
                let ghost bmpre = self.bm();
                let ghost dev_i = self.dev();
                let id = inode.data_block(i);
                if id > 0 {
                    proof {
                        assert(i < DIRECT_BLK_CNT);
                        assert(slot_at(vpre, i as int) == id);
                        assert(allocated(bmpre, id as int) && id != id0);
                        assert(slot_at(v_old, i as int) == id);
                        assert(is_slot(v_old, id as int));
                    }
                    match inode.set_data_block(i, 0) {
                        Ok(_) => (),
                        Err(_) => {
                            proof {
                                assert(false);
                            }
                            return Err(RfsError::Eio);
                        },
                    }
                    proof {
                        assert forall|k: int|
                            0 <= k < DIRECT_BLK_CNT && k != i implies #[trigger] slot_at(inode@, k)
                            == slot_at(vpre, k) by {}
                        assert(slot_at(inode@, i as int) == 0);
                    }
                    match self.block_mgr.del_block(id) {
                        Ok(_) => (),
                        Err(e) => {
                            proof {
                                assert(inode.spec_id() == id0);
                                assert(allocated(self.bm(), id0 as int));
                            }
                            let _ = inode.flush(&mut self.block_mgr);
                            proof {
                                assert(inode.spec_id() == id0);
                            }
                            return Err(e);
                        },
                    }
                    proof {
                        assert(slot_at(inode@, i as int) == 0);
                        assert forall|k: int|
                            0 <= k < blocks_of(inode@.length as int) && #[trigger] slot_at(
                                inode@,
                                k,
                            ) != 0 implies allocated(self.bm(), slot_at(inode@, k) as int)
                            && slot_at(inode@, k) != id0 by {
                            assert(k != i);
                            assert(slot_at(inode@, k) == slot_at(vpre, k));
                            assert(slot_at(vpre, k) != slot_at(vpre, i as int));
                        }
                        assert forall|x: int|
                            inode@.length <= x < blocks_of(inode@.length as int) * 4096 implies
                            #[trigger] file_byte(inode@, self.dev(), x) == 0u8 by {
                            let b = x / 4096;
                            let sv = slot_at(inode@, b);
                            if sv != 0 {
                                assert(b != i);
                                assert(sv == slot_at(vpre, b));
                                assert(dev_block(self.dev(), sv as int + 1) == dev_block(
                                    dev_i,
                                    sv as int + 1,
                                ));
                                assert(file_byte(vpre, dev_i, x) == 0u8);
                                assert(file_byte(inode@, self.dev(), x) == file_byte(
                                    vpre,
                                    dev_i,
                                    x,
                                ));
                            }
                        }
                        assert forall|k: int|
                            blocks_of(inode@.length as int) <= k < DIRECT_BLK_CNT implies
                            #[trigger] slot_at(inode@, k) == 0 by {
                            assert(k != i);
                            assert(slot_at(inode@, k) == slot_at(vpre, k));
                            assert(slot_at(vpre, k) == 0);
                        }
                        assert forall|k: int, j: int|
                            0 <= k < blocks_of(inode@.length as int) && 0 <= j < blocks_of(
                                inode@.length as int,
                            ) && k != j && #[trigger] slot_at(inode@, k) != 0 implies slot_at(
                            inode@,
                            k,
                        ) != #[trigger] slot_at(inode@, j) by {
                            assert(k != i);
                            assert(slot_at(inode@, k) == slot_at(vpre, k));
                            if j != i {
                                assert(slot_at(inode@, j) == slot_at(vpre, j));
                            } else {
                                assert(slot_at(inode@, j) == 0);
                            }
                        }
                        assert(allocated(self.bm(), id0 as int));
                        assert(inode.wf());
                        assert(slots_ok(inode@, id0, self.bm()));
                        assert(tail_zero(inode@, self.dev()));
                        assert(inode_ok(*inode, self.bm(), self.dev()));
                    }
                }
                proof {
                    assert(slot_at(inode@, i as int) == 0);
                    assert forall|k: int| new_blocks <= k < i + 1 implies #[trigger] slot_at(
                        inode@,
                        k,
                    ) == 0 by {
                        if k < i {
                            assert(slot_at(vpre, k) == 0);
                            assert(slot_at(inode@, k) == slot_at(vpre, k));
                        } else {
                            assert(k == i);
                        }
                    }
                }
                i = i + 1;
            }
            if length % BLOCK_SIZE != 0 {
                let last = length / BLOCK_SIZE;
                proof {
                    lemma_blk_in_range(length as int, cur as int);
                    assert(last as int + 1 == blocks_of(length as int)) by {
                        vstd::arithmetic::div_mod::lemma_fundamental_div_mod(length as int, 4096);
                        vstd::arithmetic::div_mod::lemma_fundamental_div_mod_converse(
                            length + 4095,
                            4096,
                            last as int + 1,
                            length % 4096 - 1,
                        );
                    }
                }
                let id = inode.data_block(last);
                if id > 0 {
                    proof {
                        self.block_mgr.blocks_sized();
                        tzid = id as int;
                    }
                    let ghost dev_pre = self.dev();
                    let mut block = match self.block_mgr.read_block(id) {
                        Ok(b) => b,
                        Err(e) => {
                            let _ = inode.flush(&mut self.block_mgr);
                            return Err(e);
                        },
                    };
                    let mut k = length % BLOCK_SIZE;
                    while k < BLOCK_SIZE
                        invariant
                            block@.len() == BLOCK_SIZE,
                            length % BLOCK_SIZE <= k <= BLOCK_SIZE,
                            dev_block(dev_pre, id as int + 1).len() == BLOCK_SIZE,
                            forall|x: int|
                                0 <= x < length % BLOCK_SIZE ==> #[trigger] block@[x] == dev_block(
                                    dev_pre,
                                    id as int + 1,
                                )[x],
                            forall|x: int| length % BLOCK_SIZE <= x < k ==> #[trigger] block@[x] == 0u8,
                        decreases BLOCK_SIZE - k,
                    {
                        block.set(k, 0);
                        k = k + 1;
                    }
                    match self.block_mgr.write_block(id, block.as_slice()) {
                        Ok(_) => (),
                        Err(e) => {
                            let _ = inode.flush(&mut self.block_mgr);
                            return Err(e);
                        },
                    }
                }
            }
            proof {
                assert forall|k: int| #[trigger] slot_at(inode@, k) == (if 0 <= k < blocks_of(
                    length as int,
                ) {
                    slot_at(v_old, k)
                } else {
                    0u16
                }) by {
                    if 0 <= k < DIRECT_BLK_CNT {
                        if k >= old_cnt {
                            assert(slot_at(inode@, k) == slot_at(v_old, k));
                            assert(slot_at(v_old, k) == 0);
                        }
                    }
                }
                assert(tzid >= 1 ==> tzid == slot_at(v_old, length as int / 4096));
            }
        } else {
            proof {
                assert forall|k: int| #[trigger] slot_at(inode@, k) == (if 0 <= k < blocks_of(
                    length as int,
                ) {
                    slot_at(v_old, k)
                } else {
                    0u16
                }) by {
                    if 0 <= k < DIRECT_BLK_CNT && k >= blocks_of(length as int) {
                        assert(k >= blocks_of(cur as int)) by {
                            vstd::arithmetic::div_mod::lemma_div_is_ordered(
                                cur + 4095,
                                length + 4095,
                                4096,
                            );
                        }
                        assert(slot_at(v_old, k) == 0);
                    }
                }
            }
        }
        let ghost v1 = inode@;
        let ghost dev1 = self.dev();
        let ghost bm1 = self.bm();
        proof {
            lemma_truncated_bytes(v_old, v1, dev0, dev1, bm0, id0, length as int, tzid);
        }
        inode.set_length(length as u32);
        let r = inode.flush(&mut self.block_mgr);
        proof {
            let L = length as int;
            let vN = inode@;
            assert(vN.slots == v1.slots);
            assert forall|k: int| #[trigger] slot_at(vN, k) == slot_at(v1, k) by {}
            assert forall|db: int|
                2 <= db && allocated(bm0, db - 1) && db != id0 + 1 && !is_slot(v_old, db - 1)
                    implies #[trigger] dev_block(self.dev(), db) == dev_block(dev0, db) by {
                if tzid >= 1 {
                    assert(is_slot(v_old, tzid)) by {
                        lemma_blk_in_range(L, v_old.length as int);
                        assert(slot_at(v_old, L / 4096) == tzid);
                    }
                }
                assert(dev_block(dev1, db) == dev_block(dev0, db));
            }
            if r is Ok {
                assert forall|x: int| 0 <= x < blocks_of(L) * 4096 implies #[trigger] file_byte(
                    vN,
                    self.dev(),
                    x,
                ) == file_byte(v1, dev1, x) by {
                    lemma_in_range_of_mul(x, blocks_of(L));
                    let b = x / 4096;
                    let sv = slot_at(vN, b);
                    if sv != 0 {
                        assert(sv == slot_at(v_old, b));
                        assert(b < blocks_of(L));
                        if length < cur {
                            assert(b < blocks_of(cur as int)) by {
                                vstd::arithmetic::div_mod::lemma_div_is_ordered(
                                    length + 4095,
                                    cur + 4095,
                                    4096,
                                );
                            }
                        } else {
                            if b >= blocks_of(cur as int) {
                                assert(slot_at(v_old, b) == 0);
                            }
                        }
                        assert(sv != id0);
                    }
                }
                assert forall|x: int| 0 <= x < L implies #[trigger] file_byte(vN, self.dev(), x)
                    == truncate_result(c0, L)[x] by {
                    lemma_in_range_of_mul(x, blocks_of(L));
                    assert(x < blocks_of(L) * 4096) by {
                        lemma_blk_in_range(x, L);
                        lemma_in_block(x, x / 4096);
                    }
                }
                assert(file_content(vN, self.dev()) =~= truncate_result(c0, L));
                assert forall|x: int|
                    vN.length <= x < blocks_of(vN.length as int) * 4096 implies #[trigger] file_byte(
                    vN,
                    self.dev(),
                    x,
                ) == 0u8 by {
                    assert(file_byte(vN, self.dev(), x) == file_byte(v1, dev1, x));
                }
                assert forall|k: int|
                    0 <= k < blocks_of(L) && #[trigger] slot_at(vN, k) != 0 implies allocated(
                    self.bm(),
                    slot_at(vN, k) as int,
                ) && slot_at(vN, k) != id0 by {
                    assert(slot_at(vN, k) == slot_at(v_old, k));
                    if length < cur {
                        assert(k < blocks_of(cur as int)) by {
                            vstd::arithmetic::div_mod::lemma_div_is_ordered(
                                length + 4095,
                                cur + 4095,
                                4096,
                            );
                        }
                        assert(slot_at(v1, k) != 0 && k < blocks_of(v1.length as int));
                    } else {
                        if k >= blocks_of(cur as int) {
                            assert(slot_at(v_old, k) == 0);
                        }
                        assert(allocated(bm0, slot_at(v_old, k) as int));
                        assert(bm1 == bm0);
                    }
                }
                assert forall|k: int, j: int|
                    0 <= k < blocks_of(L) && 0 <= j < blocks_of(L) && k != j && #[trigger] slot_at(
                    vN,
                    k,
                ) != 0 implies slot_at(vN, k) != #[trigger] slot_at(vN, j) by {
                    assert(slot_at(vN, k) == slot_at(v_old, k));
                    assert(slot_at(vN, j) == slot_at(v_old, j));
                    if k >= blocks_of(cur as int) {
                        assert(slot_at(v_old, k) == 0);
                    }
                    if j >= blocks_of(cur as int) {
                        assert(slot_at(v_old, j) == 0);
                    }
                }
                assert(slots_ok(vN, id0, self.bm()));
                assert(tail_zero(vN, self.dev()));
            }
        }
        match r {
            Ok(_) => Ok(()),
            Err(e) => Err(e),
        }
    }
}

/// Any index below `n * 4096` lies in one of the first `n` blocks.
pub proof fn lemma_in_range_of_mul(x: int, n: int)
    requires
        0 <= x < n * 4096,
    ensures
        0 <= x / 4096 < n,
        (x / 4096) * 4096 <= x < (x / 4096 + 1) * 4096,
        x % 4096 == x - (x / 4096) * 4096,
{
    lemma_blk_in_range(x, n * 4096);
    vstd::arithmetic::div_mod::lemma_div_multiples_vanish(n, 4096);
    vstd::arithmetic::div_mod::lemma_div_is_ordered(x, n * 4096 - 1, 4096);
    vstd::arithmetic::div_mod::lemma_fundamental_div_mod(n * 4096 - 1, 4096);
    vstd::arithmetic::div_mod::lemma_fundamental_div_mod_converse(n * 4096 - 1, 4096, n - 1, 4095);
}

/// After cutting the slot table at `blocks_of(L)` and zeroing the tail
/// of the new last block, every byte of the first `blocks_of(L)`
/// blocks is the old file's byte below both ends and zero elsewhere.
/// `tzid` names the block whose tail was zeroed, or -1 when none was.
proof fn lemma_truncated_bytes(
    v_old: InodeView,
    v_cur: InodeView,
    dev0: Seq<Seq<u8>>,
    dev_cur: Seq<Seq<u8>>,
    bm0: Seq<u8>,
    id0: Id,
    L: int,
    tzid: int,
)
    requires
        0 <= L,
        slots_ok(v_old, id0, bm0),
        tail_zero(v_old, dev0),
        forall|k: int|
            #[trigger] slot_at(v_cur, k) == (if 0 <= k < blocks_of(L) {
                slot_at(v_old, k)
            } else {
                0u16
            }),
        forall|db: int|
            2 <= db && db != tzid + 1 ==> #[trigger] dev_block(dev_cur, db) == dev_block(dev0, db),
        tzid == -1 || tzid >= 1,
        tzid >= 1 ==> L < v_old.length && L % 4096 != 0 && tzid == slot_at(v_old, L / 4096) && (
        forall|y: int|
            0 <= y < L % 4096 ==> #[trigger] dev_block(dev_cur, tzid + 1)[y] == dev_block(
                dev0,
                tzid + 1,
            )[y]) && (forall|y: int|
            L % 4096 <= y < 4096 ==> #[trigger] dev_block(dev_cur, tzid + 1)[y] == 0u8),
        tzid == -1 && L < v_old.length && L % 4096 != 0 ==> slot_at(v_old, L / 4096) == 0,
    ensures
        forall|x: int|
            0 <= x < blocks_of(L) * 4096 ==> #[trigger] file_byte(v_cur, dev_cur, x) == (if x < L
                && x < v_old.length {
                file_byte(v_old, dev0, x)
            } else {
                0u8
            }),
{
    let cur = v_old.length as int;
    assert forall|x: int| 0 <= x < blocks_of(L) * 4096 implies #[trigger] file_byte(v_cur, dev_cur, x)
        == (if x < L && x < cur {
        file_byte(v_old, dev0, x)
    } else {
        0u8
    }) by {
        lemma_in_range_of_mul(x, blocks_of(L));
        let b = x / 4096;
        let sv = slot_at(v_cur, b);
        assert(sv == slot_at(v_old, b));
        if sv != 0 {
            // a used slot of the old file
            assert(b < blocks_of(cur)) by {
                if b >= blocks_of(cur) {
                    assert(slot_at(v_old, b) == 0);
                }
            }
            assert(x < blocks_of(cur) * 4096) by {
                vstd::arithmetic::div_mod::lemma_fundamental_div_mod(x, 4096);
            }
            if tzid >= 1 && sv == tzid {
                // the block whose tail was zeroed; it is the block of byte L
                let tb = L / 4096;
                lemma_blk_in_range(L, cur);
                assert(b == tb) by {
                    if b != tb {
                        assert(slot_at(v_old, b) != slot_at(v_old, tb));
                    }
                }
                assert(x % 4096 < L % 4096 <==> x < L) by {
                    vstd::arithmetic::div_mod::lemma_fundamental_div_mod(x, 4096);
                    vstd::arithmetic::div_mod::lemma_fundamental_div_mod(L, 4096);
                }
                if x < L {
                    assert(file_byte(v_cur, dev_cur, x) == dev_block(dev0, sv as int + 1)[x % 4096]);
                    assert(x < cur);
                    assert(file_byte(v_old, dev0, x) == dev_block(dev0, sv as int + 1)[x % 4096]);
                } else {
                    assert(file_byte(v_cur, dev_cur, x) == 0u8);
                }
            } else {
                // an untouched data block
                assert(sv as int + 1 != tzid + 1);
                assert(dev_block(dev_cur, sv as int + 1) == dev_block(dev0, sv as int + 1));
                assert(file_byte(v_cur, dev_cur, x) == file_byte(v_old, dev0, x));
                if x >= cur {
                    assert(file_byte(v_old, dev0, x) == 0u8);
                } else if x >= L {
                    // past the new end but inside the old file: only the
                    // tail block of the cut file reaches here
                    let tb = L / 4096;
                    lemma_blk_in_range(x, cur);
                    assert(L % 4096 != 0) by {
                        if L % 4096 == 0 {
                            vstd::arithmetic::div_mod::lemma_fundamental_div_mod(L, 4096);
                            vstd::arithmetic::div_mod::lemma_fundamental_div_mod_converse(
                                L + 4095,
                                4096,
                                L / 4096,
                                4095,
                            );
                            assert(blocks_of(L) == L / 4096);
                            assert(b * 4096 <= x);
                            assert(x < L);
                        }
                    }
                    assert(b == tb) by {
                        vstd::arithmetic::div_mod::lemma_fundamental_div_mod(L, 4096);
                        vstd::arithmetic::div_mod::lemma_fundamental_div_mod_converse(
                            L + 4095,
                            4096,
                            L / 4096 + 1,
                            L % 4096 - 1,
                        );
                        assert(blocks_of(L) == L / 4096 + 1);
                        vstd::arithmetic::div_mod::lemma_div_is_ordered(L, x, 4096);
                    }
                    assert(slot_at(v_old, tb) == sv);
                    assert(tzid >= 1);
                    assert(false);
                }
            }
        } else {
            assert(file_byte(v_cur, dev_cur, x) == 0u8);
            if x < L && x < cur {
                assert(file_byte(v_old, dev0, x) == 0u8);
            }
        }
    }
}

/// Byte `pos` of a file lies in block `pos / 4096`, which is one of
/// the used blocks of a file `len` long.
pub proof fn lemma_blk_in_range(pos: int, len: int)
    requires
        0 <= pos < len,
    ensures
        0 <= pos / 4096 < blocks_of(len),
        (pos / 4096) * 4096 <= pos < (pos / 4096 + 1) * 4096,
        pos % 4096 == pos - (pos / 4096) * 4096,
{
    vstd::arithmetic::div_mod::lemma_fundamental_div_mod(pos, 4096);
    vstd::arithmetic::div_mod::lemma_mod_bound(pos, 4096);
    let q = pos / 4096;
    assert(len + 4095 >= 4096 * (q + 1));
    vstd::arithmetic::div_mod::lemma_div_is_ordered(4096 * (q + 1), len + 4095, 4096);
    vstd::arithmetic::div_mod::lemma_div_multiples_vanish(q + 1, 4096);
}

/// Every index inside block `blk` divides down to `blk`.
pub proof fn lemma_in_block(i: int, blk: int)
    requires
        blk * 4096 <= i < (blk + 1) * 4096,
        0 <= blk,
    ensures
        i / 4096 == blk,
        i % 4096 == i - blk * 4096,
{
    vstd::arithmetic::div_mod::lemma_fundamental_div_mod_converse(i, 4096, blk, i - blk * 4096);
}

/// The same inode reads the same file out of equivalent devices.
pub proof fn lemma_content_equiv(v: InodeView, d1: Seq<Seq<u8>>, d2: Seq<Seq<u8>>)
    requires
        dev_equiv(d1, d2),
    ensures
        forall|i: int| #[trigger] file_byte(v, d1, i) == file_byte(v, d2, i),
        file_content(v, d1) == file_content(v, d2),
        tail_zero(v, d1) == tail_zero(v, d2),
{
    assert forall|i: int| #[trigger] file_byte(v, d1, i) == file_byte(v, d2, i) by {}
    assert(file_content(v, d1) =~= file_content(v, d2));
    assert forall|i: int| #[trigger] file_byte(v, d2, i) == file_byte(v, d1, i) by {}
}

/// Append `n` zero bytes.
fn append_zeros(v: &mut Vec<u8>, n: usize)
    requires
        old(v)@.len() + n <= usize::MAX,
    ensures
        final(v)@.len() == old(v)@.len() + n,
        forall|i: int| 0 <= i < old(v)@.len() ==> final(v)@[i] == old(v)@[i],
        forall|i: int| old(v)@.len() <= i < final(v)@.len() ==> final(v)@[i] == 0u8,
{
    let mut k: usize = 0;
    while k < n
        invariant
            v@.len() == old(v)@.len() + k,
            k <= n,
            old(v)@.len() + n <= usize::MAX,
            forall|i: int| 0 <= i < old(v)@.len() ==> v@[i] == old(v)@[i],
            forall|i: int| old(v)@.len() <= i < v@.len() ==> v@[i] == 0u8,
        decreases n - k,
    {
        v.push(0u8);
        k = k + 1;
    }
}

/// A sequence of `n` zero bytes.
pub open spec fn zeros(n: int) -> Seq<u8> {
    Seq::new(n as nat, |i: int| 0u8)
}

/// Reading the whole file back returns its content: a read at offset 0
/// whose count reaches the end returns every byte.
pub proof fn lemma_read_back_all(c: Seq<u8>, n: int)
    requires
        n >= c.len(),
    ensures
        read_result(c, 0, n) == c,
{
    if 0 >= c.len() {
        assert(read_result(c, 0, n) =~= c);
    } else {
        assert(read_result(c, 0, n) =~= c);
    }
}

/// Round trip: after writing `data` at `offset`, reading `data.len()`
/// bytes back at `offset` returns exactly `data`.
pub proof fn lemma_write_then_read(c: Seq<u8>, offset: int, data: Seq<u8>)
    requires
        0 <= offset,
    ensures
        read_result(write_result(c, offset, data), offset, data.len() as int) == data,
{
    let w = write_result(c, offset, data);
    assert(read_result(w, offset, data.len() as int) =~= data);
}

/// Writes applied in order concatenate: a write that starts at or past
/// the current end extends the file with the hole read as zeros.
pub proof fn lemma_ordered_write_extends(c: Seq<u8>, offset: int, data: Seq<u8>)
    requires
        c.len() <= offset,
    ensures
        write_result(c, offset, data) == c + zeros(offset - c.len()) + data,
{
    assert(write_result(c, offset, data) =~= c + zeros(offset - c.len()) + data);
}

/// Two views with the same length and slot table describe the same
/// file out of the same device.
pub proof fn lemma_content_same_slots(v1: InodeView, v2: InodeView, dev: Seq<Seq<u8>>)
    requires
        v1.length == v2.length,
        v1.slots == v2.slots,
    ensures
        forall|i: int| #[trigger] slot_at(v2, i) == slot_at(v1, i),
        forall|x: int| #[trigger] file_byte(v2, dev, x) == file_byte(v1, dev, x),
        file_content(v2, dev) == file_content(v1, dev),
        tail_zero(v2, dev) == tail_zero(v1, dev),
{
    assert forall|i: int| #[trigger] slot_at(v2, i) == slot_at(v1, i) by {}
    assert forall|x: int| #[trigger] file_byte(v2, dev, x) == file_byte(v1, dev, x) by {}
    assert(file_content(v2, dev) =~= file_content(v1, dev));
    assert forall|x: int| #[trigger] file_byte(v1, dev, x) == file_byte(v2, dev, x) by {}
}

/// A write to a device block that is neither a used data block of the
/// inode nor inside its used range leaves the inode's file unchanged.
pub proof fn lemma_untouched_block(
    v: InodeView,
    id: Id,
    bm: Seq<u8>,
    d1: Seq<Seq<u8>>,
    d2: Seq<Seq<u8>>,
    b: int,
)
    requires
        slots_ok(v, id, bm),
        forall|db: int| db != b ==> #[trigger] dev_block(d2, db) == dev_block(d1, db),
        !is_slot(v, b - 1),
    ensures
        forall|x: int| #[trigger] file_byte(v, d2, x) == file_byte(v, d1, x),
        file_content(v, d2) == file_content(v, d1),
        tail_zero(v, d2) == tail_zero(v, d1),
{
    assert forall|x: int| #[trigger] file_byte(v, d2, x) == file_byte(v, d1, x) by {
        let blk = x / 4096;
        let sv = slot_at(v, blk);
        if sv != 0 {
            assert(blk < blocks_of(v.length as int)) by {
                if blk >= blocks_of(v.length as int) {
                    assert(slot_at(v, blk) == 0);
                }
            }
            assert(0 <= blk) by {
                if blk < 0 {
                    assert(slot_at(v, blk) == 0);
                }
            }
            assert(sv as int + 1 != b) by {
                if sv as int + 1 == b {
                    assert(is_slot(v, b - 1));
                }
            }
        }
    }
    assert(file_content(v, d2) =~= file_content(v, d1));
    assert forall|x: int| #[trigger] file_byte(v, d1, x) == file_byte(v, d2, x) by {}
}

/// An inode is still sound, with the same file, after another inode's
/// operation that never touched its block, its data blocks, or their
/// bitmap bits.
pub proof fn lemma_preserved(p: Inode, bm1: Seq<u8>, d1: Seq<Seq<u8>>, bm2: Seq<u8>, d2: Seq<
    Seq<u8>,
>)
    requires
        inode_ok(p, bm1, d1),
        allocated(bm2, p.spec_id() as int),
        forall|s: int| #[trigger] is_slot(p@, s) && allocated(bm1, s) ==> allocated(bm2, s),
        forall|db: int|
            2 <= db && allocated(bm1, db - 1) && (db == p.spec_id() as int + 1 || is_slot(
                p@,
                db - 1,
            )) ==> #[trigger] dev_block(d2, db) == dev_block(d1, db),
    ensures
        inode_ok(p, bm2, d2),
        file_content(p@, d2) == file_content(p@, d1),
        forall|x: int| #[trigger] file_byte(p@, d2, x) == file_byte(p@, d1, x),
{
    let v = p@;
    assert forall|x: int| #[trigger] file_byte(v, d2, x) == file_byte(v, d1, x) by {
        let blk = x / 4096;
        let sv = slot_at(v, blk);
        if sv != 0 {
            assert(0 <= blk < blocks_of(v.length as int)) by {
                if !(0 <= blk < blocks_of(v.length as int)) {
                    assert(slot_at(v, blk) == 0);
                }
            }
            assert(is_slot(v, sv as int));
            assert(allocated(bm1, sv as int));
            assert(dev_block(d2, sv as int + 1) == dev_block(d1, sv as int + 1));
        }
    }
    assert(file_content(v, d2) =~= file_content(v, d1));
    assert(tail_zero(v, d2)) by {
        assert forall|x: int|
            v.length <= x < blocks_of(v.length as int) * 4096 implies #[trigger] file_byte(
            v,
            d2,
            x,
        ) == 0u8 by {
            assert(file_byte(v, d2, x) == file_byte(v, d1, x));
        }
    }
    assert forall|y: int|
        0 <= y < blocks_of(v.length as int) && #[trigger] slot_at(v, y) != 0 implies allocated(
        bm2,
        slot_at(v, y) as int,
    ) && slot_at(v, y) != p.spec_id() by {
        assert(is_slot(v, slot_at(v, y) as int));
        assert(allocated(bm1, slot_at(v, y) as int));
    }
}

/// The content after a whole sequence of writes, applied in order.
pub open spec fn apply_writes(c: Seq<u8>, ws: Seq<(int, Seq<u8>)>) -> Seq<u8>
    decreases ws.len(),
{
    if ws.len() == 0 {
        c
    } else {
        apply_writes(write_result(c, ws[0].0, ws[0].1), ws.subrange(1, ws.len() as int))
    }
}

/// Each write of the sequence starts at or past the end the previous
/// writes reached, starting from a file `len` long.
pub open spec fn writes_in_order(len: int, ws: Seq<(int, Seq<u8>)>) -> bool
    decreases ws.len(),
{
    ws.len() == 0 || (ws[0].0 >= len && writes_in_order(
        ws[0].0 + ws[0].1.len(),
        ws.subrange(1, ws.len() as int),
    ))
}

/// The concatenation such a sequence of writes lays out: each datum
/// behind the zeros of the hole before it.
pub open spec fn laid_out(len: int, ws: Seq<(int, Seq<u8>)>) -> Seq<u8>
    decreases ws.len(),
{
    if ws.len() == 0 {
        Seq::empty()
    } else {
        zeros(ws[0].0 - len) + ws[0].1 + laid_out(
            ws[0].0 + ws[0].1.len(),
            ws.subrange(1, ws.len() as int),
        )
    }
}

/// Writes applied in order produce the exact concatenation of their
/// data with the holes between them reading as zeros; together with
/// [`lemma_read_back_all`], a read of the whole file returns it.
pub proof fn lemma_writes_concatenate(c: Seq<u8>, ws: Seq<(int, Seq<u8>)>)
    requires
        writes_in_order(c.len() as int, ws),
    ensures
        apply_writes(c, ws) == c + laid_out(c.len() as int, ws),
    decreases ws.len(),
{
    if ws.len() == 0 {
        assert(apply_writes(c, ws) =~= c + laid_out(c.len() as int, ws));
    } else {
        let o = ws[0].0;
        let d = ws[0].1;
        let rest = ws.subrange(1, ws.len() as int);
        lemma_ordered_write_extends(c, o, d);
        let c1 = write_result(c, o, d);
        assert(c1.len() == o + d.len());
        lemma_writes_concatenate(c1, rest);
        assert(apply_writes(c, ws) == c1 + laid_out(c1.len() as int, rest));
        assert(c1 + laid_out(c1.len() as int, rest) =~= c + laid_out(c.len() as int, ws));
    }
}

/// A view with zero length, clear slots and zero metadata, as a fresh
/// inode block decodes.
pub open spec fn root_fresh(v: InodeView) -> bool {
    &&& v.length == 0
    &&& v.mode == 0
    &&& v.nlink == 0
    &&& v.uid == 0
    &&& v.gid == 0
    &&& forall|i: int| 0 <= i < DIRECT_BLK_CNT ==> #[trigger] v.slots[i] == 0
}

/// The 64-bit successor, wrapping at the top.
pub open spec fn wrap_inc(x: u64) -> u64 {
    if x == u64::MAX {
        0
    } else {
        (x + 1) as u64
    }
}

} // verus!
