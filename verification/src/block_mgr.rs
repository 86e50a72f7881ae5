//! Block manager: superblock check, formatting, and the free-block
//! bitmap allocator.  Device block 0 is the superblock, block 1 the
//! bitmap; an external id `e` (1-based) lives in device block `e + 1`.

use vstd::prelude::*;
use vstd::pervasive::VecAdditionalExecFns;

use crate::block_io::BlockIO;
use crate::block_io::dev_block;
use crate::block_io::dev_equiv;
use crate::block_io::dev_updated;
use crate::block_io::zero_block;
use crate::BLOCK_SIZE;
use crate::Id;
use crate::RfsError;

verus! {

/// Number of bits the bitmap block holds.
pub const BITMAP_BITS: usize = 32768;

/// Bit `k` (0 is least significant) of byte `b`.
pub open spec fn nth_bit(b: u8, k: int) -> bool
    recommends
        0 <= k < 8,
{
    ((b >> (k as u8)) & 1) == 1
}

/// Bit `k` of the bitmap bytes `bm`.
pub open spec fn bm_bit(bm: Seq<u8>, k: int) -> bool
    recommends
        bm.len() == BLOCK_SIZE,
        0 <= k < BITMAP_BITS,
{
    nth_bit(bm[k / 8], k % 8)
}

/// External id `id` is marked allocated: its bit `id - 1` is set.
pub open spec fn allocated(bm: Seq<u8>, id: int) -> bool {
    1 <= id <= BITMAP_BITS && bm_bit(bm, id - 1)
}

/// Every bit of the bitmap is set: no block is free.
pub open spec fn bm_full(bm: Seq<u8>) -> bool {
    forall|k: int| 0 <= k < BITMAP_BITS ==> #[trigger] bm_bit(bm, k)
}

/// First four bytes of the block hold the filesystem magic `"rfs."`.
pub open spec fn is_magic(b: Seq<u8>) -> bool {
    b.len() >= 4 && b[0] == 114u8 && b[1] == 102u8 && b[2] == 115u8 && b[3] == 46u8
}

/// The superblock a format writes: the magic followed by zeros.
pub open spec fn super_block() -> Seq<u8> {
    Seq::new(
        BLOCK_SIZE as nat,
        |i: int|
            if i == 0 {
                114u8
            } else if i == 1 {
                102u8
            } else if i == 2 {
                115u8
            } else if i == 3 {
                46u8
            } else {
                0u8
            },
    )
}

/// Setting bit `k` of a byte leaves every other bit alone.
proof fn lemma_set_bit(b: u8, k: u8, j: u8)
    requires
        k < 8,
        j < 8,
    ensures
        (((b | (1u8 << k)) >> k) & 1) == 1,
        j != k ==> ((b | (1u8 << k)) >> j) & 1 == (b >> j) & 1,
{
    assert((((b | (1u8 << k)) >> k) & 1) == 1 && (j != k ==> ((b | (1u8 << k)) >> j) & 1 == (b
        >> j) & 1)) by (bit_vector)
        requires
            k < 8 && j < 8,
    ;
}

/// Clearing bit `k` of a byte leaves every other bit alone.
proof fn lemma_clear_bit(b: u8, k: u8, j: u8)
    requires
        k < 8,
        j < 8,
    ensures
        (((b & !(1u8 << k)) >> k) & 1) == 0,
        j != k ==> ((b & !(1u8 << k)) >> j) & 1 == (b >> j) & 1,
{
    assert((((b & !(1u8 << k)) >> k) & 1) == 0 && (j != k ==> ((b & !(1u8 << k)) >> j) & 1 == (b
        >> j) & 1)) by (bit_vector)
        requires
            k < 8 && j < 8,
    ;
}

/// A byte of all ones has every bit set.
proof fn lemma_full_byte(b: u8, j: u8)
    requires
        b == 0xff,
        j < 8,
    ensures
        ((b >> j) & 1) == 1,
{
    assert(b == 0xff && j < 8 ==> ((b >> j) & 1) == 1) by (bit_vector);
}

/// No id is allocated under an all-clear bitmap.
pub proof fn lemma_zero_bm_clear()
    ensures
        forall|j: int| !allocated(zero_block(), j),
{
    assert forall|j: int| !allocated(zero_block(), j) by {
        if 1 <= j <= BITMAP_BITS {
            let k = j - 1;
            let b = zero_block()[k / 8];
            assert(b == 0u8);
            let m = (k % 8) as u8;
            assert(((0u8 >> m) & 1) == 0) by (bit_vector);
        }
    }
}

/// Manager of the block device: checks and writes the superblock and
/// owns the in-memory mirror of the free-block bitmap, which is
/// written through to the device on every allocation and free.
pub struct BlockMgr<T: BlockIO> {
    block_io: Box<T>,
    bitmap_block: Vec<u8>,
}

impl<T: BlockIO> BlockMgr<T> {
    /// The abstract picture of the device underneath.
    pub closed spec fn dev(&self) -> Seq<Seq<u8>> {
        self.block_io.dev()
    }

    /// The in-memory mirror of the bitmap block.
    pub closed spec fn bm(&self) -> Seq<u8> {
        self.bitmap_block@
    }

    /// Representation invariant.
    pub closed spec fn inv(&self) -> bool {
        self.bitmap_block@.len() == BLOCK_SIZE && self.block_io.inv()
    }

    /// Whether the device underneath never fails.
    pub closed spec fn infallible(&self) -> bool {
        self.block_io.infallible()
    }

    /// Every device block holds exactly one block's bytes.
    pub proof fn blocks_sized(&self)
        requires
            self.inv(),
        ensures
            forall|i: int| (#[trigger] dev_block(self.dev(), i)).len() == BLOCK_SIZE,
    {
        self.block_io.blocks_sized();
    }

    /// A manager over `block_io` whose bitmap mirror starts all clear.
    pub fn new(block_io: Box<T>) -> (r: BlockMgr<T>)
        requires
            block_io.inv(),
        ensures
            r.inv(),
            r.infallible() == block_io.infallible(),
            r.dev() == block_io.dev(),
            r.bm() =~= zero_block(),
    {
        let bitmap: Vec<u8> = vec![0u8; BLOCK_SIZE];
        assert(bitmap@ =~= zero_block());
        BlockMgr { block_io, bitmap_block: bitmap }
    }

    /// Whether the device starts with the filesystem magic.
    pub fn is_formatted(&mut self) -> (r: Result<bool, RfsError>)
        requires
            old(self).inv(),
        ensures
            final(self).inv(),
            final(self).infallible() == old(self).infallible(),
            old(self).infallible() ==> r matches Ok(_),
            final(self).bm() == old(self).bm(),
            dev_equiv(old(self).dev(), final(self).dev()),
            r matches Ok(b) ==> b == is_magic(dev_block(old(self).dev(), 0)),
            r matches Err(e) ==> e == RfsError::Eio,
    {
        proof {
            self.block_io.blocks_sized();
        }
        let super_blk = self.block_io.read(0)?;
        Ok(super_blk[0] == 114 && super_blk[1] == 102 && super_blk[2] == 115 && super_blk[3] == 46)
    }

    /// Write a fresh superblock and an all-clear bitmap block.
    fn format(&mut self) -> (r: Result<(), RfsError>)
        requires
            old(self).inv(),
        ensures
            final(self).inv(),
            final(self).infallible() == old(self).infallible(),
            old(self).infallible() ==> r matches Ok(_),
            final(self).bm() == old(self).bm(),
            r matches Ok(_) ==> forall|i: int|
                #[trigger] dev_block(final(self).dev(), i) == if i == 0 {
                    super_block()
                } else if i == 1 {
                    zero_block()
                } else {
                    dev_block(old(self).dev(), i)
                },
            r matches Err(e) ==> e == RfsError::Eio && (forall|i: int|
                i != 0 ==> #[trigger] dev_block(final(self).dev(), i) == dev_block(
                    old(self).dev(),
                    i,
                )) && (dev_block(final(self).dev(), 0) == super_block() || dev_block(
                final(self).dev(),
                0,
            ) == dev_block(old(self).dev(), 0)),
    {
        let mut super_blk: Vec<u8> = vec![0u8; BLOCK_SIZE];
        super_blk.set(0, 114);
        super_blk.set(1, 102);
        super_blk.set(2, 115);
        super_blk.set(3, 46);
        assert(super_blk@ =~= super_block());
        self.block_io.write(0, super_blk.as_slice())?;
        let zeros: Vec<u8> = vec![0u8; BLOCK_SIZE];
        assert(zeros@ =~= zero_block());
        self.block_io.write(1, zeros.as_slice())?;
        Ok(())
    }

    /// Format if asked, then load the bitmap mirror from the device.
    pub fn init(&mut self, need_format: bool) -> (r: Result<(), RfsError>)
        requires
            old(self).inv(),
        ensures
            final(self).inv(),
            final(self).infallible() == old(self).infallible(),
            old(self).infallible() ==> r matches Ok(_),
            r matches Ok(_) ==> {
                &&& final(self).bm() == dev_block(final(self).dev(), 1)
                &&& need_format ==> forall|i: int|
                    #[trigger] dev_block(final(self).dev(), i) == if i == 0 {
                        super_block()
                    } else if i == 1 {
                        zero_block()
                    } else {
                        dev_block(old(self).dev(), i)
                    }
                &&& !need_format ==> dev_equiv(old(self).dev(), final(self).dev())
                    && final(self).bm() == dev_block(old(self).dev(), 1)
            },
            r matches Err(e) ==> e == RfsError::Eio && final(self).bm() == old(self).bm() && forall|
                i: int,
            |
                !(0 <= i <= 1) ==> #[trigger] dev_block(final(self).dev(), i) == dev_block(
                    old(self).dev(),
                    i,
                ),
    {
        if need_format {
            self.format()?;
        }
        let ghost dmid = self.dev();
        proof {
            self.block_io.blocks_sized();
        }
        let bitmap = self.block_io.read(1)?;
        self.bitmap_block = bitmap;
        proof {
            if need_format {
                assert forall|i: int|
                    #[trigger] dev_block(self.dev(), i) == (if i == 0 {
                        super_block()
                    } else if i == 1 {
                        zero_block()
                    } else {
                        dev_block(old(self).dev(), i)
                    }) by {
                    assert(dev_block(self.dev(), i) == dev_block(dmid, i));
                }
            }
        }
        Ok(())
    }

    /// Index of the lowest clear bit of the bitmap, or `Enospc` when
    /// every bit is set.
    fn first_empty_block(&self) -> (r: Result<Id, RfsError>)
        requires
            self.inv(),
        ensures
            r matches Ok(k) ==> {
                &&& 0 <= k < BITMAP_BITS
                &&& !bm_bit(self.bm(), k as int)
                &&& forall|j: int| 0 <= j < k ==> #[trigger] bm_bit(self.bm(), j)
            },
            r matches Err(e) ==> e == RfsError::Enospc && bm_full(self.bm()),
    {
        let mut i: usize = 0;
        while i < BLOCK_SIZE
            invariant
                self.inv(),
                i <= BLOCK_SIZE,
                forall|j: int| 0 <= j < i * 8 ==> #[trigger] bm_bit(self.bm(), j),
            decreases BLOCK_SIZE - i,
        {
            let b = self.bitmap_block[i];
            if b != 0xff {
                let mut k: u8 = 0;
                while k < 8
                    invariant
                        self.inv(),
                        i < BLOCK_SIZE,
                        k <= 8,
                        b == self.bm()[i as int],
                        forall|j: int| 0 <= j < k ==> nth_bit(b, j),
                        forall|j: int| 0 <= j < i * 8 ==> #[trigger] bm_bit(self.bm(), j),
                        b != 0xff,
                    decreases 8 - k,
                {
                    proof {
                        assert(((b >> k) & 1) == 0 || ((b >> k) & 1) == 1) by (bit_vector);
                    }
                    if (b >> k) & 1 == 0 {
                        let r = (i as u16) * 8 + (k as u16);
                        assert(r as int == i * 8 + k);
                        assert(!bm_bit(self.bm(), r as int)) by {
                            assert(r as int / 8 == i && r as int % 8 == k as int);
                        }
                        assert forall|j: int| 0 <= j < r implies #[trigger] bm_bit(
                            self.bm(),
                            j,
                        ) by {
                            if j >= i * 8 {
                                assert(j / 8 == i && j % 8 == j - i * 8);
                                assert(nth_bit(b, j - i * 8));
                            }
                        }
                        return Ok(r);
                    }
                    proof {
                        assert(nth_bit(b, k as int));
                    }
                    k = k + 1;
                }
                proof {
                    assert(nth_bit(b, 0) && nth_bit(b, 1) && nth_bit(b, 2) && nth_bit(b, 3)
                        && nth_bit(b, 4) && nth_bit(b, 5) && nth_bit(b, 6) && nth_bit(b, 7));
                    assert(b == 0xff) by (bit_vector)
                        requires
                            ((b >> 0u8) & 1) == 1 && ((b >> 1u8) & 1) == 1 && ((b >> 2u8) & 1) == 1
                                && ((b >> 3u8) & 1) == 1 && ((b >> 4u8) & 1) == 1 && ((b >> 5u8)
                                & 1) == 1 && ((b >> 6u8) & 1) == 1 && ((b >> 7u8) & 1) == 1,
                    ;
                    assert(false);
                }
            }
            i = i + 1;
            assert forall|j: int| 0 <= j < i * 8 implies #[trigger] bm_bit(self.bm(), j) by {
                if j >= (i - 1) * 8 {
                    assert(j / 8 == i - 1 && j % 8 == j - (i - 1) * 8);
                    lemma_full_byte(b, (j - (i - 1) * 8) as u8);
                }
            }
        }
        Err(RfsError::Enospc)
    }

    /// Allocate the lowest free block: set its bit, write the bitmap
    /// through, and return its external id, `bit index + 1`.  The
    /// first allocation after a format therefore returns id 1, the
    /// root inode.
    pub fn new_block(&mut self) -> (r: Result<Id, RfsError>)
        requires
            old(self).inv(),
        ensures
            final(self).inv(),
            final(self).infallible() == old(self).infallible(),
            old(self).infallible() ==> (r matches Ok(_)) || r == Err::<Id, RfsError>(
                RfsError::Enospc,
            ),
            bm_full(old(self).bm()) ==> r == Err::<Id, RfsError>(RfsError::Enospc),
            r matches Ok(id) ==> {
                &&& 1 <= id <= BITMAP_BITS
                &&& !allocated(old(self).bm(), id as int)
                &&& forall|j: int| 1 <= j < id ==> #[trigger] allocated(old(self).bm(), j)
                &&& forall|j: int|
                    #[trigger] allocated(final(self).bm(), j) <==> (allocated(old(self).bm(), j)
                        || j == id)
                &&& dev_updated(old(self).dev(), final(self).dev(), 1, final(self).bm())
            },
            r matches Err(e) ==> {
                &&& (e == RfsError::Enospc || e == RfsError::Eio)
                &&& e == RfsError::Enospc ==> bm_full(old(self).bm()) && final(self).bm() == old(
                    self,
                ).bm() && dev_equiv(old(self).dev(), final(self).dev())
                &&& e == RfsError::Eio ==> dev_equiv(old(self).dev(), final(self).dev()) && forall|
                    j: int,
                |
                    #[trigger] allocated(old(self).bm(), j) ==> allocated(final(self).bm(), j)
            },
    {
        let id = self.first_empty_block()?;
        let byte_i = (id / 8) as usize;
        let bit_i = (id % 8) as u8;
        let b = self.bitmap_block[byte_i];
        self.bitmap_block.set(byte_i, b | (1u8 << bit_i));
        assert forall|j: int|
            #[trigger] allocated(self.bm(), j) <==> (allocated(old(self).bm(), j) || j == id
                + 1) by {
            if 1 <= j <= BITMAP_BITS {
                let k = j - 1;
                lemma_set_bit(b, bit_i, (k % 8) as u8);
                if k / 8 != byte_i {
                    assert(self.bm()[k / 8] == old(self).bm()[k / 8]);
                } else {
                    assert(k == id ==> k % 8 == bit_i);
                    assert(k != id ==> (k % 8) as u8 != bit_i);
                }
            }
        }
        assert(allocated(self.bm(), id as int + 1));
        match self.block_io.write(1, self.bitmap_block.as_slice()) {
            Ok(_) => Ok(id + 1),
            Err(e) => Err(e),
        }
    }

    /// Free a block: clear its bit and write the bitmap through.  No
    /// block contents are scrubbed.
    pub fn del_block(&mut self, id: Id) -> (r: Result<(), RfsError>)
        requires
            old(self).inv(),
            1 <= id <= BITMAP_BITS,
        ensures
            final(self).inv(),
            final(self).infallible() == old(self).infallible(),
            old(self).infallible() ==> r matches Ok(_),
            forall|j: int|
                #[trigger] allocated(final(self).bm(), j) <==> (allocated(old(self).bm(), j) && j
                    != id),
            r matches Ok(_) ==> dev_updated(old(self).dev(), final(self).dev(), 1, final(self).bm()),
            r matches Err(e) ==> e == RfsError::Eio && dev_equiv(old(self).dev(), final(self).dev()),
    {
        let k = id - 1;
        let byte_i = (k / 8) as usize;
        let bit_i = (k % 8) as u8;
        let b = self.bitmap_block[byte_i];
        self.bitmap_block.set(byte_i, b & !(1u8 << bit_i));
        let r = self.block_io.write(1, self.bitmap_block.as_slice());
        assert forall|j: int|
            #[trigger] allocated(self.bm(), j) <==> (allocated(old(self).bm(), j) && j != id) by {
            if 1 <= j <= BITMAP_BITS {
                let m = j - 1;
                lemma_clear_bit(b, bit_i, (m % 8) as u8);
                if m / 8 != byte_i {
                    assert(self.bm()[m / 8] == old(self).bm()[m / 8]);
                } else {
                    assert(m == k ==> m % 8 == bit_i);
                    assert(m != k ==> (m % 8) as u8 != bit_i);
                }
            }
        }
        r
    }

    /// Whether external id `id` is currently marked allocated.
    pub fn is_allocated(&self, id: Id) -> (r: bool)
        requires
            self.inv(),
        ensures
            r == allocated(self.bm(), id as int),
    {
        if id < 1 || id as usize > BITMAP_BITS {
            return false;
        }
        let k = id - 1;
        let b = self.bitmap_block[(k / 8) as usize];
        let r = ((b >> ((k % 8) as u8)) & 1) == 1;
        assert(r == bm_bit(self.bm(), k as int)) by {
            assert(k as int / 8 == (k / 8) as usize as int && k as int % 8 == (k % 8) as u8 as int);
        }
        r
    }

    /// Read the block of an allocated external id.
    pub fn read_block(&mut self, id: Id) -> (r: Result<Vec<u8>, RfsError>)
        requires
            old(self).inv(),
            allocated(old(self).bm(), id as int),
        ensures
            final(self).inv(),
            final(self).infallible() == old(self).infallible(),
            old(self).infallible() ==> r matches Ok(_),
            final(self).bm() == old(self).bm(),
            dev_equiv(old(self).dev(), final(self).dev()),
            r matches Ok(b) ==> b@ == dev_block(old(self).dev(), id as int + 1) && b@.len()
                == BLOCK_SIZE,
            r matches Err(e) ==> e == RfsError::Eio,
    {
        proof {
            self.block_io.blocks_sized();
        }
        self.block_io.read(id + 1)
    }

    /// Write the block of an allocated external id in full.
    pub fn write_block(&mut self, id: Id, data: &[u8]) -> (r: Result<(), RfsError>)
        requires
            old(self).inv(),
            allocated(old(self).bm(), id as int),
            data@.len() == BLOCK_SIZE,
        ensures
            final(self).inv(),
            final(self).infallible() == old(self).infallible(),
            old(self).infallible() ==> r matches Ok(_),
            final(self).bm() == old(self).bm(),
            r matches Ok(_) ==> dev_updated(
                old(self).dev(),
                final(self).dev(),
                id as int + 1,
                data@,
            ),
            r matches Err(e) ==> e == RfsError::Eio && dev_equiv(old(self).dev(), final(self).dev()),
    {
        self.block_io.write(id + 1, data)
    }
}

} // verus!
