//! Block device abstraction: fixed 4096-byte blocks addressed by a
//! 16-bit id.  The memory-backed device is verified here; a device that
//! persists blocks as files lives with the host bridge and implements
//! the same trait.

use vstd::prelude::*;
use vstd::slice::slice_to_vec;

use crate::BLOCK_SIZE;
use crate::Id;
use crate::RfsError;

verus! {

/// A block of all zero bytes, what a never-written block reads as.
pub open spec fn zero_block() -> Seq<u8> {
    Seq::new(BLOCK_SIZE as nat, |i: int| 0u8)
}

/// Block `i` of the device picture `dev`; ids past the end of the
/// picture have never been written and read as zeros.
pub open spec fn dev_block(dev: Seq<Seq<u8>>, i: int) -> Seq<u8> {
    if 0 <= i < dev.len() {
        dev[i]
    } else {
        zero_block()
    }
}

/// Two device pictures hold the same bytes in every block.
pub open spec fn dev_equiv(d1: Seq<Seq<u8>>, d2: Seq<Seq<u8>>) -> bool {
    forall|i: int|
        #![trigger dev_block(d1, i)]
        #![trigger dev_block(d2, i)]
        dev_block(d1, i) == dev_block(d2, i)
}

/// The device picture `d2` equals `d1` with block `at` replaced by `data`.
pub open spec fn dev_updated(d1: Seq<Seq<u8>>, d2: Seq<Seq<u8>>, at: int, data: Seq<u8>) -> bool {
    forall|i: int|
        #![trigger dev_block(d1, i)]
        #![trigger dev_block(d2, i)]
        dev_block(d2, i) == if i == at {
            data
        } else {
            dev_block(d1, i)
        }
}

/// A capability to read and write fixed-size blocks.
///
/// `dev` is the abstract picture of the device: the sequence of blocks
/// written so far.  A failing operation leaves the picture unchanged
/// and reports `Eio`; what else an implementation does on failure is
/// its own business.
pub trait BlockIO: Sized {
    /// The abstract contents of the device.
    spec fn dev(&self) -> Seq<Seq<u8>>;

    /// The invariant the device's representation maintains.
    spec fn inv(&self) -> bool;

    /// Whether this device never fails: reads and writes always
    /// return `Ok`.  The memory-backed device is infallible; a device
    /// at an I/O edge is not.
    spec fn infallible(&self) -> bool;

    /// Every block of a well-formed device holds exactly one block's bytes.
    proof fn blocks_sized(&self)
        requires
            self.inv(),
        ensures
            forall|i: int| (#[trigger] dev_block(self.dev(), i)).len() == BLOCK_SIZE,
    ;

    /// Read one block; blocks never written read as zeros.
    fn read(&mut self, block_id: Id) -> (r: Result<Vec<u8>, RfsError>)
        requires
            old(self).inv(),
        ensures
            final(self).inv(),
            final(self).infallible() == old(self).infallible(),
            old(self).infallible() ==> r matches Ok(_),
            dev_equiv(old(self).dev(), final(self).dev()),
            r matches Ok(b) ==> b@ == dev_block(old(self).dev(), block_id as int),
            r matches Err(e) ==> e == RfsError::Eio,
    ;

    /// Write one block in full.
    fn write(&mut self, block_id: Id, data: &[u8]) -> (r: Result<(), RfsError>)
        requires
            old(self).inv(),
            data@.len() == BLOCK_SIZE,
        ensures
            final(self).inv(),
            final(self).infallible() == old(self).infallible(),
            old(self).infallible() ==> r matches Ok(_),
            r matches Ok(_) ==> dev_updated(
                old(self).dev(),
                final(self).dev(),
                block_id as int,
                data@,
            ),
            r matches Err(e) ==> e == RfsError::Eio && dev_equiv(
                old(self).dev(),
                final(self).dev(),
            ),
    ;
}

/// A memory-backed device: a growable sequence of blocks, extended
/// with zero blocks to cover any id that is read or written.
pub struct FakeMemBlockIO {
    blocks: Vec<Vec<u8>>,
}

impl FakeMemBlockIO {
    /// An empty device; every block reads as zeros.
    pub fn new() -> (r: FakeMemBlockIO)
        ensures
            r.inv(),
            r.infallible(),
            r.dev().len() == 0,
    {
        FakeMemBlockIO { blocks: Vec::new() }
    }

    /// Grow the device with zero blocks until `block_id` is in range.
    fn ensure_length(&mut self, block_id: Id)
        requires
            old(self).inv(),
        ensures
            final(self).inv(),
            dev_equiv(old(self).dev(), final(self).dev()),
            final(self).dev().len() > block_id as int,
    {
        while self.blocks.len() <= block_id as usize
            invariant
                self.inv(),
                dev_equiv(old(self).dev(), self.dev()),
                self.dev().len() >= old(self).dev().len(),
            decreases block_id as int + 1 - self.blocks.len(),
        {
            let ghost pre = self.dev();
            let zeros: Vec<u8> = vec![0u8; BLOCK_SIZE];
            assert(zeros@ =~= zero_block());
            self.blocks.push(zeros);
            assert forall|i: int| #[trigger] dev_block(pre, i) == dev_block(self.dev(), i) by {
                if i == pre.len() {
                    assert(dev_block(pre, i) == zero_block());
                }
            }
        }
    }
}

impl BlockIO for FakeMemBlockIO {
    closed spec fn dev(&self) -> Seq<Seq<u8>> {
        Seq::new(self.blocks@.len(), |i: int| self.blocks@[i]@)
    }

    closed spec fn inv(&self) -> bool {
        forall|i: int|
            0 <= i < self.blocks@.len() ==> (#[trigger] self.blocks@[i]@).len() == BLOCK_SIZE
    }

    open spec fn infallible(&self) -> bool {
        true
    }

    proof fn blocks_sized(&self) {
        assert forall|i: int| (#[trigger] dev_block(self.dev(), i)).len() == BLOCK_SIZE by {
            if !(0 <= i < self.dev().len()) {
                assert(dev_block(self.dev(), i) == zero_block());
            }
        }
    }

    fn read(&mut self, block_id: Id) -> (r: Result<Vec<u8>, RfsError>) {
        self.ensure_length(block_id);
        let block: &Vec<u8> = &self.blocks[block_id as usize];
        Ok(slice_to_vec(block.as_slice()))
    }

    fn write(&mut self, block_id: Id, data: &[u8]) -> (r: Result<(), RfsError>) {
        self.ensure_length(block_id);
        let ghost pre = self.dev();
        let copy: Vec<u8> = slice_to_vec(data);
        self.blocks.set(block_id as usize, copy);
        assert forall|i: int|
            #[trigger] dev_block(self.dev(), i) == if i == block_id as int {
                data@
            } else {
                dev_block(pre, i)
            } by {}
        Ok(())
    }
}

} // verus!
