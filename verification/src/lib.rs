//! A user-space filesystem core backed by a fixed-size block device.
//!
//! The crate is organised in layers, leaf first:
//! block I/O ([`block_io`]), block allocation ([`block_mgr`]), inode
//! encoding ([`inode`]), file data ([`file_mgr`]) and the directory
//! namespace ([`fs`]).  Every layer is verified; the host bridge that
//! mounts the filesystem lives outside the library.

use vstd::prelude::*;

pub mod block_io;
pub mod block_mgr;
pub mod codec;
pub mod file_mgr;
pub mod fs;
pub mod inode;

verus! {

/// Size in bytes of one device block.
pub const BLOCK_SIZE: usize = 4096;

/// External identifier of an allocated block; `0` is the "no block"
/// sentinel used inside inode index slots.
pub type Id = u16;

/// Error kinds of the filesystem core, mapped to POSIX errno values at
/// the boundary by [`RfsError::errno`].
#[derive(Clone, Copy, Debug, PartialEq, Eq, Structural)]
pub enum RfsError {
    /// The free-block bitmap is exhausted.
    Enospc,
    /// An external id exceeds the 16-bit id space.
    Ebadf,
    /// A directory lookup missed.
    Enoent,
    /// Removal of a directory that still has entries.
    Enotempty,
    /// A name longer than a directory entry can hold.
    Enametoolong,
    /// A permission check failed.
    Eperm,
    /// A negative offset, or an unsupported type on decode.
    Einval,
    /// A file index beyond the direct-table capacity.
    Efbig,
    /// An error of the underlying block device.
    Eio,
}

impl RfsError {
    /// The POSIX errno value of this error kind.
    pub fn errno(&self) -> (r: i32)
        ensures
            r == self.spec_errno(),
    {
        match self {
            RfsError::Enospc => 28,
            RfsError::Ebadf => 9,
            RfsError::Enoent => 2,
            RfsError::Enotempty => 39,
            RfsError::Enametoolong => 36,
            RfsError::Eperm => 1,
            RfsError::Einval => 22,
            RfsError::Efbig => 27,
            RfsError::Eio => 5,
        }
    }

    /// The errno value, as a specification.
    pub open spec fn spec_errno(self) -> i32 {
        match self {
            RfsError::Enospc => 28,
            RfsError::Ebadf => 9,
            RfsError::Enoent => 2,
            RfsError::Enotempty => 39,
            RfsError::Enametoolong => 36,
            RfsError::Eperm => 1,
            RfsError::Einval => 22,
            RfsError::Efbig => 27,
            RfsError::Eio => 5,
        }
    }
}

} // verus!
