//! A read-only network filesystem over a remote archive of debug symbols.
//!
//! A client browses a two-level directory tree keyed by build-id and reads
//! ELF debug files on demand.  Each read is satisfied by range-fetching a
//! compressed archive member from a remote mirror, streaming it through
//! decompression, and demultiplexing a nested archive to locate the
//! requested payload.
//!
//! The modules here hold the verified core: the unix-archive parser, the
//! control-file paragraph parser, the directory tree with its remote-file
//! protocol adapter, the range planning for HTTP reads, and the tar
//! demultiplexer.  Network transport and the protocol server itself are
//! unverified callers of this crate.

pub mod ar;
pub mod tar;
pub mod deb822;
pub mod debugfs;
pub mod hrange;
pub mod index;
pub mod proto;
pub mod text;
pub mod xz;

use vstd::prelude::*;

verus! {

/// Error reported to remote-file protocol clients: an integer-and-tag pair
/// modeled on POSIX errno values.
#[derive(Clone, Copy, PartialEq, Eq, Structural, Debug)]
pub enum FsError {
    /// Write, create, unlink, wstat, or a non-read open.
    Perm,
    /// A walk miss on a final component.
    Noent,
    /// An internal failure during an open or read.
    Io,
    /// A stat serialization failure.
    Inval,
    /// A non-sequential read on a streaming open.
    Espipe,
    /// An upstream HTTP failure at session attach.
    Remoteio,
}

impl FsError {
    /// The numeric errno value sent on the wire.
    pub fn code(&self) -> (c: u32)
        ensures
            c == self.code_spec(),
    {
        match self {
            FsError::Perm => 1,
            FsError::Noent => 2,
            FsError::Io => 5,
            FsError::Inval => 22,
            FsError::Espipe => 29,
            FsError::Remoteio => 121,
        }
    }

    pub open spec fn code_spec(&self) -> u32 {
        match self {
            FsError::Perm => 1,
            FsError::Noent => 2,
            FsError::Io => 5,
            FsError::Inval => 22,
            FsError::Espipe => 29,
            FsError::Remoteio => 121,
        }
    }

    /// The symbolic tag sent beside the code.
    pub fn tag(&self) -> (t: &'static str)
        ensures
            t@ == self.tag_spec(),
    {
        match self {
            FsError::Perm => "EPERM",
            FsError::Noent => "ENOENT",
            FsError::Io => "EIO",
            FsError::Inval => "EINVAL",
            FsError::Espipe => "ESPIPE",
            FsError::Remoteio => "EREMOTEIO",
        }
    }

    pub open spec fn tag_spec(&self) -> Seq<char> {
        match self {
            FsError::Perm => "EPERM"@,
            FsError::Noent => "ENOENT"@,
            FsError::Io => "EIO"@,
            FsError::Inval => "EINVAL"@,
            FsError::Espipe => "ESPIPE"@,
            FsError::Remoteio => "EREMOTEIO"@,
        }
    }
}

} // verus!
