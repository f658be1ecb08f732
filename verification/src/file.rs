//! Reference-counted descriptors. `T` is the descriptor itself, which closes
//! when it is dropped; every holder shares it, so it closes when the last
//! holder lets go.
use crate::errno::{Errno, Error};
use std::sync::Arc;
use vstd::prelude::*;

verus! {

/// `Arc::clone`: another share of the same value.
#[verifier::external_body]
pub(crate) fn share<T>(a: &Arc<T>) -> (r: Arc<T>)
    ensures
        r == *a,
{
    Arc::clone(a)
}

/// An open file: its descriptor number and a share of the descriptor.
pub struct File<T> {
    pub raw: i32,
    pub fd: Arc<T>,
}

impl<T> File<T> {
    /// Wrap a freshly opened descriptor as a file handle.
    pub fn new(raw: i32, fd: Arc<T>) -> (r: File<T>)
        ensures
            r.raw == raw,
            r.fd == fd,
    {
        File { raw, fd }
    }

    /// The descriptor number.
    pub fn as_raw_fd(&self) -> (r: i32)
        ensures
            r == self.raw,
    {
        self.raw
    }

    /// Another handle on the same descriptor.
    pub fn another(&self) -> (r: File<T>)
        ensures
            r == *self,
    {
        File { raw: self.raw, fd: share(&self.fd) }
    }
}

/// A directory descriptor that anchors path resolution. An operation in
/// flight holds a share, so the descriptor can neither close nor be reused
/// under it.
pub struct Anchor<T> {
    pub raw: i32,
    pub fd: Arc<T>,
}

impl<T> Anchor<T> {
    /// Use an open descriptor as an anchor, sharing it. Whether it is a
    /// directory is the caller's to have checked.
    pub fn from_shared(f: &File<T>) -> (r: Anchor<T>)
        ensures
            r.raw == f.raw,
            r.fd == f.fd,
    {
        Anchor { raw: f.raw, fd: share(&f.fd) }
    }

    /// What an anchor made of a descriptor is, `mode` being what `fstat` gave
    /// of it: its own error, or the refusal of anything but a directory.
    pub open spec fn anchored(
        raw: i32,
        fd: Arc<T>,
        mode: Result<u16, Errno>,
        r: Result<Anchor<T>, Error>,
    ) -> bool {
        match mode {
            Err(e) => r == Err::<Anchor<T>, Error>(Error::Errno(e)),
            Ok(m) => if m & S_IFMT == S_IFDIR {
                r == Ok::<Anchor<T>, Error>(Anchor { raw, fd })
            } else {
                &&& r is Err
                &&& r->Err_0 is Validation
                &&& r->Err_0->Validation_0@ == "anchor fd is not a directory"@
            },
        }
    }

    /// Use a descriptor as an anchor.
    pub fn from_fd(raw: i32, fd: Arc<T>, mode: Result<u16, Errno>) -> (r: Result<Anchor<T>, Error>)
        ensures
            Self::anchored(raw, fd, mode, r),
    {
        match mode {
            Err(e) => Err(Error::Errno(e)),
            Ok(m) => {
                if m & S_IFMT == S_IFDIR {
                    Ok(Anchor { raw, fd })
                } else {
                    Err(Error::Validation("anchor fd is not a directory".to_owned()))
                }
            },
        }
    }

    /// Use an open directory as an anchor, sharing its descriptor.
    pub fn from_file(f: &File<T>, mode: Result<u16, Errno>) -> (r: Result<Anchor<T>, Error>)
        ensures
            Self::anchored(f.raw, f.fd, mode, r),
    {
        Self::from_fd(f.raw, share(&f.fd), mode)
    }

    pub fn raw_fd(&self) -> (r: i32)
        ensures
            r == self.raw,
    {
        self.raw
    }

    /// Another share of the same anchor.
    pub fn another(&self) -> (r: Anchor<T>)
        ensures
            r == *self,
    {
        Anchor { raw: self.raw, fd: share(&self.fd) }
    }
}

/// The file-type bits of a mode.
pub const S_IFMT: u16 = 0o170000;

/// The file type of a directory.
pub const S_IFDIR: u16 = 0o040000;

/// What `statx` reports of a file, as plain values.
#[derive(Clone, Copy, Debug, PartialEq, Eq)]
pub struct Statx {
    pub mask: u32,
    pub attributes: u64,
    pub nlink: u32,
    pub uid: u32,
    pub gid: u32,
    pub mode: u16,
    pub ino: u64,
    pub size: u64,
    pub blocks: u64,
    pub atime: (i64, u32),
    pub btime: (i64, u32),
    pub ctime: (i64, u32),
    pub mtime: (i64, u32),
    pub rdev: (u32, u32),
    pub dev: (u32, u32),
    pub mnt_id: u64,
    /// The change cookie, where it was asked for and the filesystem has one.
    pub change_cookie: Option<u64>,
}

impl Statx {
    pub open spec fn spec_is_dir(&self) -> bool {
        self.mode & S_IFMT == S_IFDIR
    }

    pub open spec fn spec_zeroed() -> Statx {
        Statx {
            mask: 0,
            attributes: 0,
            nlink: 0,
            uid: 0,
            gid: 0,
            mode: 0,
            ino: 0,
            size: 0,
            blocks: 0,
            atime: (0, 0),
            btime: (0, 0),
            ctime: (0, 0),
            mtime: (0, 0),
            rdev: (0, 0),
            dev: (0, 0),
            mnt_id: 0,
            change_cookie: None,
        }
    }

    /// The pad before the kernel has written it.
    pub fn zeroed() -> (r: Statx)
        ensures
            r == Statx::spec_zeroed(),
    {
        Statx {
            mask: 0,
            attributes: 0,
            nlink: 0,
            uid: 0,
            gid: 0,
            mode: 0,
            ino: 0,
            size: 0,
            blocks: 0,
            atime: (0, 0),
            btime: (0, 0),
            ctime: (0, 0),
            mtime: (0, 0),
            rdev: (0, 0),
            dev: (0, 0),
            mnt_id: 0,
            change_cookie: None,
        }
    }

    /// Whether the file is a directory.
    pub fn is_dir(&self) -> (r: bool)
        ensures
            r == self.spec_is_dir(),
    {
        self.mode & S_IFMT == S_IFDIR
    }
}

/// Only a directory becomes an anchor, by the type in its mode; what anything
/// else, or a failed `fstat`, is told, and that the anchor is the descriptor
/// given.
pub proof fn law_only_a_directory_anchors<T>(
    raw: i32,
    fd: Arc<T>,
    mode: Result<u16, Errno>,
    r: Result<Anchor<T>, Error>,
)
    requires
        Anchor::anchored(raw, fd, mode, r),
    ensures
        r is Ok <==> mode is Ok && mode->Ok_0 & 0xf000 == 0x4000,
        r is Ok ==> r->Ok_0.raw == raw && r->Ok_0.fd == fd,
        mode is Err ==> r == Err::<Anchor<T>, Error>(Error::Errno(mode->Err_0)),
        mode is Ok && r is Err ==> r->Err_0 is Validation,
{
}

/// Metadata is a directory's by the type in its mode.
pub proof fn law_directory_is_told_by_its_mode(st: Statx)
    ensures
        st.spec_is_dir() <==> st.mode & 0xf000 == 0x4000,
{
}

} // verus!
