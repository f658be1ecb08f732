//! The operations a ring cannot do: each becomes a job for the pool, under a
//! token its continuation is registered with.
use crate::conn::FsConn;
use crate::copy::CopyRange;
use crate::dirwalk::list_how;
use crate::engine::Engine;
use crate::errno::{Errno, Error};
use crate::file::{Anchor, File};
use crate::kernel;
use crate::kernel::Call;
use crate::names;
use crate::names::Personality;
use crate::offload::{OffloadEntry, OffloadRegistry};
use crate::policy;
use crate::policy::{PrivilegedXattrs, RawOpenHow, SpecialFiles};
use crate::sys;
use crate::sys::O_DIRECTORY;
use crate::table::{FsCore, ReapedFs};
use vstd::prelude::*;

verus! {

/// A job for the pool. `T` is a descriptor and `A` a set of file attributes.
pub enum Blocking<T, A> {
    /// List the names of a file's extended attributes.
    ListXattr(File<T>),
    /// The statistics of a file's filesystem.
    StatFs(File<T>),
    /// The statistics of an anchor's filesystem.
    StatFsAnchor(Anchor<T>),
    GetAttrs(File<T>),
    SetAttrs(File<T>, A),
    /// Copy a range, step by step.
    Copy { src: File<T>, dst: File<T>, range: CopyRange },
    /// Remove an attribute the server owns.
    RemoveXattr { file: File<T>, name: Vec<u8> },
    /// Nothing to run: the answer is this error.
    Refuse(Error),
}

impl<S> FsConn<S> {
    /// What registering a continuation for this connection does.
    pub open spec fn registers<D>(
        &self,
        after: OffloadRegistry<D>,
        before: OffloadRegistry<D>,
        deliver: D,
        token: u64,
    ) -> bool {
        &&& token == before.next
        &&& after.next == sys::next_generation(before.next)
        &&& after.reg@ == before.reg@.insert(token, OffloadEntry { owner: self.owner, deliver })
    }

    /// Run a job off the loop. Its outcome comes back under the token, and
    /// `deliver` is then run for this connection, the job having panicked or
    /// not.
    pub fn offload<D>(&self, reg: &mut OffloadRegistry<D>, deliver: D) -> (token: u64)
        ensures
            self.registers(*final(reg), *old(reg), deliver, token),
    {
        reg.register_offload(self.owner, deliver)
    }

    /// List the names of a file's extended attributes.
    pub fn flistxattr<T, A, D>(
        &self,
        reg: &mut OffloadRegistry<D>,
        f: File<T>,
        deliver: D,
    ) -> (r: (u64, Blocking<T, A>))
        ensures
            self.registers(*final(reg), *old(reg), deliver, r.0),
            r.1 == Blocking::<T, A>::ListXattr(f),
    {
        (self.offload(reg, deliver), Blocking::ListXattr(f))
    }

    /// The statistics of a file's filesystem.
    pub fn fstatfs<T, A, D>(
        &self,
        reg: &mut OffloadRegistry<D>,
        f: File<T>,
        deliver: D,
    ) -> (r: (u64, Blocking<T, A>))
        ensures
            self.registers(*final(reg), *old(reg), deliver, r.0),
            r.1 == Blocking::<T, A>::StatFs(f),
    {
        (self.offload(reg, deliver), Blocking::StatFs(f))
    }

    /// The statistics of an anchor's filesystem. The job holds a share of the
    /// anchor, so it outlives the caller's.
    pub fn fstatfs_anchor<T, A, D>(
        &self,
        reg: &mut OffloadRegistry<D>,
        anchor: &Anchor<T>,
        deliver: D,
    ) -> (r: (u64, Blocking<T, A>))
        ensures
            self.registers(*final(reg), *old(reg), deliver, r.0),
            r.1 == Blocking::<T, A>::StatFsAnchor(*anchor),
    {
        (self.offload(reg, deliver), Blocking::StatFsAnchor(anchor.another()))
    }

    /// Read a file's attributes.
    pub fn fget_zfs_attrs<T, A, D>(
        &self,
        reg: &mut OffloadRegistry<D>,
        f: File<T>,
        deliver: D,
    ) -> (r: (u64, Blocking<T, A>))
        ensures
            self.registers(*final(reg), *old(reg), deliver, r.0),
            r.1 == Blocking::<T, A>::GetAttrs(f),
    {
        (self.offload(reg, deliver), Blocking::GetAttrs(f))
    }

    /// Set a file's attributes.
    pub fn fset_zfs_attrs<T, A, D>(
        &self,
        reg: &mut OffloadRegistry<D>,
        f: File<T>,
        attrs: A,
        deliver: D,
    ) -> (r: (u64, Blocking<T, A>))
        ensures
            self.registers(*final(reg), *old(reg), deliver, r.0),
            r.1 == Blocking::<T, A>::SetAttrs(f, attrs),
    {
        (self.offload(reg, deliver), Blocking::SetAttrs(f, attrs))
    }

    /// Copy a range between two files.
    pub fn copy_file_range<T, A, D>(
        &self,
        reg: &mut OffloadRegistry<D>,
        src: File<T>,
        dst: File<T>,
        off_src: u64,
        off_dst: u64,
        len: u64,
        deliver: D,
    ) -> (r: (u64, Blocking<T, A>))
        ensures
            self.registers(*final(reg), *old(reg), deliver, r.0),
            r.1 == (Blocking::<T, A>::Copy {
                src,
                dst,
                range: CopyRange {
                    off_src,
                    off_dst,
                    len,
                    total: 0,
                    buffered: false,
                    held: 0,
                    written: 0,
                },
            }),
    {
        let range = CopyRange::new(off_src, off_dst, len);
        (self.offload(reg, deliver), Blocking::Copy { src, dst, range })
    }

    /// Remove an attribute the server owns. The removal runs under the
    /// reactor's own credentials, so a name that is not allowlisted is refused
    /// with `EPERM`, and answered the way every job is.
    pub fn fremovexattr<T, A, D>(
        &self,
        reg: &mut OffloadRegistry<D>,
        allowed: &PrivilegedXattrs,
        f: File<T>,
        name: Vec<u8>,
        deliver: D,
    ) -> (r: (u64, Blocking<T, A>))
        ensures
            self.registers(*final(reg), *old(reg), deliver, r.0),
            r.1 == (if allowed.covers(name@) {
                Blocking::<T, A>::RemoveXattr { file: f, name }
            } else {
                Blocking::Refuse(Error::Errno(Errno::EPERM))
            }),
    {
        let token = self.offload(reg, deliver);
        if !allowed.permits(name.as_slice()) {
            return (token, Blocking::Refuse(Error::Errno(Errno::EPERM)));
        }
        (token, Blocking::RemoveXattr { file: f, name })
    }

    /// Open a directory to list it: the anchor itself. Its stream is then made
    /// off the loop.
    pub fn open_dir<T, R, C>(
        &mut self,
        fs: &mut FsCore<T, R, C, S>,
        eng: &mut Engine,
        who: Personality,
        anchor: &Anchor<T>,
        cb: C,
    ) -> (r: ReapedFs<T, R, C, S>)
        requires
            old(fs).wf(),
        ensures
            final(fs).wf(),
            *final(self) == old(self).after_submit(),
            exists|path: Vec<u8>| {
                &&& path@ == names::dot()
                &&& #[trigger] final(fs).open_staged(
                    *old(fs),
                    *final(eng),
                    *old(eng),
                    who.spec_id(),
                    *anchor,
                    path,
                    Self::served_how(
                        RawOpenHow { flags: O_DIRECTORY, mode: 0, resolve: 0 },
                        SpecialFiles::Guard,
                    ),
                    policy::guard_applies(O_DIRECTORY, SpecialFiles::Guard),
                    old(self).spec_waiter(cb),
                    r,
                )
            },
            kernel::submitted_as(
                *old(fs),
                *old(eng),
                *final(fs),
                *final(eng),
                who.spec_id(),
                (Call::Open {
                    dir: anchor.raw,
                    name: seq![0x2eu8],
                    how: RawOpenHow { flags: 0x1_0000, mode: 0, resolve: 0x0d },
                    guarded: false,
                }),
                set![anchor.fd],
                Seq::empty(),
                old(self).spec_waiter(cb),
                r,
            ),
    {
        let mut path: Vec<u8> = Vec::new();
        path.push(46);
        assert(path@ =~= names::dot());
        assert(0x1_0000u64 & 0x21_0800 != 0 && 0u64 & 0x1c == 0 && 0u64 | 0x0d == 0x0d)
            by (bit_vector);
        self.open(fs, eng, who, anchor, path, list_how(), SpecialFiles::Guard, cb)
    }
}

/// A job's continuation is registered for the connection it runs for, under a
/// token that no registration had before, and leaves every other where it was.
pub proof fn law_job_is_registered_for_its_connection<S, D>(
    conn: FsConn<S>,
    after: OffloadRegistry<D>,
    before: OffloadRegistry<D>,
    deliver: D,
    token: u64,
    other: u64,
)
    requires
        conn.registers(after, before, deliver, token),
    ensures
        after.reg@.contains_key(token),
        after.reg@[token].owner == conn.owner,
        after.reg@[token].deliver == deliver,
        other != token ==> after.reg@.contains_key(other) == before.reg@.contains_key(other),
        other != token && after.reg@.contains_key(other) ==> after.reg@[other] == before.reg@[other],
        token == before.next,
        after.next != token,
{
}

} // verus!
