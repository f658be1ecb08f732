//! The standalone reactor: its sizing, how its loop routes completions and
//! queued requests into the operation table, and how it is stopped.
use crate::engine::{Engine, Sqe};
use crate::errno::{Errno, Error};
use crate::file::{File, Statx};
use crate::handle;
use crate::handle::{FsHandle, FsInject};
use crate::offload_pool::{OffloadBounds, MAX_OFFLOAD_THREADS};
use crate::policy::PrivilegedXattrs;
use crate::sys;
use crate::sys::{
    unpack_raw, IORING_CQE_F_MORE, SLOT_MASK, TAG_CANCEL, TAG_FGETXATTR, TAG_FSETXATTR,
    TAG_FS_DOMAIN, TAG_WAKE,
};
use crate::table;
use crate::table::{FsCore, FsOutcome, FsWaiter, ReapedFs, XattrRemoval};
use std::sync::Arc;
use vstd::prelude::*;

verus! {

/// Sizing of a reactor.
#[derive(Clone, Copy, Debug, PartialEq, Eq, Structural)]
pub struct FsConfig {
    /// Submission-queue depth: how much work rides on one entry into the
    /// kernel.
    pub entries: u32,
    /// Operation-table slots: how many operations can be in flight.
    pub ops: u32,
    /// Sizing of the pool for blocking jobs.
    pub offload: OffloadBounds,
}

impl Default for FsConfig {
    fn default() -> (r: FsConfig)
        ensures
            r.entries == 4096,
            r.ops == 32768,
            r.offload == (OffloadBounds {
                floor: crate::offload_pool::OFFLOAD_FLOOR,
                ceiling: crate::offload_pool::OFFLOAD_CEILING,
            }),
    {
        FsConfig { entries: 4096, ops: 32768, offload: OffloadBounds::default() }
    }
}

/// What is said of a reactor's sizing, if it is refused.
pub open spec fn config_refusal(cfg: FsConfig) -> Option<Seq<char>> {
    if cfg.ops < 2 || cfg.ops > SLOT_MASK {
        Some("FsConfig::ops must be in 2..=SLOT_MASK"@)
    } else if cfg.entries < 4 {
        Some("FsConfig::entries must be at least 4"@)
    } else if cfg.offload.floor > MAX_OFFLOAD_THREADS || cfg.offload.ceiling > MAX_OFFLOAD_THREADS {
        Some("FsConfig::offload must be at most MAX_OFFLOAD_THREADS"@)
    } else {
        None
    }
}

impl FsConfig {
    /// Whether a reactor can be sized so.
    pub fn check(self) -> (r: Result<(), Error>)
        ensures
            match r {
                Ok(_) => config_refusal(self) is None,
                Err(e) => e is Validation && config_refusal(self) == Some(e->Validation_0@),
            },
    {
        if self.ops < 2 || self.ops as u64 > SLOT_MASK {
            return Err(Error::Validation("FsConfig::ops must be in 2..=SLOT_MASK".to_owned()));
        }
        if self.entries < 4 {
            return Err(Error::Validation("FsConfig::entries must be at least 4".to_owned()));
        }
        if self.offload.floor > MAX_OFFLOAD_THREADS || self.offload.ceiling > MAX_OFFLOAD_THREADS {
            return Err(
                Error::Validation(
                    "FsConfig::offload must be at most MAX_OFFLOAD_THREADS".to_owned(),
                ),
            );
        }
        Ok(())
    }
}

/// Stops a running loop.
#[derive(Clone, Copy, Debug)]
pub struct ShutdownHandle {}

impl ShutdownHandle {
    /// Tell the loop to stop, and wake it to see so. More than once is no
    /// different.
    pub fn shutdown<T, R>(&self, h: &mut FsHandle<T, R>)
        requires
            old(h).wf(),
        ensures
            final(h).wf(),
            final(h).stop,
            final(h).queue@ == old(h).queue@,
            final(h).pokes == handle::poked(old(h).pokes),
    {
        h.stop = true;
        h.pokes = h.pokes.saturating_add(1);
    }
}

/// What a completion was, and what is to be done.
pub enum Dispatched<T, R, C, S> {
    /// No completion of this reactor's.
    Foreign,
    /// The loop was woken: arm the wake again unless it is stopping, and take
    /// the queued requests and the finished jobs.
    Wake { rearm: bool },
    /// A cancellation's own completion.
    Cancel,
    /// An operation's completion.
    Reaped(ReapedFs<T, R, C, S>),
}

/// What became of a queued request.
pub enum Routed<T, R, C, S> {
    /// It went to the operation table; what that answered at once, if
    /// anything.
    Submitted(ReapedFs<T, R, C, S>),
    /// It is the removal of an attribute.
    Removal(XattrRemoval<T, R>),
}

/// The reactor: its operation table, its staging area, and how many
/// completions it is owed.
pub struct UringFs<T, R, C, S> {
    pub fs: FsCore<T, R, C, S>,
    pub eng: Engine,
    pub inflight: u64,
}

impl<T, R, C, S> UringFs<T, R, C, S> {
    /// Build a reactor over the ring that `eng` stages for, or refuse its
    /// sizing. `supported` is whether the kernel's ring can open files.
    pub fn new(cfg: FsConfig, core_id: u64, eng: Engine, supported: bool) -> (r: Result<
        UringFs<T, R, C, S>,
        Error,
    >)
        ensures
            match r {
                Ok(u) => {
                    &&& config_refusal(cfg) is None
                    &&& supported
                    &&& u.fs.wf()
                    &&& u.fs.ops@.len() == cfg.ops
                    &&& forall|s: int|
                        0 <= s < cfg.ops ==> (#[trigger] u.fs.ops@[s]).state.is_clear()
                    &&& u.fs.op_free@.len() == cfg.ops
                    &&& u.fs.timer_cap is None
                    &&& u.fs.closed_owners@ == Map::<u32, u64>::empty()
                    &&& u.fs.priv_xattrs.spec_prefixes() == Seq::<Seq<u8>>::empty()
                    &&& u.fs.core_id == core_id
                    &&& u.eng == eng
                    &&& u.inflight == 0
                },
                Err(e) => {
                    &&& e is Validation
                    &&& match config_refusal(cfg) {
                        Some(why) => e->Validation_0@ == why,
                        None => !supported && e->Validation_0@
                            == "uring_fs requires io_uring OPENAT2 (Linux >= 5.6); this kernel's io_uring does not support it"@,
                    }
                },
            },
    {
        match cfg.check() {
            Ok(()) => {},
            Err(e) => {
                return Err(e);
            },
        }
        if !supported {
            return Err(
                Error::Validation(
                    "uring_fs requires io_uring OPENAT2 (Linux >= 5.6); this kernel's io_uring does not support it".to_owned(),
                ),
            );
        }
        Ok(UringFs { fs: FsCore::new(cfg.ops, core_id), eng, inflight: 0 })
    }

    /// Declare which attributes are written under the reactor's own
    /// credentials. Replaces any earlier policy.
    pub fn set_privileged_xattrs(&mut self, policy: PrivilegedXattrs)
        requires
            old(self).fs.wf(),
        ensures
            final(self).fs.wf(),
            final(self).fs == (FsCore { priv_xattrs: policy, ..old(self).fs }),
            final(self).eng == old(self).eng,
            final(self).inflight == old(self).inflight,
    {
        self.fs.set_privileged_xattrs(policy);
    }

    /// Hand the staged entries to the ring. Each owes a completion.
    pub fn take_staged(&mut self) -> (r: Vec<Sqe>)
        ensures
            r@ == old(self).eng.staged@,
            final(self).eng.staged@ == Seq::<Sqe>::empty(),
            final(self).eng.same_limits(old(self).eng),
            final(self).fs == old(self).fs,
            final(self).inflight == (if old(self).inflight + r@.len() <= u64::MAX {
                old(self).inflight + r@.len()
            } else {
                u64::MAX as int
            }),
    {
        let mut staged: Vec<Sqe> = Vec::new();
        std::mem::swap(&mut self.eng.staged, &mut staged);
        self.inflight = self.inflight.saturating_add(staged.len() as u64);
        staged
    }

    /// Whether the loop goes on: it was not stopped, and some completion is
    /// still to come, without which it would wait for ever.
    pub fn runs_on(&self, stopping: bool) -> (r: bool)
        ensures
            r == (!stopping && self.inflight > 0),
    {
        !stopping && self.inflight > 0
    }

    /// What is owed once a completion was reaped: one less, unless more of the
    /// same operation follow.
    pub open spec fn owed_after(&self, flags: u32) -> u64 {
        if flags & IORING_CQE_F_MORE == 0 && self.inflight > 0 {
            (self.inflight - 1) as u64
        } else {
            self.inflight
        }
    }

    /// Route one completion. It is counted off first, so that nothing that
    /// follows can leave the count high.
    pub fn dispatch<F: FnOnce(i32, Option<u64>) -> Arc<T>>(
        &mut self,
        user_data: u64,
        res: i32,
        flags: u32,
        stopping: bool,
        pad: Statx,
        adopt: F,
    ) -> (r: Dispatched<T, R, C, S>)
        requires
            old(self).fs.wf(),
            ({
                let (tag, slot, gen32) = sys::unpacked(user_data);
                tag == sys::TAG_OPEN && res >= 0 && old(self).fs.completes(tag, slot, gen32)
                    ==> call_requires(
                    adopt,
                    (res, table::restored_flags(old(self).fs.ops@[slot as int].state)),
                )
            }),
        ensures
            final(self).fs.wf(),
            final(self).eng == old(self).eng,
            final(self).inflight == old(self).owed_after(flags),
            ({
                let (tag, slot, gen32) = sys::unpacked(user_data);
                if tag & TAG_FS_DOMAIN == 0 {
                    r is Foreign && final(self).fs == old(self).fs
                } else if tag == TAG_WAKE {
                    r == (Dispatched::<T, R, C, S>::Wake { rearm: !stopping }) && final(self).fs
                        == old(self).fs
                } else if tag == TAG_CANCEL {
                    r is Cancel && final(self).fs == old(self).fs
                } else if !old(self).fs.completes(tag, slot, gen32) {
                    r == Dispatched::<T, R, C, S>::Reaped(ReapedFs::Nothing) && final(self).fs
                        == old(self).fs
                } else {
                    let e = old(self).fs.ops@[slot as int].state;
                    &&& final(self).fs.frees(old(self).fs, slot)
                    &&& final(self).fs.same_rest(old(self).fs)
                    &&& r is Reaped
                    &&& exists|file: Option<File<T>>|
                        table::opened(file, tag, res, table::restored_flags(e), adopt) && r->0
                            == #[trigger] table::reaped(
                            e,
                            tag,
                            res,
                            pad,
                            file,
                            old(self).fs.shares_of(slot),
                        )
                }
            }),
    {
        if flags & IORING_CQE_F_MORE == 0 {
            self.inflight = self.inflight.saturating_sub(1);
        }
        let (tag, slot, gen32) = unpack_raw(user_data);
        if tag & TAG_FS_DOMAIN == 0 {
            return Dispatched::Foreign;
        }
        if tag == TAG_WAKE {
            return Dispatched::Wake { rearm: !stopping };
        }
        if tag == TAG_CANCEL {
            return Dispatched::Cancel;
        }
        Dispatched::Reaped(self.fs.on_cqe(tag, slot, gen32, res, pad, adopt))
    }

    /// Route one completion while the loop is being torn down. It is counted
    /// off as any other, so that the wait for what is in flight ends.
    pub fn drain<F: FnOnce(i32, Option<u64>) -> Arc<T>>(
        &mut self,
        user_data: u64,
        res: i32,
        flags: u32,
        pad: Statx,
        adopt: F,
    ) -> (r: ReapedFs<T, R, C, S>)
        requires
            old(self).fs.wf(),
            ({
                let (tag, slot, gen32) = sys::unpacked(user_data);
                tag == sys::TAG_OPEN && res >= 0 && old(self).fs.completes(tag, slot, gen32)
                    ==> call_requires(adopt, (res, None::<u64>))
            }),
        ensures
            final(self).fs.wf(),
            final(self).eng == old(self).eng,
            final(self).inflight == old(self).owed_after(flags),
            final(self).fs.drains(old(self).fs, user_data, res, pad, adopt, r),
    {
        if flags & IORING_CQE_F_MORE == 0 {
            self.inflight = self.inflight.saturating_sub(1);
        }
        self.fs.on_drain_cqe(user_data, res, pad, adopt)
    }

    /// Route one queued request into the operation table, or to the removal of
    /// an attribute.
    pub fn inject(&mut self, msg: FsInject<T, R>) -> (r: Routed<T, R, C, S>)
        requires
            old(self).fs.wf(),
            msg.wf(),
        ensures
            final(self).fs.wf(),
            final(self).inflight == old(self).inflight,
            old(self).injected(*final(self), msg, r),
    {
        match msg {
            FsInject::Open { pers, anchor, path, how, reply } => Routed::Submitted(
                self.fs.submit_open(
                    &mut self.eng,
                    pers,
                    anchor,
                    path,
                    how,
                    false,
                    FsWaiter::Channel(reply),
                ),
            ),
            FsInject::Rw { tag, pers, file, bufs, off, rw_flags, reply } => Routed::Submitted(
                self.fs.submit_rw(
                    &mut self.eng,
                    tag,
                    pers,
                    file,
                    bufs,
                    off,
                    rw_flags,
                    FsWaiter::Channel(reply),
                ),
            ),
            FsInject::Fsync { pers, file, datasync, offset, length, reply } => Routed::Submitted(
                self.fs.submit_fsync(
                    &mut self.eng,
                    pers,
                    file,
                    datasync,
                    offset,
                    length,
                    FsWaiter::Channel(reply),
                ),
            ),
            FsInject::FdMeta { tag, pers, file, name, value, off, len64, aux32, reply } => {
                Routed::Submitted(
                    self.fs.submit_fd_meta(
                        &mut self.eng,
                        tag,
                        pers,
                        file,
                        name,
                        value,
                        off,
                        len64,
                        aux32,
                        FsWaiter::Channel(reply),
                    ),
                )
            },
            FsInject::FdMetaAsRoot { file, name, value, reply } => Routed::Submitted(
                self.fs.submit_fgetxattr_as_root(
                    &mut self.eng,
                    file,
                    name,
                    value,
                    FsWaiter::Channel(reply),
                ),
            ),
            FsInject::FRemoveXattr { file, name, reply } => Routed::Removal(
                self.fs.remove_priv_xattr(file, name, reply),
            ),
            FsInject::PathOp { tag, pers, a1, n1, a2, n2, flags, len_arg, reply } => {
                Routed::Submitted(
                    self.fs.submit_path_op(
                        &mut self.eng,
                        tag,
                        pers,
                        a1,
                        n1,
                        a2,
                        n2,
                        flags,
                        len_arg,
                        FsWaiter::Channel(reply),
                    ),
                )
            },
            FsInject::LinkatFile { pers, file, a2, n2, reply } => Routed::Submitted(
                self.fs.submit_linkat_file(
                    &mut self.eng,
                    pers,
                    file,
                    a2,
                    n2,
                    FsWaiter::Channel(reply),
                ),
            ),
        }
    }

    /// Route every queued request, in its order. Each goes as [`injected`] says,
    /// from the state that the one before it left.
    ///
    /// [`injected`]: Self::injected
    pub fn drain_injects(&mut self, h: &mut FsHandle<T, R>) -> (r: Vec<Routed<T, R, C, S>>)
        requires
            old(self).fs.wf(),
            old(h).wf(),
        ensures
            final(self).fs.wf(),
            final(self).inflight == old(self).inflight,
            final(h).wf(),
            final(h).queue@.len() == 0,
            final(h).stop == old(h).stop,
            final(h).pokes == old(h).pokes,
            exists|states: Seq<UringFs<T, R, C, S>>|
                drained(states, *old(self), *final(self), old(h).queue@, r@),
    {
        let ghost all = h.queue@;
        let ghost mut states: Seq<UringFs<T, R, C, S>> = seq![*self];
        let mut r: Vec<Routed<T, R, C, S>> = Vec::new();
        while h.queue.len() > 0
            invariant
                self.fs.wf(),
                self.inflight == old(self).inflight,
                h.wf(),
                h.stop == old(h).stop,
                h.pokes == old(h).pokes,
                all == old(h).queue@,
                r@.len() + h.queue@.len() == all.len(),
                h.queue@ == all.skip(r@.len() as int),
                drained(states, *old(self), *self, all.take(r@.len() as int), r@),
            decreases h.queue@.len(),
        {
            let ghost n = r@.len() as int;
            let msg = h.take().unwrap();
            assert(msg == all[n]);
            assert(h.queue@ =~= all.skip(n + 1));
            let ghost before = *self;
            let one = self.inject(msg);
            proof {
                let next = states.push(*self);
                assert forall|i: int| 0 <= i < n + 1 implies (#[trigger] next[i]).injected(
                    next[i + 1],
                    all.take(n + 1)[i],
                    r@.push(one)[i],
                ) by {
                    if i < n {
                        assert(states[i].injected(states[i + 1], all.take(n)[i], r@[i]));
                        assert(next[i + 1] == states[i + 1]);
                    } else {
                        assert(next[i] == before);
                    }
                }
                states = next;
            }
            r.push(one);
        }
        assert(all.take(r@.len() as int) =~= all);
        r
    }

    /// What routing a request does: it is submitted with its caller's reply as
    /// the waiter, an open with the guard against special files off; a removal
    /// is judged and changes nothing here.
    pub open spec fn injected(
        self,
        after: UringFs<T, R, C, S>,
        msg: FsInject<T, R>,
        r: Routed<T, R, C, S>,
    ) -> bool {
        let (f0, f1, e0, e1) = (self.fs, after.fs, self.eng, after.eng);
        match (msg, r) {
            (
                FsInject::Open { pers, anchor, path, how, reply },
                Routed::Submitted(x),
            ) => f1.open_staged(
                f0,
                e1,
                e0,
                pers,
                anchor,
                path,
                how,
                false,
                FsWaiter::Channel(reply),
                x,
            ),
            (
                FsInject::Rw { tag, pers, file, bufs, off, rw_flags, reply },
                Routed::Submitted(x),
            ) => f1.rw_staged(
                f0,
                e1,
                e0,
                tag,
                pers,
                file,
                bufs@,
                off,
                rw_flags,
                FsWaiter::Channel(reply),
                x,
            ),
            (
                FsInject::Fsync { pers, file, datasync, offset, length, reply },
                Routed::Submitted(x),
            ) => f1.fsync_staged(
                f0,
                e1,
                e0,
                pers,
                file,
                datasync,
                offset,
                length,
                FsWaiter::Channel(reply),
                x,
            ),
            (
                FsInject::FdMeta { tag, pers, file, name, value, off, len64, aux32, reply },
                Routed::Submitted(x),
            ) => f1.meta_submitted(
                f0,
                e1,
                e0,
                tag,
                pers,
                file,
                name,
                value,
                off,
                len64,
                aux32,
                FsWaiter::Channel(reply),
                x,
            ),
            (
                FsInject::FdMetaAsRoot { file, name, value, reply },
                Routed::Submitted(x),
            ) => f1.meta_staged(
                f0,
                e1,
                e0,
                TAG_FGETXATTR,
                0,
                file,
                Some(name),
                value,
                0,
                0,
                0,
                FsWaiter::Channel(reply),
                x,
            ),
            (FsInject::FRemoveXattr { file, name, reply }, Routed::Removal(x)) => {
                &&& f1 == f0
                &&& e1 == e0
                &&& match x {
                    XattrRemoval::Refused(to, out) => {
                        &&& !f0.priv_xattrs.covers(name@)
                        &&& to == reply
                        &&& out.res == Err::<i32, Errno>(Errno::EPERM)
                        &&& out.bufs@.len() == 0
                        &&& out.file is None
                        &&& out.stat is None
                    },
                    XattrRemoval::Run { file: f, name: n, reply: to } => {
                        f0.priv_xattrs.covers(name@) && f == file && n == name && to == reply
                    },
                }
            },
            (
                FsInject::PathOp { tag, pers, a1, n1, a2, n2, flags, len_arg, reply },
                Routed::Submitted(x),
            ) => f1.path_staged(
                f0,
                e1,
                e0,
                tag,
                pers,
                a1,
                n1,
                a2,
                n2,
                flags,
                len_arg,
                FsWaiter::Channel(reply),
                x,
            ),
            (
                FsInject::LinkatFile { pers, file, a2, n2, reply },
                Routed::Submitted(x),
            ) => f1.link_staged(
                f0,
                e1,
                e0,
                pers,
                file,
                a2,
                n2,
                FsWaiter::Channel(reply),
                x,
            ),
            _ => false,
        }
    }
}

/// A queue was routed from one state to another, one request after the other,
/// through the states in between.
pub open spec fn drained<T, R, C, S>(
    states: Seq<UringFs<T, R, C, S>>,
    from: UringFs<T, R, C, S>,
    to: UringFs<T, R, C, S>,
    queue: Seq<FsInject<T, R>>,
    r: Seq<Routed<T, R, C, S>>,
) -> bool {
    &&& states.len() == queue.len() + 1
    &&& r.len() == queue.len()
    &&& states[0] == from
    &&& states[queue.len() as int] == to
    &&& forall|i: int|
        0 <= i < queue.len() ==> (#[trigger] states[i]).injected(states[i + 1], queue[i], r[i])
}

/// The buffers a request carries.
pub open spec fn carried<T, R>(msg: FsInject<T, R>) -> Seq<Seq<u8>> {
    match msg {
        FsInject::Rw { bufs, .. } => crate::bytes::views(bufs@),
        FsInject::FdMeta { value, .. } => seq![value@],
        FsInject::FdMetaAsRoot { value, .. } => seq![value@],
        _ => Seq::empty(),
    }
}

/// Whom a request answers.
pub open spec fn reply_of<T, R>(msg: FsInject<T, R>) -> R {
    match msg {
        FsInject::Open { reply, .. } => reply,
        FsInject::Rw { reply, .. } => reply,
        FsInject::Fsync { reply, .. } => reply,
        FsInject::FdMeta { reply, .. } => reply,
        FsInject::FdMetaAsRoot { reply, .. } => reply,
        FsInject::FRemoveXattr { reply, .. } => reply,
        FsInject::PathOp { reply, .. } => reply,
        FsInject::LinkatFile { reply, .. } => reply,
    }
}

/// Answer a request that the loop will not take any more: its caller is told
/// so, and given back the buffers it moved in.
pub fn abandon<T, R>(msg: FsInject<T, R>) -> (r: (R, FsOutcome<T>))
    ensures
        r.0 == reply_of(msg),
        r.1.res == Err::<i32, Errno>(Errno::ECONNABORTED),
        crate::bytes::views(r.1.bufs@) == carried(msg),
        r.1.file is None,
        r.1.stat is None,
{
    let (reply, bufs): (R, Vec<Vec<u8>>) = match msg {
        FsInject::Open { reply, .. } => (reply, Vec::new()),
        FsInject::Rw { reply, bufs, .. } => (reply, bufs),
        FsInject::Fsync { reply, .. } => (reply, Vec::new()),
        FsInject::FdMeta { reply, value, .. } => {
            let mut one: Vec<Vec<u8>> = Vec::new();
            one.push(value);
            (reply, one)
        },
        FsInject::FdMetaAsRoot { reply, value, .. } => {
            let mut one: Vec<Vec<u8>> = Vec::new();
            one.push(value);
            (reply, one)
        },
        FsInject::FRemoveXattr { reply, .. } => (reply, Vec::new()),
        FsInject::PathOp { reply, .. } => (reply, Vec::new()),
        FsInject::LinkatFile { reply, .. } => (reply, Vec::new()),
    };
    assert(crate::bytes::views(bufs@) =~= carried(msg));
    (reply, FsOutcome { res: Err(Errno::ECONNABORTED), bufs, file: None, stat: None })
}

/// Tear a queue down: every request still on it is answered, in its order.
pub fn drain_teardown<T, R>(h: &mut FsHandle<T, R>) -> (r: Vec<(R, FsOutcome<T>)>)
    requires
        old(h).wf(),
    ensures
        final(h).wf(),
        final(h).queue@.len() == 0,
        final(h).stop == old(h).stop,
        r@.len() == old(h).queue@.len(),
        forall|i: int|
            0 <= i < r@.len() ==> {
                &&& (#[trigger] r@[i]).0 == reply_of(old(h).queue@[i])
                &&& r@[i].1.res == Err::<i32, Errno>(Errno::ECONNABORTED)
                &&& crate::bytes::views(r@[i].1.bufs@) == carried(old(h).queue@[i])
                &&& r@[i].1.file is None
                &&& r@[i].1.stat is None
            },
{
    let ghost all = h.queue@;
    let mut r: Vec<(R, FsOutcome<T>)> = Vec::new();
    while h.queue.len() > 0
        invariant
            h.wf(),
            h.stop == old(h).stop,
            r@.len() + h.queue@.len() == all.len(),
            forall|i: int| 0 <= i < h.queue@.len() ==> #[trigger] h.queue@[i] == all[r@.len() + i],
            forall|i: int|
                0 <= i < r@.len() ==> {
                    &&& (#[trigger] r@[i]).0 == reply_of(all[i])
                    &&& r@[i].1.res == Err::<i32, Errno>(Errno::ECONNABORTED)
                    &&& crate::bytes::views(r@[i].1.bufs@) == carried(all[i])
                    &&& r@[i].1.file is None
                    &&& r@[i].1.stat is None
                },
        decreases h.queue@.len(),
    {
        let ghost q0 = h.queue@;
        let msg = h.take().unwrap();
        assert forall|i: int| 0 <= i < h.queue@.len() implies #[trigger] h.queue@[i] == all[
            r@.len() + 1 + i
        ] by {
            assert(h.queue@[i] == q0[i + 1]);
        }
        r.push(abandon(msg));
    }
    r
}

/// Whether a request writes an attribute that the server owns.
pub open spec fn promotes<T, R>(policy: PrivilegedXattrs, msg: FsInject<T, R>) -> bool {
    match msg {
        FsInject::FdMeta { tag, name: Some(name), .. } => tag == TAG_FSETXATTR && policy.covers(
            name@,
        ),
        _ => false,
    }
}

/// Identity is mandatory: what a request stages runs under the identity it was
/// asked for under, and never under the reactor's own, but for the write of an
/// attribute that the server owns. (A read as the reactor asks for none.)
pub proof fn law_identity_is_mandatory<T, R, C, S>(
    before: UringFs<T, R, C, S>,
    after: UringFs<T, R, C, S>,
    msg: FsInject<T, R>,
    r: Routed<T, R, C, S>,
    i: int,
)
    requires
        before.injected(after, msg, r),
        msg.identified(),
        msg !is FdMetaAsRoot,
        before.eng.staged@.len() <= i < after.eng.staged@.len(),
    ensures
        msg.identity() is Some,
        after.eng.staged@[i].personality == (if promotes(before.fs.priv_xattrs, msg) {
            0
        } else {
            msg.identity()->0
        }),
        !promotes(before.fs.priv_xattrs, msg) ==> after.eng.staged@[i].personality != 0,
{
}

/// Nobody is left waiting: of the requests that were accepted, each is taken by
/// the loop or answered when the queue is torn down, and none after the loop
/// was told to stop joins them. `left` is the queue at the stop, `after` the
/// queue once some caller tried to send more.
pub proof fn law_no_request_is_left_unanswered<T, R>(
    left: FsHandle<T, R>,
    after: FsHandle<T, R>,
    tried: Result<(), Error>,
    answers: Seq<(R, FsOutcome<T>)>,
    i: int,
)
    requires
        left.stop,
        after.posted(left, tried),
        answers.len() == after.queue@.len(),
        forall|j: int|
            0 <= j < answers.len() ==> (#[trigger] answers[j]).0 == reply_of(after.queue@[j]),
        0 <= i < left.queue@.len(),
    ensures
        tried == Err::<(), Error>(handle::gone()),
        answers[i].0 == reply_of(left.queue@[i]),
{
}

/// Which sizings a reactor takes: a table its routing words can name and that
/// holds two operations at least, a ring of four entries at least, and no pool
/// beyond the most threads there may be.
pub proof fn law_sizing_is_within_limits(cfg: FsConfig)
    ensures
        config_refusal(cfg) is None <==> {
            &&& 2 <= cfg.ops <= 0xff_ffff
            &&& cfg.entries >= 4
            &&& cfg.offload.floor <= 1024
            &&& cfg.offload.ceiling <= 1024
        },
{
}

/// Each completion is counted off once, where the kernel says that no more of
/// its operation follow, and never below none.
pub proof fn law_each_operation_is_counted_off_once<T, R, C, S>(
    u: UringFs<T, R, C, S>,
    flags: u32,
)
    ensures
        flags & 0x2 != 0 ==> u.owed_after(flags) == u.inflight,
        flags & 0x2 == 0 && u.inflight > 0 ==> u.owed_after(flags) + 1 == u.inflight,
        u.inflight == 0 ==> u.owed_after(flags) == 0,
{
}

/// A request that is answered at the end instead of taken gives its caller
/// back every buffer that was moved in, as it was.
pub proof fn law_abandoned_request_gives_its_buffers_back<T, R>(msg: FsInject<T, R>)
    ensures
        carried(msg) == crate::kernel::contents_of(crate::kernel::payload_of(msg)),
{
    assert(carried(msg) =~= crate::kernel::contents_of(crate::kernel::payload_of(msg)));
}

/// Requests are routed one after the other in the order they were queued, each
/// from the state that the one before it left.
pub proof fn law_queue_is_routed_in_order<T, R, C, S>(
    states: Seq<UringFs<T, R, C, S>>,
    from: UringFs<T, R, C, S>,
    to: UringFs<T, R, C, S>,
    queue: Seq<FsInject<T, R>>,
    r: Seq<Routed<T, R, C, S>>,
    i: int,
)
    requires
        drained(states, from, to, queue, r),
        0 <= i < queue.len(),
    ensures
        r.len() == queue.len(),
        states[i].injected(states[i + 1], queue[i], r[i]),
        i == 0 ==> states[i] == from,
        i == queue.len() - 1 ==> states[i + 1] == to,
{
}

/// What a refused sizing is told names the first figure that is out of bounds:
/// the operations, the entries, the pool.
pub proof fn law_refused_sizing_is_told_why(cfg: FsConfig)
    ensures
        cfg.ops < 2 || cfg.ops > 0xff_ffff ==> config_refusal(cfg) == Some(
            "FsConfig::ops must be in 2..=SLOT_MASK"@,
        ),
        2 <= cfg.ops <= 0xff_ffff && cfg.entries < 4 ==> config_refusal(cfg) == Some(
            "FsConfig::entries must be at least 4"@,
        ),
        2 <= cfg.ops <= 0xff_ffff && cfg.entries >= 4 && (cfg.offload.floor > 1024
            || cfg.offload.ceiling > 1024) ==> config_refusal(cfg) == Some(
            "FsConfig::offload must be at most MAX_OFFLOAD_THREADS"@,
        ),
{
}

} // verus!
