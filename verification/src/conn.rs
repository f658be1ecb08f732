//! The submission facade a host hands to a request handler, and again to each
//! completion callback. Every operation runs as the personality passed to it;
//! an argument it refuses is answered at once, marked as this side's own
//! refusal, instead of being dropped.
use crate::engine::Engine;
use crate::errno::Errno;
use crate::file::{share, Anchor, File, Statx};
use crate::kernel;
use crate::kernel::{Call, Memory};
use crate::names::{Advice, Leaf, Personality, RwFlags, SLASH};
use crate::policy;
use crate::policy::{
    apply_special_file_guard, confine_resolve, statx_at_flags, AtFlags, RawOpenHow, SpecialFiles,
};
use crate::sys::{
    AT_EMPTY_PATH, AT_REMOVEDIR, TAG_FADVISE, TAG_FALLOCATE, TAG_FGETXATTR, TAG_FSETXATTR,
    TAG_FTRUNCATE, TAG_LINKAT, TAG_MKDIRAT, TAG_READV, TAG_RENAMEAT, TAG_SPLICE, TAG_STATX,
    TAG_SYMLINKAT, TAG_UNLINKAT, TAG_WRITEV,
};
use crate::table;
use crate::table::{FsCore, FsDone, FsWaiter, LeaseHold, Owner, ReapedFs};
use std::sync::Arc;
use vstd::prelude::*;
use vstd::slice::slice_to_vec;

verus! {

impl<T> FsDone<T> {
    /// A completion no operation produced, with no claim about whose errno it
    /// carries.
    pub fn failed(err: Errno) -> (r: FsDone<T>)
        ensures
            r.is_failure(err),
    {
        FsDone {
            result: Err(err),
            refused: false,
            bufs: Vec::new(),
            file: None,
            stat: None,
            recv_lease: None,
        }
    }

    /// An errno that is not this side's own, and nothing else.
    pub open spec fn is_failure(&self, err: Errno) -> bool {
        &&& self.result == Err::<i32, Errno>(err)
        &&& !self.refused
        &&& self.bufs@.len() == 0
        &&& self.file is None
        &&& self.stat is None
        &&& self.recv_lease is None
    }

    /// The outcome of an argument this side refused: its error, marked, and
    /// nothing else.
    pub open spec fn is_refusal(&self, err: Errno) -> bool {
        &&& self.result == Err::<i32, Errno>(err)
        &&& self.refused
        &&& self.bufs@.len() == 0
        &&& self.file is None
        &&& self.stat is None
        &&& self.recv_lease is None
    }

    /// A step this side refused, carrying no payload.
    pub fn refused(err: Errno) -> (r: FsDone<T>)
        ensures
            r.is_refusal(err),
    {
        FsDone {
            result: Err(err),
            refused: true,
            bufs: Vec::new(),
            file: None,
            stat: None,
            recv_lease: None,
        }
    }

    /// A submission that was refused, with the payload it was given.
    pub fn refused_with(err: Errno, bufs: Vec<Vec<u8>>) -> (r: FsDone<T>)
        ensures
            r.result == Err::<i32, Errno>(err),
            r.refused,
            r.bufs == bufs,
            r.file is None,
            r.stat is None,
            r.recv_lease is None,
    {
        FsDone { result: Err(err), refused: true, bufs, file: None, stat: None, recv_lease: None }
    }

    /// The receive-pool buffer a leased write borrowed, taken for the host to
    /// hand back.
    pub fn take_recv_lease(&mut self) -> (r: Option<u16>)
        ensures
            r == old(self).recv_lease,
            *final(self) == (FsDone { recv_lease: None, ..*old(self) }),
    {
        let r = self.recv_lease;
        self.recv_lease = None;
        r
    }

    /// The operation's result: a byte count or 0, or the errno it failed
    /// with.
    pub fn result(&self) -> (r: Result<i32, Errno>)
        ensures
            r == self.result,
    {
        self.result
    }

    /// The file a successful open made.
    pub fn file(&self) -> (r: Option<File<T>>)
        ensures
            r == self.file,
    {
        match &self.file {
            Some(f) => Some(f.another()),
            None => None,
        }
    }

    /// Take the operation's buffers back.
    pub fn into_bufs(self) -> (r: Vec<Vec<u8>>)
        ensures
            r == self.bufs,
    {
        self.bufs
    }

    /// Whether the errno is this side's own: the operation never reached the
    /// ring, or is a timer its caller retracted.
    pub fn was_refused(&self) -> (r: bool)
        ensures
            r == self.refused,
    {
        self.refused
    }

    /// The metadata of a successful `statx`.
    pub fn stat(&self) -> (r: Option<Statx>)
        ensures
            r == (if self.result is Ok {
                self.stat
            } else {
                None
            }),
    {
        match self.result {
            Ok(_) => self.stat,
            Err(_) => None,
        }
    }
}

/// A timer armed by [`FsConn::timeout`]. It names one arming, not the slot:
/// the reactor that issued it and the full-width generation it was armed
/// under.
#[derive(Clone, Copy, Debug, PartialEq, Eq, Structural)]
pub struct Timer {
    pub core: u64,
    pub slot: u32,
    pub generation: u64,
}

/// The delivering connection's claim on a receive-pool buffer, offered for
/// the length of one delivery.
#[derive(Clone, Copy, Debug, PartialEq, Eq, Structural)]
pub struct RecvWriteLease {
    /// Where the claimed buffer starts.
    pub base: usize,
    /// How many bytes of it may be written from.
    pub cap: usize,
    /// The pool buffer.
    pub bid: u16,
    /// Set when a write takes the claim over.
    pub taken: bool,
}

impl RecvWriteLease {
    /// Whether `[at, at + len)` lies inside the claim.
    pub open spec fn covers(&self, at: usize, len: nat) -> bool {
        self.base <= at && at + len <= self.base + self.cap
    }

    fn fits(&self, at: usize, len: usize) -> (r: bool)
        ensures
            r == self.covers(at, len as nat),
    {
        if at < self.base {
            return false;
        }
        let skipped: usize = at - self.base;
        skipped <= self.cap && len <= self.cap - skipped
    }
}

/// What staging a reason slot displaced.
pub struct StagedSink<S> {
    pub sink: Option<Arc<S>>,
    pub armed: bool,
}

/// The facade: whom its operations run for, the receive buffer it may write
/// from, and where a refused submission reports its reason.
pub struct FsConn<S> {
    pub owner: Owner,
    pub lease: Option<RecvWriteLease>,
    /// The claim shared by this delivery's leased writes, once one was made.
    pub lease_hold: Option<LeaseHold>,
    pub fail_sink: Option<Arc<S>>,
    /// Whether a submission took a share of the reason slot since it was
    /// staged.
    pub fail_armed: bool,
}

/// A `share` of an optional slot.
pub(crate) fn share_opt<S>(s: &Option<Arc<S>>) -> (r: Option<Arc<S>>)
    ensures
        r == *s,
{
    match s {
        Some(a) => Some(share(a)),
        None => None,
    }
}

/// The callback fires now, with a refusal of `err`.
pub open spec fn answered<T, R, C, S>(
    r: ReapedFs<T, R, C, S>,
    cb: C,
    err: Errno,
    owner: Owner,
) -> bool {
    r is Embedded && r->Embedded_0 == cb && r->Embedded_1.is_refusal(err) && r->Embedded_2 == owner
}

impl<S> FsConn<S> {
    /// A facade for `owner`, with nothing offered and nothing staged.
    pub fn new(owner: Owner) -> (r: FsConn<S>)
        ensures
            r.owner == owner,
            r.lease is None,
            r.lease_hold is None,
            r.fail_sink is None,
            !r.fail_armed,
    {
        FsConn { owner, lease: None, lease_hold: None, fail_sink: None, fail_armed: false }
    }

    /// Stage the reason slot that every submission from here on shares;
    /// answers with what was staged before.
    pub fn stage_fail_sink(&mut self, sink: Arc<S>) -> (r: StagedSink<S>)
        ensures
            r.sink == old(self).fail_sink,
            r.armed == old(self).fail_armed,
            *final(self) == (FsConn { fail_sink: Some(sink), fail_armed: false, ..*old(self) }),
    {
        let mut displaced: Option<Arc<S>> = Some(sink);
        std::mem::swap(&mut displaced, &mut self.fail_sink);
        let armed = self.fail_armed;
        self.fail_armed = false;
        StagedSink { sink: displaced, armed }
    }

    /// Put back what staging displaced; whether any submission armed the slot
    /// being retired. If none did, the arguments were refused before anything
    /// reached the table, and nothing will ever report for it.
    pub fn restore_fail_sink(&mut self, prev: StagedSink<S>) -> (armed: bool)
        ensures
            armed == old(self).fail_armed,
            *final(self) == (FsConn {
                fail_sink: prev.sink,
                fail_armed: prev.armed,
                ..*old(self)
            }),
    {
        let armed = self.fail_armed;
        self.fail_sink = prev.sink;
        self.fail_armed = prev.armed;
        armed
    }

    /// Carry a multi-step call's reason slot onto the facade a later step
    /// submits from.
    pub fn carry_fail_sink(&mut self, sink: Option<Arc<S>>)
        ensures
            *final(self) == (FsConn { fail_sink: sink, ..*old(self) }),
    {
        self.fail_sink = sink;
    }

    /// Offer the delivering connection's receive-buffer claim.
    pub fn with_recv_lease(self, lease: Option<RecvWriteLease>) -> (r: FsConn<S>)
        ensures
            r == (FsConn { lease, ..self }),
    {
        let mut conn = self;
        conn.lease = lease;
        conn
    }

    /// The waiter of a submission made here.
    pub open spec fn spec_waiter<R, C>(&self, cb: C) -> FsWaiter<R, C, S> {
        FsWaiter::Embedded { owner: self.owner, cb, on_fail: self.fail_sink }
    }

    /// The facade once a submission has shared its reason slot.
    pub open spec fn after_submit(&self) -> FsConn<S> {
        FsConn { fail_armed: self.fail_armed || self.fail_sink is Some, ..*self }
    }

    /// The one shape every submission hands the table: the callback, the
    /// owner, and a share of the staged reason slot. Making it arms the slot.
    fn waiter<R, C>(&mut self, cb: C) -> (r: FsWaiter<R, C, S>)
        ensures
            r == old(self).spec_waiter::<R, C>(cb),
            *final(self) == old(self).after_submit(),
    {
        let on_fail = share_opt(&self.fail_sink);
        self.fail_armed = self.fail_armed || on_fail.is_some();
        FsWaiter::Embedded { owner: self.owner, cb, on_fail }
    }

    /// Whether the connection this facade acts for has already been torn
    /// down.
    pub fn owner_is_gone<T, R, C>(&self, fs: &FsCore<T, R, C, S>) -> (r: bool)
        ensures
            r == (self.owner is Some && fs.gone(self.owner->Some_0)),
    {
        fs.owner_is_gone(self.owner)
    }

    /// Whether the loop has been asked to drain gracefully.
    pub fn draining(&self, eng: &Engine) -> (r: bool)
        ensures
            r == eng.graceful,
    {
        eng.graceful
    }

    /// The open a path and its flags come to on the serving side: confined,
    /// and guarded against special files unless they are allowed.
    pub open spec fn served_how(how: RawOpenHow, special: SpecialFiles) -> RawOpenHow {
        let confined = RawOpenHow { resolve: policy::confined(how.resolve), ..how };
        if policy::guard_applies(how.flags, special) {
            RawOpenHow { flags: how.flags | crate::sys::O_NONBLOCK, ..confined }
        } else {
            confined
        }
    }

    /// Whether a path may be opened on the serving side: anchor-relative, not
    /// empty.
    pub open spec fn openable(path: Seq<u8>) -> bool {
        path.len() > 0 && path[0] != SLASH
    }

    /// Open `path` relative to `anchor`. An empty or absolute path is
    /// answered at once with a marked `EINVAL`.
    pub fn open<T, R, C>(
        &mut self,
        fs: &mut FsCore<T, R, C, S>,
        eng: &mut Engine,
        who: Personality,
        anchor: &Anchor<T>,
        path: Vec<u8>,
        how: RawOpenHow,
        special: SpecialFiles,
        cb: C,
    ) -> (r: ReapedFs<T, R, C, S>)
        requires
            old(fs).wf(),
        ensures
            final(fs).wf(),
            !Self::openable(path@) ==> final(fs).untouched(*old(fs), *final(eng), *old(eng))
                && *final(self) == *old(self) && answered(
                r,
                cb,
                Errno::EINVAL,
                old(self).owner,
            ),
            Self::openable(path@) ==> *final(self) == old(self).after_submit() && final(fs).open_staged(
                *old(fs),
                *final(eng),
                *old(eng),
                who.spec_id(),
                *anchor,
                path,
                Self::served_how(how, special),
                policy::guard_applies(how.flags, special),
                old(self).spec_waiter(cb),
                r,
            ),
            ({
                let absolute = path@.len() > 0 && path@[0] == 0x2f;
                let guard = special == SpecialFiles::Guard && how.flags & 0x21_0800 == 0;
                if path@.len() == 0 || absolute {
                    final(eng).staged@ == old(eng).staged@ && match r {
                        ReapedFs::Embedded(fires, done, owner) => {
                            &&& fires == cb
                            &&& owner == old(self).owner
                            &&& done.result == Err::<i32, Errno>(Errno::EINVAL)
                            &&& done.refused
                        },
                        _ => false,
                    }
                } else {
                    kernel::submitted_as(
                        *old(fs),
                        *old(eng),
                        *final(fs),
                        *final(eng),
                        who.spec_id(),
                        (Call::Open {
                            dir: anchor.raw,
                            name: path@,
                            how: RawOpenHow {
                                flags: if guard {
                                    how.flags | 0x800
                                } else {
                                    how.flags
                                },
                                mode: how.mode,
                                resolve: if how.resolve & 0x1c != 0 {
                                    how.resolve | 0x01
                                } else {
                                    how.resolve | 0x0d
                                },
                            },
                            guarded: guard,
                        }),
                        set![anchor.fd],
                        Seq::empty(),
                        old(self).spec_waiter(cb),
                        r,
                    )
                }
            }),
    {
        if path.len() == 0 || path[0] == SLASH {
            return ReapedFs::Embedded(cb, FsDone::refused(Errno::EINVAL), self.owner);
        }
        let mut raw = how;
        raw.resolve = confine_resolve(raw.resolve);
        let guarded = apply_special_file_guard(&mut raw, special);
        let w = self.waiter(cb);
        let r = fs.submit_open(eng, who.id(), anchor.another(), path, raw, guarded, w);
        proof {
            policy::lemma_open_bits(how.flags, how.resolve);
            kernel::law_open_asks_for_its_name_under_its_anchor(
                *old(fs),
                *old(eng),
                *fs,
                *eng,
                who.spec_id(),
                *anchor,
                path,
                raw,
                guarded,
                old(self).spec_waiter(cb),
                r,
            );
        }
        r
    }

    /// One step of a walk, opened under its own personality, exactly as the
    /// walk decided.
    pub fn open_component<T, R, C>(
        &mut self,
        fs: &mut FsCore<T, R, C, S>,
        eng: &mut Engine,
        who: Personality,
        anchor: Anchor<T>,
        path: Vec<u8>,
        how: RawOpenHow,
        guarded: bool,
        cb: C,
    ) -> (r: ReapedFs<T, R, C, S>)
        requires
            old(fs).wf(),
        ensures
            final(fs).wf(),
            *final(self) == old(self).after_submit(),
            final(fs).open_staged(
                *old(fs),
                *final(eng),
                *old(eng),
                who.spec_id(),
                anchor,
                path,
                how,
                guarded,
                old(self).spec_waiter(cb),
                r,
            ),
            kernel::submitted_as(
                *old(fs),
                *old(eng),
                *final(fs),
                *final(eng),
                who.spec_id(),
                (Call::Open { dir: anchor.raw, name: path@, how, guarded }),
                set![anchor.fd],
                Seq::empty(),
                old(self).spec_waiter(cb),
                r,
            ),
    {
        let w = self.waiter(cb);
        let r = fs.submit_open(eng, who.id(), anchor, path, how, guarded, w);
        proof {
            kernel::law_open_asks_for_its_name_under_its_anchor(
                *old(fs),
                *old(eng),
                *fs,
                *eng,
                who.spec_id(),
                anchor,
                path,
                how,
                guarded,
                old(self).spec_waiter(cb),
                r,
            );
        }
        r
    }

    /// Scattered positional read.
    pub fn preadv2<T, R, C>(
        &mut self,
        fs: &mut FsCore<T, R, C, S>,
        eng: &mut Engine,
        who: Personality,
        f: File<T>,
        bufs: Vec<Vec<u8>>,
        off: u64,
        flags: RwFlags,
        cb: C,
    ) -> (r: ReapedFs<T, R, C, S>)
        requires
            old(fs).wf(),
        ensures
            final(fs).wf(),
            *final(self) == old(self).after_submit(),
            final(fs).rw_staged(
                *old(fs),
                *final(eng),
                *old(eng),
                TAG_READV,
                who.spec_id(),
                f,
                bufs@,
                off,
                flags.bits,
                old(self).spec_waiter(cb),
                r,
            ),
            bufs@.len() <= u32::MAX ==> kernel::submitted(
                *old(fs),
                *old(eng),
                *final(fs),
                *final(eng),
                who.spec_id(),
                (Call::Read {
                    fd: f.raw,
                    into: Memory::Buffers(kernel::contents_of(bufs@)),
                    at: off,
                    flags: flags.bits,
                }),
                set![f.fd],
                bufs@,
                old(self).spec_waiter(cb),
                r,
            ),
    {
        let w = self.waiter(cb);
        let r = fs.submit_rw(eng, TAG_READV, who.id(), f, bufs, off, flags.bits, w);
        proof {
            if bufs@.len() <= u32::MAX {
                kernel::law_read_asks_for_its_offset(
                    *old(fs),
                    *old(eng),
                    *fs,
                    *eng,
                    who.spec_id(),
                    f,
                    bufs@,
                    off,
                    flags.bits,
                    old(self).spec_waiter(cb),
                    r,
                );
            }
        }
        r
    }

    /// Gathered positional write.
    pub fn pwritev2<T, R, C>(
        &mut self,
        fs: &mut FsCore<T, R, C, S>,
        eng: &mut Engine,
        who: Personality,
        f: File<T>,
        bufs: Vec<Vec<u8>>,
        off: u64,
        flags: RwFlags,
        cb: C,
    ) -> (r: ReapedFs<T, R, C, S>)
        requires
            old(fs).wf(),
        ensures
            final(fs).wf(),
            *final(self) == old(self).after_submit(),
            final(fs).rw_staged(
                *old(fs),
                *final(eng),
                *old(eng),
                TAG_WRITEV,
                who.spec_id(),
                f,
                bufs@,
                off,
                flags.bits,
                old(self).spec_waiter(cb),
                r,
            ),
            bufs@.len() <= u32::MAX ==> kernel::submitted(
                *old(fs),
                *old(eng),
                *final(fs),
                *final(eng),
                who.spec_id(),
                (Call::Write {
                    fd: f.raw,
                    from: Memory::Buffers(kernel::contents_of(bufs@)),
                    at: off,
                    flags: flags.bits,
                }),
                set![f.fd],
                bufs@,
                old(self).spec_waiter(cb),
                r,
            ),
    {
        let w = self.waiter(cb);
        let r = fs.submit_rw(eng, TAG_WRITEV, who.id(), f, bufs, off, flags.bits, w);
        proof {
            if bufs@.len() <= u32::MAX {
                kernel::law_write_asks_for_its_offset(
                    *old(fs),
                    *old(eng),
                    *fs,
                    *eng,
                    who.spec_id(),
                    f,
                    bufs@,
                    off,
                    flags.bits,
                    old(self).spec_waiter(cb),
                    r,
                );
            }
        }
        r
    }
}

/// A copy of `src` is written in place of a leased range.
pub open spec fn copy_written<T, R, C, S>(
    after: FsCore<T, R, C, S>,
    before: FsCore<T, R, C, S>,
    eng: Engine,
    eng_before: Engine,
    pers: u16,
    f: File<T>,
    src: Seq<u8>,
    off: u64,
    flags: u32,
    waiter: FsWaiter<R, C, S>,
    r: ReapedFs<T, R, C, S>,
) -> bool {
    exists|v: Vec<u8>| #![auto]
        v@ == src && after.rw_staged(
            before,
            eng,
            eng_before,
            TAG_WRITEV,
            pers,
            f,
            seq![v],
            off,
            flags,
            waiter,
            r,
        )
}

impl<S> FsConn<S> {
    /// Whether a range of the receive buffer can be written from in place: it
    /// lies inside the claim, and the writes sharing the claim, if there were
    /// any, have not all completed.
    pub open spec fn leasable<T, R, C>(
        &self,
        fs: FsCore<T, R, C, S>,
        at: usize,
        len: nat,
    ) -> bool {
        &&& self.lease is Some
        &&& self.lease->Some_0.covers(at, len)
        &&& match self.lease_hold {
            Some(h) => fs.leases.of(h.id as u128) > 0,
            None => true,
        }
    }

    /// The claim a leased write shares: the delivery's, or a fresh one.
    pub open spec fn shared_hold<T, R, C>(&self, fs: FsCore<T, R, C, S>) -> LeaseHold {
        match self.lease_hold {
            Some(h) => h,
            None => LeaseHold { id: fs.next_hold, bid: self.lease->Some_0.bid },
        }
    }

    /// The table once a fresh claim was minted, where one was needed.
    pub open spec fn after_mint<T, R, C>(&self, fs: FsCore<T, R, C, S>) -> FsCore<T, R, C, S> {
        match self.lease_hold {
            Some(_) => fs,
            None => FsCore {
                next_hold: crate::sys::next_generation(fs.next_hold),
                ..fs
            },
        }
    }

    /// Write `src`, which sits at address `at`, to `f`. Where it lies in the
    /// delivery's receive buffer it is written from there without copying, and
    /// the buffer goes back to its pool when the last such write completes;
    /// anything else, and a leased write the table has no room for, is written
    /// from a copy.
    pub fn pwritev2_from<T, R, C>(
        &mut self,
        fs: &mut FsCore<T, R, C, S>,
        eng: &mut Engine,
        who: Personality,
        f: File<T>,
        src: &[u8],
        at: usize,
        off: u64,
        flags: RwFlags,
        cb: C,
    ) -> (r: ReapedFs<T, R, C, S>)
        requires
            old(fs).wf(),
        ensures
            final(fs).wf(),
            ({
                let mid = old(self).after_mint(*old(fs));
                let hold = old(self).shared_hold(*old(fs));
                let w = old(self).spec_waiter::<R, C>(cb);
                let len = src@.len() as usize;
                if !old(self).leasable(*old(fs), at, src@.len()) {
                    *final(self) == old(self).after_submit() && copy_written(
                        *final(fs),
                        *old(fs),
                        *final(eng),
                        *old(eng),
                        who.spec_id(),
                        f,
                        src@,
                        off,
                        flags.bits,
                        w,
                        r,
                    )
                } else if mid.launch_refusal(*old(eng)) is None {
                    let bufs = final(fs).ops@[mid.op_free@.last() as int].state.bufs;
                    &&& r is Nothing
                    &&& *final(self) == (FsConn {
                        lease: Some(
                            RecvWriteLease { taken: true, ..old(self).lease->Some_0 },
                        ),
                        lease_hold: Some(hold),
                        ..old(self).after_submit()
                    })
                    &&& bufs@.len() == 0
                    &&& final(fs).launched(
                        mid,
                        *final(eng),
                        *old(eng),
                        (table::FsOpEntry {
                            bufs,
                            iov: table::IoVecs::Lease { at, len },
                            file: Some(f.fd),
                            recv_lease: Some(hold),
                            lease_want: len as u32,
                            ..table::model(TAG_WRITEV, w)
                        }),
                        table::rw_sqe(
                            TAG_WRITEV,
                            f.raw,
                            1,
                            off,
                            flags.bits,
                            who.spec_id(),
                        ),
                    )
                } else {
                    *final(self) == old(self).after_submit() && exists|
                        tried: FsCore<T, R, C, S>,
                        eng_tried: Engine,
                    | #![auto]
                        tried.unlaunched(mid, eng_tried, *old(eng)) && copy_written(
                            *final(fs),
                            tried,
                            *final(eng),
                            eng_tried,
                            who.spec_id(),
                            f,
                            src@,
                            off,
                            flags.bits,
                            w,
                            r,
                        )
                }
            }),
            final(eng).staged@.len() > old(eng).staged@.len() ==> exists|from: Memory|
                (from == (Memory::Address { start: at, count: src@.len() as usize }) || from
                    == Memory::Buffers(seq![src@])) && #[trigger] kernel::asked(
                    *old(fs),
                    *old(eng),
                    *final(fs),
                    *final(eng),
                    who.spec_id(),
                    (Call::Write { fd: f.raw, from, at: off, flags: flags.bits }),
                    set![f.fd],
                    old(self).spec_waiter(cb),
                ),
            old(fs).op_free@.len() > 0 && old(eng).staged@.len() < old(eng).room ==> {
                let in_place = match (old(self).lease, old(self).lease_hold) {
                    (Some(l), None) => l.base <= at && at + src@.len() <= l.base + l.cap,
                    (Some(l), Some(h)) => l.base <= at && at + src@.len() <= l.base + l.cap
                        && old(fs).leases.of(h.id as u128) > 0,
                    (None, _) => false,
                };
                let e = final(fs).ops@[old(fs).op_free@.last() as int].state;
                &&& final(eng).staged@.len() == old(eng).staged@.len() + 1
                &&& in_place ==> e.iov == table::IoVecs::Lease { at, len: src@.len() as usize }
                    && e.recv_lease is Some && e.bufs@.len() == 0
                &&& !in_place ==> e.iov == table::IoVecs::Bufs && e.recv_lease is None
                    && e.bufs@.len() == 1 && e.bufs@[0]@ == src@
            },
    {
        let ghost fs0 = *old(fs);
        let fits = match &self.lease {
            Some(l) => l.fits(at, src.len()),
            None => false,
        };
        let live = match self.lease_hold {
            Some(h) => fs.lease_is_live(h),
            None => true,
        };
        let w = self.waiter(cb);
        let ghost w0 = w;
        if fits && live {
            match self.lease {
                Some(l) => {
                    let hold = match self.lease_hold {
                        Some(h) => h,
                        None => fs.mint_hold(l.bid),
                    };
                    proof {
                        lemma_mint_keeps_wf(fs0, *fs);
                    }
                    let ghost mid = *fs;
                    assert(mid == old(self).after_mint(fs0));
                    match fs.submit_pwritev2_leased(
                        eng,
                        who.id(),
                        f.another(),
                        at,
                        src.len(),
                        off,
                        flags.bits,
                        hold,
                        w,
                    ) {
                        Ok(()) => {
                            let mut l2 = l;
                            l2.taken = true;
                            self.lease = Some(l2);
                            self.lease_hold = Some(hold);
                            proof {
                                let from = Memory::Address {
                                    start: at,
                                    count: src@.len() as usize,
                                };
                                assert(kernel::asked(
                                    *old(fs),
                                    *old(eng),
                                    *fs,
                                    *eng,
                                    who.spec_id(),
                                    Call::Write { fd: f.raw, from, at: off, flags: flags.bits },
                                    set![f.fd],
                                    w0,
                                ));
                            }
                            return ReapedFs::Nothing;
                        },
                        Err(w) => {
                            let ghost tried = *fs;
                            let ghost eng_tried = *eng;
                            let copy = slice_to_vec(src);
                            let ghost copied = copy;
                            let mut bufs: Vec<Vec<u8>> = Vec::new();
                            bufs.push(copy);
                            assert(bufs@ =~= seq![copied]);
                            let r = fs.submit_rw(
                                eng,
                                TAG_WRITEV,
                                who.id(),
                                f,
                                bufs,
                                off,
                                flags.bits,
                                w,
                            );
                            proof {
                                assert(tried.unlaunched(mid, eng_tried, *old(eng)));
                                assert(fs.rw_staged(
                                    tried,
                                    *eng,
                                    eng_tried,
                                    TAG_WRITEV,
                                    who.spec_id(),
                                    f,
                                    seq![copied],
                                    off,
                                    flags.bits,
                                    w0,
                                    r,
                                ));
                                assert(copy_written(
                                    *fs,
                                    tried,
                                    *eng,
                                    eng_tried,
                                    who.spec_id(),
                                    f,
                                    src@,
                                    off,
                                    flags.bits,
                                    w0,
                                    r,
                                ));
                            }
                            return r;
                        },
                    }
                },
                None => {
                    assert(false);
                },
            }
        }
        let copy = slice_to_vec(src);
        let ghost copied = copy;
        let mut bufs: Vec<Vec<u8>> = Vec::new();
        bufs.push(copy);
        assert(bufs@ =~= seq![copied]);
        let r = fs.submit_rw(eng, TAG_WRITEV, who.id(), f, bufs, off, flags.bits, w);
        proof {
            assert(fs.rw_staged(
                fs0,
                *eng,
                *old(eng),
                TAG_WRITEV,
                who.spec_id(),
                f,
                seq![copied],
                off,
                flags.bits,
                w0,
                r,
            ));
            let one = seq![copied];
            kernel::law_write_asks_for_its_offset(
                fs0,
                *old(eng),
                *fs,
                *eng,
                who.spec_id(),
                f,
                one,
                off,
                flags.bits,
                w0,
                r,
            );
            let from = Memory::Buffers(kernel::contents_of(one));
            assert(kernel::contents_of(one) =~= seq![src@]);
            if eng.staged@.len() > old(eng).staged@.len() {
                assert(kernel::asked(
                    *old(fs),
                    *old(eng),
                    *fs,
                    *eng,
                    who.spec_id(),
                    Call::Write { fd: f.raw, from, at: off, flags: flags.bits },
                    set![f.fd],
                    w0,
                ));
            }
        }
        r
    }
}

impl<S> FsConn<S> {
    /// Flush a file's data and metadata.
    pub fn fsync<T, R, C>(
        &mut self,
        fs: &mut FsCore<T, R, C, S>,
        eng: &mut Engine,
        who: Personality,
        f: File<T>,
        cb: C,
    ) -> (r: ReapedFs<T, R, C, S>)
        requires
            old(fs).wf(),
        ensures
            final(fs).wf(),
            *final(self) == old(self).after_submit(),
            final(fs).fsync_staged(
                *old(fs),
                *final(eng),
                *old(eng),
                who.spec_id(),
                f,
                false,
                0,
                0,
                old(self).spec_waiter(cb),
                r,
            ),
            kernel::submitted(
                *old(fs),
                *old(eng),
                *final(fs),
                *final(eng),
                who.spec_id(),
                (Call::Sync { fd: f.raw, data_only: false, at: 0, count: 0 }),
                set![f.fd],
                Seq::empty(),
                old(self).spec_waiter(cb),
                r,
            ),
    {
        let w = self.waiter(cb);
        let r = fs.submit_fsync(eng, who.id(), f, false, 0, 0, w);
        proof {
            kernel::law_flush_asks_for_its_range(
                *old(fs),
                *old(eng),
                *fs,
                *eng,
                who.spec_id(),
                f,
                false,
                0,
                0,
                old(self).spec_waiter(cb),
                r,
            );
        }
        r
    }

    /// Flush a file's data and the metadata it needs.
    pub fn fdatasync<T, R, C>(
        &mut self,
        fs: &mut FsCore<T, R, C, S>,
        eng: &mut Engine,
        who: Personality,
        f: File<T>,
        cb: C,
    ) -> (r: ReapedFs<T, R, C, S>)
        requires
            old(fs).wf(),
        ensures
            final(fs).wf(),
            *final(self) == old(self).after_submit(),
            final(fs).fsync_staged(
                *old(fs),
                *final(eng),
                *old(eng),
                who.spec_id(),
                f,
                true,
                0,
                0,
                old(self).spec_waiter(cb),
                r,
            ),
            kernel::submitted(
                *old(fs),
                *old(eng),
                *final(fs),
                *final(eng),
                who.spec_id(),
                (Call::Sync { fd: f.raw, data_only: true, at: 0, count: 0 }),
                set![f.fd],
                Seq::empty(),
                old(self).spec_waiter(cb),
                r,
            ),
    {
        let w = self.waiter(cb);
        let r = fs.submit_fsync(eng, who.id(), f, true, 0, 0, w);
        proof {
            kernel::law_flush_asks_for_its_range(
                *old(fs),
                *old(eng),
                *fs,
                *eng,
                who.spec_id(),
                f,
                true,
                0,
                0,
                old(self).spec_waiter(cb),
                r,
            );
        }
        r
    }

    /// Flush `[offset, offset + length)` of a file, or all of it where both are 0.
    pub fn fsync_range<T, R, C>(
        &mut self,
        fs: &mut FsCore<T, R, C, S>,
        eng: &mut Engine,
        who: Personality,
        f: File<T>,
        datasync: bool,
        offset: u64,
        length: u32,
        cb: C,
    ) -> (r: ReapedFs<T, R, C, S>)
        requires
            old(fs).wf(),
        ensures
            final(fs).wf(),
            *final(self) == old(self).after_submit(),
            final(fs).fsync_staged(
                *old(fs),
                *final(eng),
                *old(eng),
                who.spec_id(),
                f,
                datasync,
                offset,
                length,
                old(self).spec_waiter(cb),
                r,
            ),
            kernel::submitted(
                *old(fs),
                *old(eng),
                *final(fs),
                *final(eng),
                who.spec_id(),
                (Call::Sync { fd: f.raw, data_only: datasync, at: offset, count: length }),
                set![f.fd],
                Seq::empty(),
                old(self).spec_waiter(cb),
                r,
            ),
    {
        let w = self.waiter(cb);
        let r = fs.submit_fsync(eng, who.id(), f, datasync, offset, length, w);
        proof {
            kernel::law_flush_asks_for_its_range(
                *old(fs),
                *old(eng),
                *fs,
                *eng,
                who.spec_id(),
                f,
                datasync,
                offset,
                length,
                old(self).spec_waiter(cb),
                r,
            );
        }
        r
    }

    /// Stat the entry `leaf` inside `anchor`; a terminal symlink is not followed
    /// unless the caller opts in.
    pub fn statx<T, R, C>(
        &mut self,
        fs: &mut FsCore<T, R, C, S>,
        eng: &mut Engine,
        who: Personality,
        anchor: &Anchor<T>,
        leaf: Leaf<'_>,
        flags: AtFlags,
        mask: u32,
        cb: C,
    ) -> (r: ReapedFs<T, R, C, S>)
        requires
            old(fs).wf(),
        ensures
            final(fs).wf(),
            *final(self) == old(self).after_submit(),
            exists|n1: Vec<u8>| #![auto]
                n1@ == leaf.spec_name() && final(fs).path_staged(
                    *old(fs),
                    *final(eng),
                    *old(eng),
                    TAG_STATX,
                    who.spec_id(),
                    *anchor,
                    n1,
                    None,
                    None,
                    policy::statx_flags(flags.bits),
                    mask,
                    old(self).spec_waiter(cb),
                    r,
                ),
            kernel::submitted_as(
                *old(fs),
                *old(eng),
                *final(fs),
                *final(eng),
                who.spec_id(),
                (Call::Statx {
                    dir: anchor.raw,
                    name: leaf.spec_name(),
                    flags: policy::statx_flags(flags.bits),
                    mask,
                }),
                set![anchor.fd],
                Seq::empty(),
                old(self).spec_waiter(cb),
                r,
            ),
    {
        let w = self.waiter(cb);
        let n1 = leaf.to_cstring();
        let ghost g1 = n1;
        let r = fs.submit_path_op(
            eng,
            TAG_STATX,
            who.id(),
            anchor.another(),
            n1,
            None,
            None,
            statx_at_flags(flags),
            mask,
            w,
        );
        assert(g1@ == leaf.spec_name());
        proof {
            kernel::law_statx_asks_for_its_name(
                *old(fs),
                *old(eng),
                *fs,
                *eng,
                who.spec_id(),
                *anchor,
                g1,
                policy::statx_flags(flags.bits),
                mask,
                old(self).spec_waiter(cb),
                r,
            );
        }
        r
    }

    /// Stat the anchor directory itself.
    pub fn statx_anchor<T, R, C>(
        &mut self,
        fs: &mut FsCore<T, R, C, S>,
        eng: &mut Engine,
        who: Personality,
        anchor: &Anchor<T>,
        flags: AtFlags,
        mask: u32,
        cb: C,
    ) -> (r: ReapedFs<T, R, C, S>)
        requires
            old(fs).wf(),
        ensures
            final(fs).wf(),
            *final(self) == old(self).after_submit(),
            exists|n1: Vec<u8>| #![auto]
                n1@ == Seq::<u8>::empty() && final(fs).path_staged(
                    *old(fs),
                    *final(eng),
                    *old(eng),
                    TAG_STATX,
                    who.spec_id(),
                    *anchor,
                    n1,
                    None,
                    None,
                    policy::statx_flags(flags.bits | AT_EMPTY_PATH),
                    mask,
                    old(self).spec_waiter(cb),
                    r,
                ),
            kernel::submitted_as(
                *old(fs),
                *old(eng),
                *final(fs),
                *final(eng),
                who.spec_id(),
                (Call::Statx {
                    dir: anchor.raw,
                    name: Seq::empty(),
                    flags: policy::statx_flags(flags.bits | 0x1000),
                    mask,
                }),
                set![anchor.fd],
                Seq::empty(),
                old(self).spec_waiter(cb),
                r,
            ),
    {
        let w = self.waiter(cb);
        let n1: Vec<u8> = Vec::new();
        let ghost g1 = n1;
        let r = fs.submit_path_op(
            eng,
            TAG_STATX,
            who.id(),
            anchor.another(),
            n1,
            None,
            None,
            statx_at_flags(AtFlags { bits: flags.bits | AT_EMPTY_PATH }),
            mask,
            w,
        );
        assert(g1@ == Seq::<u8>::empty());
        proof {
            kernel::law_statx_asks_for_its_name(
                *old(fs),
                *old(eng),
                *fs,
                *eng,
                who.spec_id(),
                *anchor,
                g1,
                policy::statx_flags(flags.bits | AT_EMPTY_PATH),
                mask,
                old(self).spec_waiter(cb),
                r,
            );
        }
        r
    }

    /// Stat the open file itself.
    pub fn fstatx<T, R, C>(
        &mut self,
        fs: &mut FsCore<T, R, C, S>,
        eng: &mut Engine,
        who: Personality,
        f: &File<T>,
        flags: AtFlags,
        mask: u32,
        cb: C,
    ) -> (r: ReapedFs<T, R, C, S>)
        requires
            old(fs).wf(),
        ensures
            final(fs).wf(),
            *final(self) == old(self).after_submit(),
            exists|n1: Vec<u8>| #![auto]
                n1@ == Seq::<u8>::empty() && final(fs).path_staged(
                    *old(fs),
                    *final(eng),
                    *old(eng),
                    TAG_STATX,
                    who.spec_id(),
                    (Anchor { raw: f.raw, fd: f.fd }),
                    n1,
                    None,
                    None,
                    policy::statx_flags(flags.bits | AT_EMPTY_PATH),
                    mask,
                    old(self).spec_waiter(cb),
                    r,
                ),
            kernel::submitted_as(
                *old(fs),
                *old(eng),
                *final(fs),
                *final(eng),
                who.spec_id(),
                (Call::Statx {
                    dir: f.raw,
                    name: Seq::empty(),
                    flags: policy::statx_flags(flags.bits | 0x1000),
                    mask,
                }),
                set![f.fd],
                Seq::empty(),
                old(self).spec_waiter(cb),
                r,
            ),
    {
        let anchor = Anchor::from_shared(f);
        let r = self.statx_anchor(fs, eng, who, &anchor, flags, mask, cb);
        proof {
            assert(anchor == (Anchor { raw: f.raw, fd: f.fd }));
        }
        r
    }

    /// Read an extended attribute into `buf`.
    pub fn fgetxattr<T, R, C>(
        &mut self,
        fs: &mut FsCore<T, R, C, S>,
        eng: &mut Engine,
        who: Personality,
        f: File<T>,
        name: Vec<u8>,
        buf: Vec<u8>,
        cb: C,
    ) -> (r: ReapedFs<T, R, C, S>)
        requires
            old(fs).wf(),
        ensures
            final(fs).wf(),
            *final(self) == old(self).after_submit(),
            final(fs).meta_submitted(
                *old(fs),
                *final(eng),
                *old(eng),
                TAG_FGETXATTR,
                who.spec_id(),
                f,
                Some(name),
                buf,
                0,
                0,
                0,
                old(self).spec_waiter(cb),
                r,
            ),
            buf@.len() <= u32::MAX ==> kernel::submitted_as(
                *old(fs),
                *old(eng),
                *final(fs),
                *final(eng),
                who.spec_id(),
                (Call::GetXattr { fd: f.raw, name: name@, room: buf@.len(), flags: 0 }),
                set![f.fd],
                seq![buf],
                old(self).spec_waiter(cb),
                r,
            ),
    {
        let w = self.waiter(cb);
        let r = fs.submit_fd_meta(eng, TAG_FGETXATTR, who.id(), f, Some(name), buf, 0, 0, 0, w);
        proof {
            if buf@.len() <= u32::MAX {
                kernel::law_attribute_read_asks_for_its_name(
                    *old(fs),
                    *old(eng),
                    *fs,
                    *eng,
                    who.spec_id(),
                    f,
                    name,
                    buf,
                    0,
                    0,
                    0,
                    old(self).spec_waiter(cb),
                    r,
                );
            }
        }
        r
    }

    /// Read an extended attribute under the reactor's own credentials: the one
    /// read no request identity governs.
    pub fn fgetxattr_as_root<T, R, C>(
        &mut self,
        fs: &mut FsCore<T, R, C, S>,
        eng: &mut Engine,
        f: File<T>,
        name: Vec<u8>,
        buf: Vec<u8>,
        cb: C,
    ) -> (r: ReapedFs<T, R, C, S>)
        requires
            old(fs).wf(),
        ensures
            final(fs).wf(),
            *final(self) == old(self).after_submit(),
            final(fs).meta_staged(
                *old(fs),
                *final(eng),
                *old(eng),
                TAG_FGETXATTR,
                0,
                f,
                Some(name),
                buf,
                0,
                0,
                0,
                old(self).spec_waiter(cb),
                r,
            ),
            buf@.len() <= u32::MAX ==> kernel::submitted(
                *old(fs),
                *old(eng),
                *final(fs),
                *final(eng),
                0,
                (Call::GetXattr { fd: f.raw, name: name@, room: buf@.len(), flags: 0 }),
                set![f.fd],
                seq![buf],
                old(self).spec_waiter(cb),
                r,
            ),
    {
        let w = self.waiter(cb);
        let r = fs.submit_fgetxattr_as_root(eng, f, name, buf, w);
        proof {
            if buf@.len() <= u32::MAX {
                kernel::law_attribute_read_as_reactor_asks_for_its_name(
                    *old(fs),
                    *old(eng),
                    *fs,
                    *eng,
                    0,
                    f,
                    name,
                    buf,
                    0,
                    0,
                    0,
                    old(self).spec_waiter(cb),
                    r,
                );
            }
        }
        r
    }

    /// Write an extended attribute.
    pub fn fsetxattr<T, R, C>(
        &mut self,
        fs: &mut FsCore<T, R, C, S>,
        eng: &mut Engine,
        who: Personality,
        f: File<T>,
        name: Vec<u8>,
        value: Vec<u8>,
        flags: i32,
        cb: C,
    ) -> (r: ReapedFs<T, R, C, S>)
        requires
            old(fs).wf(),
        ensures
            final(fs).wf(),
            *final(self) == old(self).after_submit(),
            final(fs).meta_submitted(
                *old(fs),
                *final(eng),
                *old(eng),
                TAG_FSETXATTR,
                who.spec_id(),
                f,
                Some(name),
                value,
                0,
                0,
                flags as u32,
                old(self).spec_waiter(cb),
                r,
            ),
            who.spec_id() != 0 && value@.len() <= u32::MAX ==> kernel::submitted(
                *old(fs),
                *old(eng),
                *final(fs),
                *final(eng),
                if old(fs).priv_xattrs.covers(name@) {
                    0
                } else {
                    who.spec_id()
                },
                (Call::SetXattr { fd: f.raw, name: name@, value: value@, flags: flags as u32 }),
                set![f.fd],
                seq![value],
                old(self).spec_waiter(cb),
                r,
            ),
    {
        let w = self.waiter(cb);
        let aux32: u32 = #[verifier::truncate]
        (flags as u32);
        let r = fs.submit_fd_meta(eng, TAG_FSETXATTR, who.id(), f, Some(name), value, 0, 0, aux32, w);
        proof {
            if who.spec_id() != 0 && value@.len() <= u32::MAX {
                let by: u16 = if old(fs).priv_xattrs.covers(name@) {
                    0
                } else {
                    who.spec_id()
                };
                kernel::law_attribute_write_asks_for_its_value(
                    *old(fs),
                    *old(eng),
                    *fs,
                    *eng,
                    who.spec_id(),
                    f,
                    name,
                    value,
                    0,
                    0,
                    flags as u32,
                    by,
                    old(self).spec_waiter(cb),
                    r,
                );
            }
        }
        r
    }

    /// Set a file's length.
    pub fn ftruncate<T, R, C>(
        &mut self,
        fs: &mut FsCore<T, R, C, S>,
        eng: &mut Engine,
        who: Personality,
        f: File<T>,
        len: u64,
        cb: C,
    ) -> (r: ReapedFs<T, R, C, S>)
        requires
            old(fs).wf(),
        ensures
            final(fs).wf(),
            *final(self) == old(self).after_submit(),
            exists|value: Vec<u8>| #![auto]
                value@.len() == 0 && final(fs).meta_submitted(
                    *old(fs),
                    *final(eng),
                    *old(eng),
                    TAG_FTRUNCATE,
                    who.spec_id(),
                    f,
                    None,
                    value,
                    len,
                    0,
                    0,
                    old(self).spec_waiter(cb),
                    r,
                ),
            exists|value: Vec<u8>| #![auto]
                value@.len() == 0 && kernel::submitted_as(
                    *old(fs),
                    *old(eng),
                    *final(fs),
                    *final(eng),
                    who.spec_id(),
                    (Call::Truncate { fd: f.raw, size: len }),
                    set![f.fd],
                    seq![value],
                    old(self).spec_waiter(cb),
                    r,
                ),
    {
        let w = self.waiter(cb);
        let value: Vec<u8> = Vec::new();
        let ghost g = value;
        let r = fs.submit_fd_meta(
            eng,
            TAG_FTRUNCATE,
            who.id(),
            f,
            None,
            value,
            len,
            0,
            0,
            w,
        );
        assert(g@.len() == 0);
        proof {
            kernel::law_truncate_asks_for_its_size(
                *old(fs),
                *old(eng),
                *fs,
                *eng,
                who.spec_id(),
                f,
                g,
                len,
                0,
                0,
                old(self).spec_waiter(cb),
                r,
            );
        }
        r
    }

    /// Manipulate a file's allocated blocks.
    pub fn fallocate<T, R, C>(
        &mut self,
        fs: &mut FsCore<T, R, C, S>,
        eng: &mut Engine,
        who: Personality,
        f: File<T>,
        mode: i32,
        off: u64,
        len: u64,
        cb: C,
    ) -> (r: ReapedFs<T, R, C, S>)
        requires
            old(fs).wf(),
        ensures
            final(fs).wf(),
            *final(self) == old(self).after_submit(),
            exists|value: Vec<u8>| #![auto]
                value@.len() == 0 && final(fs).meta_submitted(
                    *old(fs),
                    *final(eng),
                    *old(eng),
                    TAG_FALLOCATE,
                    who.spec_id(),
                    f,
                    None,
                    value,
                    off,
                    len,
                    mode as u32,
                    old(self).spec_waiter(cb),
                    r,
                ),
            exists|value: Vec<u8>| #![auto]
                value@.len() == 0 && kernel::submitted_as(
                    *old(fs),
                    *old(eng),
                    *final(fs),
                    *final(eng),
                    who.spec_id(),
                    (Call::Allocate { fd: f.raw, mode: mode as u32, at: off, count: len }),
                    set![f.fd],
                    seq![value],
                    old(self).spec_waiter(cb),
                    r,
                ),
    {
        let w = self.waiter(cb);
        let aux32: u32 = #[verifier::truncate]
        (mode as u32);
        let value: Vec<u8> = Vec::new();
        let ghost g = value;
        let r = fs.submit_fd_meta(
            eng,
            TAG_FALLOCATE,
            who.id(),
            f,
            None,
            value,
            off,
            len,
            aux32,
            w,
        );
        assert(g@.len() == 0);
        proof {
            kernel::law_allocate_asks_for_its_range(
                *old(fs),
                *old(eng),
                *fs,
                *eng,
                who.spec_id(),
                f,
                g,
                off,
                len,
                mode as u32,
                old(self).spec_waiter(cb),
                r,
            );
        }
        r
    }

    /// Advise the kernel how a range of a file will be used; a length of 0 means
    /// to the end.
    pub fn fadvise<T, R, C>(
        &mut self,
        fs: &mut FsCore<T, R, C, S>,
        eng: &mut Engine,
        who: Personality,
        f: File<T>,
        off: u64,
        len: u64,
        advice: Advice,
        cb: C,
    ) -> (r: ReapedFs<T, R, C, S>)
        requires
            old(fs).wf(),
        ensures
            final(fs).wf(),
            *final(self) == old(self).after_submit(),
            exists|value: Vec<u8>| #![auto]
                value@.len() == 0 && final(fs).meta_submitted(
                    *old(fs),
                    *final(eng),
                    *old(eng),
                    TAG_FADVISE,
                    who.spec_id(),
                    f,
                    None,
                    value,
                    off,
                    len,
                    advice.spec_code(),
                    old(self).spec_waiter(cb),
                    r,
                ),
            exists|value: Vec<u8>| #![auto]
                value@.len() == 0 && kernel::submitted_as(
                    *old(fs),
                    *old(eng),
                    *final(fs),
                    *final(eng),
                    who.spec_id(),
                    (Call::Advise {
                        fd: f.raw,
                        at: off,
                        count: len,
                        advice: match advice {
                            Advice::Normal => 0,
                            Advice::Random => 1,
                            Advice::Sequential => 2,
                            Advice::WillNeed => 3,
                            Advice::DontNeed => 4,
                            Advice::NoReuse => 5,
                        },
                    }),
                    set![f.fd],
                    seq![value],
                    old(self).spec_waiter(cb),
                    r,
                ),
    {
        let w = self.waiter(cb);
        let value: Vec<u8> = Vec::new();
        let ghost g = value;
        let r = fs.submit_fd_meta(
            eng,
            TAG_FADVISE,
            who.id(),
            f,
            None,
            value,
            off,
            len,
            advice.code(),
            w,
        );
        assert(g@.len() == 0);
        proof {
            kernel::law_advise_asks_for_its_range(
                *old(fs),
                *old(eng),
                *fs,
                *eng,
                who.spec_id(),
                f,
                g,
                off,
                len,
                advice.spec_code(),
                old(self).spec_waiter(cb),
                r,
            );
        }
        r
    }

    /// Move up to `len` bytes from a pipe's read end into a file at `off`.
    pub fn splice_from_pipe<T, R, C>(
        &mut self,
        fs: &mut FsCore<T, R, C, S>,
        eng: &mut Engine,
        who: Personality,
        f: File<T>,
        pipe: i32,
        off: u64,
        len: u32,
        cb: C,
    ) -> (r: ReapedFs<T, R, C, S>)
        requires
            old(fs).wf(),
        ensures
            final(fs).wf(),
            *final(self) == old(self).after_submit(),
            exists|value: Vec<u8>| #![auto]
                value@.len() == 0 && final(fs).meta_submitted(
                    *old(fs),
                    *final(eng),
                    *old(eng),
                    TAG_SPLICE,
                    who.spec_id(),
                    f,
                    None,
                    value,
                    off,
                    (pipe as u32) as u64,
                    len,
                    old(self).spec_waiter(cb),
                    r,
                ),
            exists|value: Vec<u8>| #![auto]
                value@.len() == 0 && kernel::submitted_as(
                    *old(fs),
                    *old(eng),
                    *final(fs),
                    *final(eng),
                    who.spec_id(),
                    (Call::Splice {
                        source: pipe as u32,
                        fd: f.raw,
                        at: off,
                        count: len,
                        flags: 1,
                    }),
                    set![f.fd],
                    seq![value],
                    old(self).spec_waiter(cb),
                    r,
                ),
    {
        let w = self.waiter(cb);
        let source: u32 = #[verifier::truncate]
        (pipe as u32);
        let value: Vec<u8> = Vec::new();
        let ghost g = value;
        let r = fs.submit_fd_meta(
            eng,
            TAG_SPLICE,
            who.id(),
            f,
            None,
            value,
            off,
            source as u64,
            len,
            w,
        );
        assert(g@.len() == 0);
        proof {
            kernel::law_splice_drains_its_pipe(
                *old(fs),
                *old(eng),
                *fs,
                *eng,
                who.spec_id(),
                f,
                g,
                off,
                (pipe as u32) as u64,
                len,
                old(self).spec_waiter(cb),
                r,
            );
        }
        r
    }

    /// Create directory `leaf` inside `anchor`.
    pub fn mkdirat<T, R, C>(
        &mut self,
        fs: &mut FsCore<T, R, C, S>,
        eng: &mut Engine,
        who: Personality,
        anchor: &Anchor<T>,
        leaf: Leaf<'_>,
        mode: u32,
        cb: C,
    ) -> (r: ReapedFs<T, R, C, S>)
        requires
            old(fs).wf(),
        ensures
            final(fs).wf(),
            *final(self) == old(self).after_submit(),
            exists|n1: Vec<u8>| #![auto]
                n1@ == leaf.spec_name() && final(fs).path_staged(
                    *old(fs),
                    *final(eng),
                    *old(eng),
                    TAG_MKDIRAT,
                    who.spec_id(),
                    *anchor,
                    n1,
                    None,
                    None,
                    0,
                    mode,
                    old(self).spec_waiter(cb),
                    r,
                ),
            kernel::submitted_as(
                *old(fs),
                *old(eng),
                *final(fs),
                *final(eng),
                who.spec_id(),
                (Call::Mkdir { dir: anchor.raw, name: leaf.spec_name(), mode }),
                set![anchor.fd],
                Seq::empty(),
                old(self).spec_waiter(cb),
                r,
            ),
    {
        let w = self.waiter(cb);
        let n1 = leaf.to_cstring();
        let ghost g1 = n1;
        let r = fs.submit_path_op(
            eng,
            TAG_MKDIRAT,
            who.id(),
            anchor.another(),
            n1,
            None,
            None,
            0,
            mode,
            w,
        );
        assert(g1@ == leaf.spec_name());
        proof {
            kernel::law_mkdir_makes_its_name(
                *old(fs),
                *old(eng),
                *fs,
                *eng,
                who.spec_id(),
                *anchor,
                g1,
                0,
                mode,
                old(self).spec_waiter(cb),
                r,
            );
        }
        r
    }

    /// Remove file `leaf` from `anchor`.
    pub fn unlinkat<T, R, C>(
        &mut self,
        fs: &mut FsCore<T, R, C, S>,
        eng: &mut Engine,
        who: Personality,
        anchor: &Anchor<T>,
        leaf: Leaf<'_>,
        cb: C,
    ) -> (r: ReapedFs<T, R, C, S>)
        requires
            old(fs).wf(),
        ensures
            final(fs).wf(),
            *final(self) == old(self).after_submit(),
            exists|n1: Vec<u8>| #![auto]
                n1@ == leaf.spec_name() && final(fs).path_staged(
                    *old(fs),
                    *final(eng),
                    *old(eng),
                    TAG_UNLINKAT,
                    who.spec_id(),
                    *anchor,
                    n1,
                    None,
                    None,
                    0,
                    0,
                    old(self).spec_waiter(cb),
                    r,
                ),
            kernel::submitted_as(
                *old(fs),
                *old(eng),
                *final(fs),
                *final(eng),
                who.spec_id(),
                (Call::Unlink { dir: anchor.raw, name: leaf.spec_name(), flags: 0 }),
                set![anchor.fd],
                Seq::empty(),
                old(self).spec_waiter(cb),
                r,
            ),
    {
        let w = self.waiter(cb);
        let n1 = leaf.to_cstring();
        let ghost g1 = n1;
        let r = fs.submit_path_op(
            eng,
            TAG_UNLINKAT,
            who.id(),
            anchor.another(),
            n1,
            None,
            None,
            0,
            0,
            w,
        );
        assert(g1@ == leaf.spec_name());
        proof {
            kernel::law_unlink_removes_its_name(
                *old(fs),
                *old(eng),
                *fs,
                *eng,
                who.spec_id(),
                *anchor,
                g1,
                0,
                0,
                old(self).spec_waiter(cb),
                r,
            );
        }
        r
    }

    /// Remove the empty directory `leaf` from `anchor`.
    pub fn rmdirat<T, R, C>(
        &mut self,
        fs: &mut FsCore<T, R, C, S>,
        eng: &mut Engine,
        who: Personality,
        anchor: &Anchor<T>,
        leaf: Leaf<'_>,
        cb: C,
    ) -> (r: ReapedFs<T, R, C, S>)
        requires
            old(fs).wf(),
        ensures
            final(fs).wf(),
            *final(self) == old(self).after_submit(),
            exists|n1: Vec<u8>| #![auto]
                n1@ == leaf.spec_name() && final(fs).path_staged(
                    *old(fs),
                    *final(eng),
                    *old(eng),
                    TAG_UNLINKAT,
                    who.spec_id(),
                    *anchor,
                    n1,
                    None,
                    None,
                    AT_REMOVEDIR,
                    0,
                    old(self).spec_waiter(cb),
                    r,
                ),
            kernel::submitted_as(
                *old(fs),
                *old(eng),
                *final(fs),
                *final(eng),
                who.spec_id(),
                (Call::Unlink { dir: anchor.raw, name: leaf.spec_name(), flags: 0x200 }),
                set![anchor.fd],
                Seq::empty(),
                old(self).spec_waiter(cb),
                r,
            ),
    {
        let w = self.waiter(cb);
        let n1 = leaf.to_cstring();
        let ghost g1 = n1;
        let r = fs.submit_path_op(
            eng,
            TAG_UNLINKAT,
            who.id(),
            anchor.another(),
            n1,
            None,
            None,
            AT_REMOVEDIR,
            0,
            w,
        );
        assert(g1@ == leaf.spec_name());
        proof {
            kernel::law_unlink_removes_its_name(
                *old(fs),
                *old(eng),
                *fs,
                *eng,
                who.spec_id(),
                *anchor,
                g1,
                AT_REMOVEDIR,
                0,
                old(self).spec_waiter(cb),
                r,
            );
        }
        r
    }

    /// Rename `old_leaf` in `from` to `new_leaf` in `to`.
    pub fn renameat<T, R, C>(
        &mut self,
        fs: &mut FsCore<T, R, C, S>,
        eng: &mut Engine,
        who: Personality,
        from: &Anchor<T>,
        old_leaf: Leaf<'_>,
        to: &Anchor<T>,
        new_leaf: Leaf<'_>,
        flags: u32,
        cb: C,
    ) -> (r: ReapedFs<T, R, C, S>)
        requires
            old(fs).wf(),
        ensures
            final(fs).wf(),
            *final(self) == old(self).after_submit(),
            exists|n1: Vec<u8>, n2: Vec<u8>| #![auto]
                n1@ == old_leaf.spec_name() && n2@ == new_leaf.spec_name() && final(fs).path_staged(
                    *old(fs),
                    *final(eng),
                    *old(eng),
                    TAG_RENAMEAT,
                    who.spec_id(),
                    *from,
                    n1,
                    Some(*to),
                    Some(n2),
                    flags,
                    0,
                    old(self).spec_waiter(cb),
                    r,
                ),
            kernel::submitted_as(
                *old(fs),
                *old(eng),
                *final(fs),
                *final(eng),
                who.spec_id(),
                (Call::Rename {
                    old_dir: from.raw,
                    old_name: old_leaf.spec_name(),
                    dir: to.raw,
                    name: new_leaf.spec_name(),
                    flags,
                }),
                set![from.fd, to.fd],
                Seq::empty(),
                old(self).spec_waiter(cb),
                r,
            ),
    {
        let w = self.waiter(cb);
        let n1 = old_leaf.to_cstring();
        let ghost g1 = n1;
        let n2 = new_leaf.to_cstring();
        let ghost g2 = n2;
        let r = fs.submit_path_op(
            eng,
            TAG_RENAMEAT,
            who.id(),
            from.another(),
            n1,
            Some(to.another()),
            Some(n2),
            flags,
            0,
            w,
        );
        assert(g1@ == old_leaf.spec_name());
        assert(g2@ == new_leaf.spec_name());
        proof {
            kernel::law_rename_moves_to_the_second_name(
                *old(fs),
                *old(eng),
                *fs,
                *eng,
                who.spec_id(),
                *from,
                g1,
                Some(*to),
                g2,
                flags,
                0,
                old(self).spec_waiter(cb),
                r,
            );
        }
        r
    }

    /// Create a hard link at `new_leaf` in `to` for `old_leaf` in `from`.
    pub fn linkat<T, R, C>(
        &mut self,
        fs: &mut FsCore<T, R, C, S>,
        eng: &mut Engine,
        who: Personality,
        from: &Anchor<T>,
        old_leaf: Leaf<'_>,
        to: &Anchor<T>,
        new_leaf: Leaf<'_>,
        flags: AtFlags,
        cb: C,
    ) -> (r: ReapedFs<T, R, C, S>)
        requires
            old(fs).wf(),
        ensures
            final(fs).wf(),
            *final(self) == old(self).after_submit(),
            exists|n1: Vec<u8>, n2: Vec<u8>| #![auto]
                n1@ == old_leaf.spec_name() && n2@ == new_leaf.spec_name() && final(fs).path_staged(
                    *old(fs),
                    *final(eng),
                    *old(eng),
                    TAG_LINKAT,
                    who.spec_id(),
                    *from,
                    n1,
                    Some(*to),
                    Some(n2),
                    flags.bits,
                    0,
                    old(self).spec_waiter(cb),
                    r,
                ),
            kernel::submitted_as(
                *old(fs),
                *old(eng),
                *final(fs),
                *final(eng),
                who.spec_id(),
                (Call::Link {
                    old_dir: from.raw,
                    old_name: old_leaf.spec_name(),
                    dir: to.raw,
                    name: new_leaf.spec_name(),
                    flags: flags.bits,
                }),
                set![from.fd, to.fd],
                Seq::empty(),
                old(self).spec_waiter(cb),
                r,
            ),
    {
        let w = self.waiter(cb);
        let n1 = old_leaf.to_cstring();
        let ghost g1 = n1;
        let n2 = new_leaf.to_cstring();
        let ghost g2 = n2;
        let r = fs.submit_path_op(
            eng,
            TAG_LINKAT,
            who.id(),
            from.another(),
            n1,
            Some(to.another()),
            Some(n2),
            flags.bits,
            0,
            w,
        );
        assert(g1@ == old_leaf.spec_name());
        assert(g2@ == new_leaf.spec_name());
        proof {
            kernel::law_link_makes_the_second_name(
                *old(fs),
                *old(eng),
                *fs,
                *eng,
                who.spec_id(),
                *from,
                g1,
                Some(*to),
                g2,
                flags.bits,
                0,
                old(self).spec_waiter(cb),
                r,
            );
        }
        r
    }

    /// Create a symlink `leaf` in `anchor` whose content is `target`, stored as
    /// given. An empty target is answered at once with a marked `EINVAL`.
    pub fn symlinkat<T, R, C>(
        &mut self,
        fs: &mut FsCore<T, R, C, S>,
        eng: &mut Engine,
        who: Personality,
        target: Vec<u8>,
        anchor: &Anchor<T>,
        leaf: Leaf<'_>,
        cb: C,
    ) -> (r: ReapedFs<T, R, C, S>)
        requires
            old(fs).wf(),
        ensures
            final(fs).wf(),
            target@.len() == 0 ==> final(fs).untouched(*old(fs), *final(eng), *old(eng))
                && *final(self) == *old(self) && answered(r, cb, Errno::EINVAL, old(self).owner),
            target@.len() > 0 ==> *final(self) == old(self).after_submit() && exists|n2: Vec<u8>|
                #![auto]
                n2@ == leaf.spec_name() && final(fs).path_staged(
                    *old(fs),
                    *final(eng),
                    *old(eng),
                    TAG_SYMLINKAT,
                    who.spec_id(),
                    *anchor,
                    target,
                    None,
                    Some(n2),
                    0,
                    0,
                    old(self).spec_waiter(cb),
                    r,
                ),
            target@.len() > 0 ==> kernel::submitted_as(
                *old(fs),
                *old(eng),
                *final(fs),
                *final(eng),
                who.spec_id(),
                (Call::Symlink {
                    target: target@,
                    dir: anchor.raw,
                    name: leaf.spec_name(),
                }),
                set![anchor.fd],
                Seq::empty(),
                old(self).spec_waiter(cb),
                r,
            ),
    {
        if target.len() == 0 {
            return ReapedFs::Embedded(cb, FsDone::refused(Errno::EINVAL), self.owner);
        }
        let w = self.waiter(cb);
        let n2 = leaf.to_cstring();
        let ghost g2 = n2;
        let r = fs.submit_path_op(
            eng,
            TAG_SYMLINKAT,
            who.id(),
            anchor.another(),
            target,
            None,
            Some(n2),
            0,
            0,
            w,
        );
        assert(g2@ == leaf.spec_name());
        proof {
            kernel::law_symlink_holds_its_target(
                *old(fs),
                *old(eng),
                *fs,
                *eng,
                who.spec_id(),
                *anchor,
                target,
                g2,
                0,
                0,
                old(self).spec_waiter(cb),
                r,
            );
        }
        r
    }

    /// Give an already open file a name at `new_leaf` in `to`.
    pub fn linkat_file<T, R, C>(
        &mut self,
        fs: &mut FsCore<T, R, C, S>,
        eng: &mut Engine,
        who: Personality,
        f: File<T>,
        to: &Anchor<T>,
        new_leaf: Leaf<'_>,
        cb: C,
    ) -> (r: ReapedFs<T, R, C, S>)
        requires
            old(fs).wf(),
        ensures
            final(fs).wf(),
            *final(self) == old(self).after_submit(),
            exists|n2: Vec<u8>| #![auto]
                n2@ == new_leaf.spec_name() && final(fs).link_staged(
                    *old(fs),
                    *final(eng),
                    *old(eng),
                    who.spec_id(),
                    f,
                    *to,
                    n2,
                    old(self).spec_waiter(cb),
                    r,
                ),
            kernel::submitted_as(
                *old(fs),
                *old(eng),
                *final(fs),
                *final(eng),
                who.spec_id(),
                (Call::Link {
                    old_dir: f.raw,
                    old_name: Seq::empty(),
                    dir: to.raw,
                    name: new_leaf.spec_name(),
                    flags: 0x1000,
                }),
                set![f.fd, to.fd],
                Seq::empty(),
                old(self).spec_waiter(cb),
                r,
            ),
    {
        let w = self.waiter(cb);
        let n2 = new_leaf.to_cstring();
        let ghost g2 = n2;
        let r = fs.submit_linkat_file(eng, who.id(), f, to.another(), n2, w);
        assert(g2@ == new_leaf.spec_name());
        proof {
            kernel::law_naming_an_open_file_makes_the_name(
                *old(fs),
                *old(eng),
                *fs,
                *eng,
                who.spec_id(),
                f,
                *to,
                g2,
                old(self).spec_waiter(cb),
                r,
            );
        }
        r
    }

    /// Arm a relative one-shot timer. `None` means the arm was refused.
    pub fn timeout<T, R, C>(
        &mut self,
        fs: &mut FsCore<T, R, C, S>,
        eng: &mut Engine,
        secs: u64,
        nanos: u32,
        cb: C,
    ) -> (r: (ReapedFs<T, R, C, S>, Option<Timer>))
        requires
            old(fs).wf(),
        ensures
            final(fs).wf(),
            old(fs).cap_respected() ==> final(fs).cap_respected(),
            *final(self) == old(self).after_submit(),
            r.1 is Some ==> r.1->Some_0.core == old(fs).core_id,
            final(fs).timer_staged(
                *old(fs),
                *final(eng),
                *old(eng),
                secs,
                nanos,
                old(self).spec_waiter(cb),
                (
                    r.0,
                    match r.1 {
                        Some(t) => Some((t.slot, t.generation)),
                        None => None,
                    },
                ),
            ),
            r.1 is Some ==> kernel::asked(
                *old(fs),
                *old(eng),
                *final(fs),
                *final(eng),
                0,
                (Call::Sleep {
                    secs: if secs <= i64::MAX {
                        secs as i64
                    } else {
                        i64::MAX
                    },
                    nanos: nanos as i64,
                }),
                Set::empty(),
                old(self).spec_waiter(cb),
            ),
    {
        let w = self.waiter(cb);
        let core: u64 = fs.core_id;
        let (routed, armed) = fs.submit_timeout(eng, secs, nanos, w);
        let timer = match armed {
            Some((slot, generation)) => Some(Timer { core, slot, generation }),
            None => None,
        };
        proof {
            kernel::law_timer_sleeps_for_its_duration(
                *old(fs),
                *old(eng),
                *fs,
                *eng,
                secs,
                nanos,
                old(self).spec_waiter(cb),
                (routed, armed),
            );
        }
        (routed, timer)
    }

    /// Retract a timer. It completes `ECANCELED`, marked; a token that names no
    /// live timer of this table does nothing.
    pub fn cancel_timeout<T, R, C>(
        &mut self,
        fs: &mut FsCore<T, R, C, S>,
        eng: &mut Engine,
        timer: Timer,
    )
        requires
            old(fs).wf(),
        ensures
            *final(self) == *old(self),
            final(fs).wf(),
            !old(fs).names_timer(timer.core, timer.slot, timer.generation) ==> final(fs).untouched(
                *old(fs),
                *final(eng),
                *old(eng),
            ),
            old(fs).names_timer(timer.core, timer.slot, timer.generation) ==> {
                let was = old(fs).ops@[timer.slot as int];
                &&& final(fs).ops@ == old(fs).ops@.update(
                    timer.slot as int,
                    table::SlotEntry {
                        generation: timer.generation,
                        state: table::FsOpEntry { retracted: true, ..was.state },
                    },
                )
                &&& final(fs).op_free@ == old(fs).op_free@
                &&& final(fs).same_rest(*old(fs))
                &&& final(eng).same_limits(*old(eng))
                &&& final(eng).staged@ == table::staged_cancels(
                    *old(eng),
                    seq![
                        crate::sys::packed(
                            crate::sys::TAG_TIMEOUT,
                            timer.slot,
                            crate::sys::low32(timer.generation),
                        ),
                    ],
                )
            },
    {
        fs.retract_timeout(eng, timer.core, timer.slot, timer.generation);
    }

    /// Close a file: let its handle go. The descriptor closes with the last
    /// share, this one or one an operation in flight still holds.
    pub fn close<T>(&mut self, f: File<T>)
        ensures
            *final(self) == *old(self),
    {
        let _closed = f;
    }
}

/// Minting a claim keeps the table's invariant.
proof fn lemma_mint_keeps_wf<T, R, C, S>(
    before: FsCore<T, R, C, S>,
    after: FsCore<T, R, C, S>,
)
    requires
        before.wf(),
        after == (FsCore { next_hold: after.next_hold, ..before }),
    ensures
        after.wf(),
{
    assert forall|o: (u32, u64)|
        after.timers.of(#[trigger] table::owner_key(o)) == crate::tally::count_where(
            after.ops@,
            FsCore::<T, R, C, S>::timer_pred(o),
        ) by {}
    assert forall|id: u64|
        after.leases.of(id as u128) == crate::tally::count_where(
            after.ops@,
            #[trigger] FsCore::<T, R, C, S>::lease_pred(id),
        ) by {}
}

/// A range is written from in place only where every byte of it is the
/// claim's.
pub proof fn law_claim_covers_each_byte(lease: RecvWriteLease, at: usize, len: nat)
    requires
        len > 0,
    ensures
        lease.covers(at, len) <==> forall|i: int|
            0 <= i < len ==> lease.base <= #[trigger] (at + i) && at + i < lease.base + lease.cap,
{
    let (first, last) = (at + 0, at + (len - 1));
    if forall|i: int|
        0 <= i < len ==> lease.base <= #[trigger] (at + i) && at + i < lease.base + lease.cap {
        assert(lease.base <= first);
        assert(last < lease.base + lease.cap);
    }
}

/// What is submitted through a facade is heard of by the callback given with
/// it, for the connection the facade acts for, and its refusal by the reason
/// slot staged there; the slot is known to be shared from then on.
pub proof fn law_submission_is_heard_of<R, C, S>(conn: FsConn<S>, cb: C)
    ensures
        match conn.spec_waiter::<R, C>(cb) {
            FsWaiter::Embedded { owner, cb: fires, on_fail } => {
                &&& owner == conn.owner
                &&& fires == cb
                &&& on_fail == conn.fail_sink
            },
            _ => false,
        },
        conn.after_submit().fail_armed <==> conn.fail_armed || conn.fail_sink is Some,
        conn.after_submit().fail_sink == conn.fail_sink,
        conn.after_submit().owner == conn.owner,
        conn.after_submit().lease == conn.lease,
        conn.after_submit().lease_hold == conn.lease_hold,
{
}

/// The leased writes of one delivery share one claim, on the delivery's own
/// buffer; the first of them is given one that no other delivery of the table
/// is given next.
pub proof fn law_delivery_has_one_claim<T, R, C, S>(
    conn: FsConn<S>,
    fs: FsCore<T, R, C, S>,
    hold: LeaseHold,
)
    requires
        conn.lease is Some,
    ensures
        conn.lease_hold is None ==> {
            let claim = conn.shared_hold(fs);
            &&& claim.bid == conn.lease->Some_0.bid
            &&& claim.id == fs.next_hold
            &&& conn.after_mint(fs).next_hold != claim.id
            &&& conn.after_mint(fs).ops == fs.ops
            &&& conn.after_mint(fs).op_free == fs.op_free
        },
        conn.lease_hold == Some(hold) ==> conn.shared_hold(fs) == hold && conn.after_mint(fs) == fs,
{
}

/// An argument refused here is told apart from the kernel's own answer by its
/// mark, and carries its error and nothing else; so does a failure that is not
/// this side's own, without the mark.
pub proof fn law_refusal_is_marked<T>(done: FsDone<T>, err: Errno)
    ensures
        done.is_refusal(err) ==> done.result == Err::<i32, Errno>(err) && done.refused,
        done.is_failure(err) ==> done.result == Err::<i32, Errno>(err) && !done.refused,
        done.is_refusal(err) || done.is_failure(err) ==> done.bufs@.len() == 0 && done.file is None
            && done.stat is None && done.recv_lease is None,
{
}

/// An answer given at once fires the callback it was given, for its owner, with
/// the error, marked.
pub proof fn law_answer_at_once_fires_its_callback<T, R, C, S>(
    r: ReapedFs<T, R, C, S>,
    cb: C,
    err: Errno,
    owner: Owner,
)
    requires
        answered(r, cb, err, owner),
    ensures
        match r {
            ReapedFs::Embedded(fires, done, o) => {
                &&& fires == cb
                &&& o == owner
                &&& done.result == Err::<i32, Errno>(err)
                &&& done.refused
            },
            _ => false,
        },
{
}

} // verus!
