//! The side of the reactor that other threads hold: each call puts a request
//! on the loop's queue, with the reply it is answered through, unless the loop
//! has been stopped. What the reply then says is [`crate::pending`]'s.
use crate::bytes::{contains_byte, copied, split};
use crate::errno::{Errno, Error};
use crate::file::{Anchor, File};
use crate::kernel;
use crate::kernel::{Call, Memory};
use crate::listing;
use crate::names;
use crate::names::{Advice, Leaf, Personality, RwFlags, SLASH};
use crate::policy;
use crate::policy::{open_parts, statx_at_flags, AtFlags, RawOpenHow};
use crate::sys::{
    AT_EMPTY_PATH, AT_REMOVEDIR, CONFINED_RESOLVE, O_CLOEXEC, O_DIRECTORY, O_PATH, TAG_FADVISE,
    TAG_FALLOCATE, TAG_FGETXATTR, TAG_FSETXATTR, TAG_FTRUNCATE, TAG_LINKAT, TAG_MKDIRAT,
    TAG_READV, TAG_RENAMEAT, TAG_SPLICE, TAG_STATX, TAG_SYMLINKAT, TAG_UNLINKAT, TAG_WRITEV,
};
use crate::bytes;
use crate::cursor;
use std::collections::VecDeque;
use vstd::prelude::*;

verus! {

/// A request on the loop's queue. `T` is a descriptor and `R` the way its
/// caller is answered.
#[allow(inconsistent_fields)]
pub enum FsInject<T, R> {
    Open { pers: u16, anchor: Anchor<T>, path: Vec<u8>, how: RawOpenHow, reply: R },
    Rw {
        tag: u8,
        pers: u16,
        file: File<T>,
        bufs: Vec<Vec<u8>>,
        off: u64,
        rw_flags: u32,
        reply: R,
    },
    Fsync { pers: u16, file: File<T>, datasync: bool, offset: u64, length: u32, reply: R },
    FdMeta {
        tag: u8,
        pers: u16,
        file: File<T>,
        name: Option<Vec<u8>>,
        value: Vec<u8>,
        off: u64,
        len64: u64,
        aux32: u32,
        reply: R,
    },
    /// An attribute read under the reactor's own credentials.
    FdMetaAsRoot { file: File<T>, name: Vec<u8>, value: Vec<u8>, reply: R },
    /// The removal of an attribute the server owns.
    FRemoveXattr { file: File<T>, name: Vec<u8>, reply: R },
    PathOp {
        tag: u8,
        pers: u16,
        a1: Anchor<T>,
        n1: Vec<u8>,
        a2: Option<Anchor<T>>,
        n2: Option<Vec<u8>>,
        flags: u32,
        len_arg: u32,
        reply: R,
    },
    LinkatFile { pers: u16, file: File<T>, a2: Anchor<T>, n2: Vec<u8>, reply: R },
}

impl<T, R> FsInject<T, R> {
    /// A read or a write is one of the two.
    pub open spec fn wf(&self) -> bool {
        match self {
            FsInject::Rw { tag, .. } => *tag == TAG_READV || *tag == TAG_WRITEV,
            _ => true,
        }
    }

    /// The identity its caller asked for it under; `None` for what the reactor
    /// does under its own.
    pub open spec fn identity(&self) -> Option<u16> {
        match self {
            FsInject::Open { pers, .. } => Some(*pers),
            FsInject::Rw { pers, .. } => Some(*pers),
            FsInject::Fsync { pers, .. } => Some(*pers),
            FsInject::FdMeta { pers, .. } => Some(*pers),
            FsInject::FdMetaAsRoot { .. } => None,
            FsInject::FRemoveXattr { .. } => None,
            FsInject::PathOp { pers, .. } => Some(*pers),
            FsInject::LinkatFile { pers, .. } => Some(*pers),
        }
    }

    /// Where it was asked for under an identity, that is a registered one.
    pub open spec fn identified(&self) -> bool {
        self.identity() is Some ==> self.identity()->0 != 0
    }

    /// Whether this opens `path`.
    pub open spec fn opens(
        &self,
        pers: u16,
        anchor: Anchor<T>,
        path: Seq<u8>,
        how: RawOpenHow,
        reply: R,
    ) -> bool {
        match self {
            FsInject::Open { pers: p, anchor: a, path: n, how: h, reply: r } => {
                *p == pers && *a == anchor && n@ == path && *h == how && *r == reply
            },
            _ => false,
        }
    }

    /// Whether this is that operation on a file's metadata.
    pub open spec fn is_meta(
        &self,
        tag: u8,
        pers: u16,
        file: File<T>,
        off: u64,
        len64: u64,
        aux32: u32,
        reply: R,
    ) -> bool {
        match self {
            FsInject::FdMeta {
                tag: t,
                pers: p,
                file: f,
                name,
                value,
                off: o,
                len64: l,
                aux32: x,
                reply: r,
            } => {
                &&& *t == tag
                &&& *p == pers
                &&& *f == file
                &&& name is None
                &&& value@.len() == 0
                &&& *o == off
                &&& *l == len64
                &&& *x == aux32
                &&& *r == reply
            },
            _ => false,
        }
    }

    /// Whether this is that operation on one or two names.
    pub open spec fn names(
        &self,
        tag: u8,
        pers: u16,
        a1: Anchor<T>,
        n1: Seq<u8>,
        a2: Option<Anchor<T>>,
        n2: Option<Seq<u8>>,
        flags: u32,
        len_arg: u32,
        reply: R,
    ) -> bool {
        match self {
            FsInject::PathOp {
                tag: t,
                pers: p,
                a1: x1,
                n1: y1,
                a2: x2,
                n2: y2,
                flags: f,
                len_arg: l,
                reply: r,
            } => {
                &&& *t == tag
                &&& *p == pers
                &&& *x1 == a1
                &&& y1@ == n1
                &&& *x2 == a2
                &&& listing::opt_bytes(*y2) == n2
                &&& *f == flags
                &&& *l == len_arg
                &&& *r == reply
            },
            _ => false,
        }
    }

    /// Whether this links an open file at a name.
    pub open spec fn links(
        &self,
        pers: u16,
        file: File<T>,
        a2: Anchor<T>,
        n2: Seq<u8>,
        reply: R,
    ) -> bool {
        match self {
            FsInject::LinkatFile { pers: p, file: f, a2: a, n2: n, reply: r } => {
                *p == pers && *f == file && *a == a2 && n@ == n2 && *r == reply
            },
            _ => false,
        }
    }
}

/// The queue to the loop, and whether the loop still takes from it.
pub struct FsHandle<T, R> {
    pub queue: VecDeque<FsInject<T, R>>,
    /// The loop was told to stop.
    pub stop: bool,
    /// Wakes that the loop has not consumed.
    pub pokes: u64,
}

/// One wake more than `pokes`, as far as they are counted.
pub open spec fn poked(pokes: u64) -> u64 {
    if pokes < u64::MAX {
        (pokes + 1) as u64
    } else {
        pokes
    }
}

/// What a caller is told when the loop is gone.
pub open spec fn gone() -> Error {
    Error::Errno(Errno::ECONNABORTED)
}

impl<T, R> FsHandle<T, R> {
    /// Every request on the queue can be routed.
    pub open spec fn wf(&self) -> bool {
        forall|i: int| 0 <= i < self.queue@.len() ==> (#[trigger] self.queue@[i]).wf()
    }

    /// Every request on the queue that was asked for under an identity has one.
    pub open spec fn identified(&self) -> bool {
        forall|i: int| 0 <= i < self.queue@.len() ==> (#[trigger] self.queue@[i]).identified()
    }

    /// `self` is `before` with one request more on the queue and the loop
    /// woken for it.
    pub open spec fn accepted(&self, before: FsHandle<T, R>) -> bool {
        &&& !before.stop
        &&& !self.stop
        &&& self.queue@.len() == before.queue@.len() + 1
        &&& self.queue@.drop_last() == before.queue@
        &&& self.pokes == poked(before.pokes)
    }

    /// Either the loop has stopped, and the caller is told so and nothing
    /// else happened; or one request was queued.
    pub open spec fn posted(&self, before: FsHandle<T, R>, r: Result<(), Error>) -> bool {
        if before.stop {
            r == Err::<(), Error>(gone()) && *self == before
        } else {
            r is Ok && self.accepted(before)
        }
    }

    /// An empty queue to a running loop.
    pub fn new() -> (r: FsHandle<T, R>)
        ensures
            r.wf(),
            r.identified(),
            r.queue@.len() == 0,
            !r.stop,
            r.pokes == 0,
    {
        FsHandle { queue: VecDeque::new(), stop: false, pokes: 0 }
    }

    /// Queue a request and wake the loop. A loop that was told to stop would
    /// never take it: the request is handed back whole, with the buffers its
    /// caller moved in.
    pub fn send(&mut self, msg: FsInject<T, R>) -> (r: Result<(), FsInject<T, R>>)
        requires
            old(self).wf(),
            msg.wf(),
        ensures
            final(self).wf(),
            old(self).identified() && msg.identified() ==> final(self).identified(),
            if old(self).stop {
                r == Err::<(), FsInject<T, R>>(msg) && *final(self) == *old(self)
            } else {
                &&& r is Ok
                &&& final(self).accepted(*old(self))
                &&& final(self).queue@.last() == msg
            },
    {
        if self.stop {
            return Err(msg);
        }
        self.queue.push_back(msg);
        self.pokes = self.pokes.saturating_add(1);
        assert(self.queue@.drop_last() =~= old(self).queue@);
        assert forall|i: int|
            old(self).identified() && msg.identified() && 0 <= i
                < self.queue@.len() implies (#[trigger] self.queue@[i]).identified() by {
            if i < old(self).queue@.len() {
                assert(self.queue@[i] == old(self).queue@[i]);
            }
        }
        Ok(())
    }

    fn post(&mut self, msg: FsInject<T, R>) -> (r: Result<(), Error>)
        requires
            old(self).wf(),
            msg.wf(),
        ensures
            final(self).wf(),
            old(self).identified() && msg.identified() ==> final(self).identified(),
            final(self).posted(*old(self), r),
            !old(self).stop ==> final(self).queue@.last() == msg,
    {
        match self.send(msg) {
            Ok(()) => Ok(()),
            Err(_) => Err(Error::Errno(Errno::ECONNABORTED)),
        }
    }

    /// The loop's side: the next request.
    pub fn take(&mut self) -> (r: Option<FsInject<T, R>>)
        requires
            old(self).wf(),
        ensures
            final(self).wf(),
            old(self).identified() ==> final(self).identified(),
            final(self).stop == old(self).stop,
            final(self).pokes == old(self).pokes,
            match r {
                Some(m) => old(self).queue@.len() > 0 && m == old(self).queue@[0] && m.wf()
                    && final(self).queue@ == old(self).queue@.drop_first(),
                None => old(self).queue@.len() == 0 && final(self).queue@ == old(self).queue@,
            },
    {
        let r = self.queue.pop_front();
        assert forall|i: int| 0 <= i < self.queue@.len() implies (#[trigger] self.queue@[i]).wf() by {
            if r is Some {
                assert(self.queue@[i] == old(self).queue@[i + 1]);
            } else {
                assert(self.queue@[i] == old(self).queue@[i]);
            }
        }
        proof {
            if r is Some {
                assert(old(self).queue@[0].wf());
                assert(self.queue@ =~= old(self).queue@.drop_first());
            }
            if old(self).identified() {
                assert forall|i: int|
                    0 <= i < self.queue@.len() implies (#[trigger] self.queue@[i]).identified() by {
                    let was = if r is Some {
                        i + 1
                    } else {
                        i
                    };
                    assert(self.queue@[i] == old(self).queue@[was]);
                }
            }
        }
        r
    }

    /// Open `path` under `anchor`. An empty path is refused; resolution flags that state
    /// nothing confine the open to the anchor.
    pub fn open(
        &mut self,
        who: Personality,
        anchor: &Anchor<T>,
        path: &[u8],
        how: RawOpenHow,
        reply: R,
    ) -> (r: Result<(), Error>)
        requires
            old(self).wf(),
        ensures
            final(self).wf(),
            old(self).identified() ==> final(self).identified(),
            if policy::open_refusal(path@) is Some {
                &&& r is Err
                &&& r->Err_0 is Validation
                &&& policy::open_refusal(path@) == Some(r->Err_0->Validation_0@)
                &&& *final(self) == *old(self)
            } else {
                &&& final(self).posted(*old(self), r)
                &&& !old(self).stop ==> final(self).queue@.last().opens(
                    who.spec_id(),
                    *anchor,
                    path@,
                    RawOpenHow { resolve: policy::default_resolve(how.resolve), ..how },
                    reply,
                )
            },
            r is Ok ==> kernel::queued(
                *old(self),
                *final(self),
                Some(who.spec_id()),
                (Call::Open {
                    dir: anchor.raw,
                    name: path@,
                    how: RawOpenHow {
                        flags: how.flags,
                        mode: how.mode,
                        resolve: if how.resolve == 0 {
                            0x0c
                        } else {
                            how.resolve
                        },
                    },
                    guarded: false,
                }),
                reply,
            ),
    {
        proof {
            policy::law_unstated_resolution_is_confined(how.resolve);
        }
        let (cpath, raw) = match open_parts(path, how) {
            Ok(parts) => parts,
            Err(e) => {
                return Err(e);
            },
        };
        self.post(
            FsInject::Open {
                pers: who.id(),
                anchor: anchor.another(),
                path: cpath,
                how: raw,
                reply,
            },
        )
    }

    /// [`FsHandle::open`], for a caller that collects the reply later.
    pub fn start_open(
        &mut self,
        who: Personality,
        anchor: &Anchor<T>,
        path: &[u8],
        how: RawOpenHow,
        reply: R,
    ) -> (r: Result<(), Error>)
        requires
            old(self).wf(),
        ensures
            final(self).wf(),
            old(self).identified() ==> final(self).identified(),
            if policy::open_refusal(path@) is Some {
                &&& r is Err
                &&& r->Err_0 is Validation
                &&& policy::open_refusal(path@) == Some(r->Err_0->Validation_0@)
                &&& *final(self) == *old(self)
            } else {
                &&& final(self).posted(*old(self), r)
                &&& !old(self).stop ==> final(self).queue@.last().opens(
                    who.spec_id(),
                    *anchor,
                    path@,
                    RawOpenHow { resolve: policy::default_resolve(how.resolve), ..how },
                    reply,
                )
            },
            r is Ok ==> kernel::queued(
                *old(self),
                *final(self),
                Some(who.spec_id()),
                (Call::Open {
                    dir: anchor.raw,
                    name: path@,
                    how: RawOpenHow {
                        flags: how.flags,
                        mode: how.mode,
                        resolve: if how.resolve == 0 {
                            0x0c
                        } else {
                            how.resolve
                        },
                    },
                    guarded: false,
                }),
                reply,
            ),
    {
        self.open(who, anchor, path, how, reply)
    }

    /// Open `path` under `anchor`, confined to it whatever the flags: nothing above it,
    /// no symlink, no other filesystem.
    pub fn open_confined(
        &mut self,
        who: Personality,
        anchor: &Anchor<T>,
        path: &[u8],
        how: RawOpenHow,
        reply: R,
    ) -> (r: Result<(), Error>)
        requires
            old(self).wf(),
        ensures
            final(self).wf(),
            old(self).identified() ==> final(self).identified(),
            if policy::open_refusal(path@) is Some {
                &&& r is Err
                &&& r->Err_0 is Validation
                &&& policy::open_refusal(path@) == Some(r->Err_0->Validation_0@)
                &&& *final(self) == *old(self)
            } else {
                &&& final(self).posted(*old(self), r)
                &&& !old(self).stop ==> final(self).queue@.last().opens(
                    who.spec_id(),
                    *anchor,
                    path@,
                    RawOpenHow {
                        resolve: policy::default_resolve(how.resolve) | CONFINED_RESOLVE,
                        ..how
                    },
                    reply,
                )
            },
            r is Ok ==> kernel::queued(
                *old(self),
                *final(self),
                Some(who.spec_id()),
                (Call::Open {
                    dir: anchor.raw,
                    name: path@,
                    how: RawOpenHow {
                        flags: how.flags,
                        mode: how.mode,
                        resolve: how.resolve | 0x0d,
                    },
                    guarded: false,
                }),
                reply,
            ),
    {
        proof {
            policy::law_unstated_resolution_is_confined(how.resolve);
        }
        let (cpath, raw) = match open_parts(path, how) {
            Ok(parts) => parts,
            Err(e) => {
                return Err(e);
            },
        };
        let mut raw = raw;
        raw.resolve = raw.resolve | CONFINED_RESOLVE;
        self.post(
            FsInject::Open {
                pers: who.id(),
                anchor: anchor.another(),
                path: cpath,
                how: raw,
                reply,
            },
        )
    }

    /// A read or a write; a stopped loop hands the buffers back.
    fn rw(
        &mut self,
        tag: u8,
        who: Personality,
        f: &File<T>,
        bufs: Vec<Vec<u8>>,
        off: u64,
        flags: RwFlags,
        reply: R,
    ) -> (r: Result<(), (Error, Vec<Vec<u8>>)>)
        requires
            old(self).wf(),
            tag == TAG_READV || tag == TAG_WRITEV,
        ensures
            final(self).wf(),
            old(self).identified() ==> final(self).identified(),
            if old(self).stop {
                r == Err::<(), (Error, Vec<Vec<u8>>)>((gone(), bufs)) && *final(self) == *old(self)
            } else {
                &&& r is Ok
                &&& final(self).accepted(*old(self))
                &&& final(self).queue@.last() == (FsInject::Rw {
                    tag,
                    pers: who.spec_id(),
                    file: *f,
                    bufs,
                    off,
                    rw_flags: flags.bits,
                    reply,
                })
            },
    {
        let msg = FsInject::Rw {
            tag,
            pers: who.id(),
            file: f.another(),
            bufs,
            off,
            rw_flags: flags.bits,
            reply,
        };
        match self.send(msg) {
            Ok(()) => Ok(()),
            Err(FsInject::Rw { bufs, .. }) => Err((Error::Errno(Errno::ECONNABORTED), bufs)),
            Err(_) => Err((Error::Errno(Errno::ECONNABORTED), Vec::new())),
        }
    }

    /// Read into `bufs` at `off`; a stopped loop hands them back.
    pub fn preadv2(
        &mut self,
        who: Personality,
        f: &File<T>,
        bufs: Vec<Vec<u8>>,
        off: u64,
        flags: RwFlags,
        reply: R,
    ) -> (r: Result<(), (Error, Vec<Vec<u8>>)>)
        requires
            old(self).wf(),
        ensures
            final(self).wf(),
            old(self).identified() ==> final(self).identified(),
            if old(self).stop {
                r == Err::<(), (Error, Vec<Vec<u8>>)>((gone(), bufs)) && *final(self) == *old(self)
            } else {
                &&& r is Ok
                &&& final(self).accepted(*old(self))
                &&& final(self).queue@.last() == (FsInject::Rw {
                    tag: TAG_READV,
                    pers: who.spec_id(),
                    file: *f,
                    bufs,
                    off,
                    rw_flags: flags.bits,
                    reply,
                })
            },
            r is Ok ==> kernel::queued(
                *old(self),
                *final(self),
                Some(who.spec_id()),
                (Call::Read {
                    fd: f.raw,
                    into: Memory::Buffers(kernel::contents_of(bufs@)),
                    at: off,
                    flags: flags.bits,
                }),
                reply,
            ),
    {
        self.rw(TAG_READV, who, f, bufs, off, flags, reply)
    }

    /// Write `bufs` at `off`; a stopped loop hands them back.
    pub fn pwritev2(
        &mut self,
        who: Personality,
        f: &File<T>,
        bufs: Vec<Vec<u8>>,
        off: u64,
        flags: RwFlags,
        reply: R,
    ) -> (r: Result<(), (Error, Vec<Vec<u8>>)>)
        requires
            old(self).wf(),
        ensures
            final(self).wf(),
            old(self).identified() ==> final(self).identified(),
            if old(self).stop {
                r == Err::<(), (Error, Vec<Vec<u8>>)>((gone(), bufs)) && *final(self) == *old(self)
            } else {
                &&& r is Ok
                &&& final(self).accepted(*old(self))
                &&& final(self).queue@.last() == (FsInject::Rw {
                    tag: TAG_WRITEV,
                    pers: who.spec_id(),
                    file: *f,
                    bufs,
                    off,
                    rw_flags: flags.bits,
                    reply,
                })
            },
            r is Ok ==> kernel::queued(
                *old(self),
                *final(self),
                Some(who.spec_id()),
                (Call::Write {
                    fd: f.raw,
                    from: Memory::Buffers(kernel::contents_of(bufs@)),
                    at: off,
                    flags: flags.bits,
                }),
                reply,
            ),
    {
        self.rw(TAG_WRITEV, who, f, bufs, off, flags, reply)
    }

    /// [`FsHandle::preadv2`], for a caller that collects the reply later.
    pub fn start_preadv2(
        &mut self,
        who: Personality,
        f: &File<T>,
        bufs: Vec<Vec<u8>>,
        off: u64,
        flags: RwFlags,
        reply: R,
    ) -> (r: Result<(), Error>)
        requires
            old(self).wf(),
        ensures
            final(self).wf(),
            old(self).identified() ==> final(self).identified(),
            final(self).posted(*old(self), r),
            !old(self).stop ==> final(self).queue@.last() == (FsInject::Rw {
                tag: TAG_READV,
                pers: who.spec_id(),
                file: *f,
                bufs,
                off,
                rw_flags: flags.bits,
                reply,
            }),
            r is Ok ==> kernel::queued(
                *old(self),
                *final(self),
                Some(who.spec_id()),
                (Call::Read {
                    fd: f.raw,
                    into: Memory::Buffers(kernel::contents_of(bufs@)),
                    at: off,
                    flags: flags.bits,
                }),
                reply,
            ),
    {
        match self.rw(TAG_READV, who, f, bufs, off, flags, reply) {
            Ok(()) => Ok(()),
            Err((e, _)) => Err(e),
        }
    }

    /// [`FsHandle::pwritev2`], for a caller that collects the reply later.
    pub fn start_pwritev2(
        &mut self,
        who: Personality,
        f: &File<T>,
        bufs: Vec<Vec<u8>>,
        off: u64,
        flags: RwFlags,
        reply: R,
    ) -> (r: Result<(), Error>)
        requires
            old(self).wf(),
        ensures
            final(self).wf(),
            old(self).identified() ==> final(self).identified(),
            final(self).posted(*old(self), r),
            !old(self).stop ==> final(self).queue@.last() == (FsInject::Rw {
                tag: TAG_WRITEV,
                pers: who.spec_id(),
                file: *f,
                bufs,
                off,
                rw_flags: flags.bits,
                reply,
            }),
            r is Ok ==> kernel::queued(
                *old(self),
                *final(self),
                Some(who.spec_id()),
                (Call::Write {
                    fd: f.raw,
                    from: Memory::Buffers(kernel::contents_of(bufs@)),
                    at: off,
                    flags: flags.bits,
                }),
                reply,
            ),
    {
        match self.rw(TAG_WRITEV, who, f, bufs, off, flags, reply) {
            Ok(()) => Ok(()),
            Err((e, _)) => Err(e),
        }
    }

    /// Make a file's data and metadata durable.
    pub fn fsync(
        &mut self,
        who: Personality,
        f: &File<T>,
        reply: R,
    ) -> (r: Result<(), Error>)
        requires
            old(self).wf(),
        ensures
            final(self).wf(),
            old(self).identified() ==> final(self).identified(),
            final(self).posted(*old(self), r),
            !old(self).stop ==> final(self).queue@.last() == (FsInject::Fsync {
                pers: who.spec_id(),
                file: *f,
                datasync: false,
                offset: 0,
                length: 0,
                reply,
            }),
            r is Ok ==> kernel::queued(
                *old(self),
                *final(self),
                Some(who.spec_id()),
                (Call::Sync { fd: f.raw, data_only: false, at: 0, count: 0 }),
                reply,
            ),
    {
        self.post(
            FsInject::Fsync {
                pers: who.id(),
                file: f.another(),
                datasync: false,
                offset: 0,
                length: 0,
                reply,
            },
        )
    }

    /// Make a file's data durable, with the metadata needed to read it.
    pub fn fdatasync(
        &mut self,
        who: Personality,
        f: &File<T>,
        reply: R,
    ) -> (r: Result<(), Error>)
        requires
            old(self).wf(),
        ensures
            final(self).wf(),
            old(self).identified() ==> final(self).identified(),
            final(self).posted(*old(self), r),
            !old(self).stop ==> final(self).queue@.last() == (FsInject::Fsync {
                pers: who.spec_id(),
                file: *f,
                datasync: true,
                offset: 0,
                length: 0,
                reply,
            }),
            r is Ok ==> kernel::queued(
                *old(self),
                *final(self),
                Some(who.spec_id()),
                (Call::Sync { fd: f.raw, data_only: true, at: 0, count: 0 }),
                reply,
            ),
    {
        self.post(
            FsInject::Fsync {
                pers: who.id(),
                file: f.another(),
                datasync: true,
                offset: 0,
                length: 0,
                reply,
            },
        )
    }

    /// Make a range of a file durable.
    pub fn fsync_range(
        &mut self,
        who: Personality,
        f: &File<T>,
        datasync: bool,
        offset: u64,
        length: u32,
        reply: R,
    ) -> (r: Result<(), Error>)
        requires
            old(self).wf(),
        ensures
            final(self).wf(),
            old(self).identified() ==> final(self).identified(),
            final(self).posted(*old(self), r),
            !old(self).stop ==> final(self).queue@.last() == (FsInject::Fsync {
                pers: who.spec_id(),
                file: *f,
                datasync: datasync,
                offset: offset,
                length: length,
                reply,
            }),
            r is Ok ==> kernel::queued(
                *old(self),
                *final(self),
                Some(who.spec_id()),
                (Call::Sync { fd: f.raw, data_only: datasync, at: offset, count: length }),
                reply,
            ),
    {
        self.post(
            FsInject::Fsync {
                pers: who.id(),
                file: f.another(),
                datasync: datasync,
                offset: offset,
                length: length,
                reply,
            },
        )
    }

    /// Read the attribute `name` into `value`; a stopped loop hands the buffer back.
    pub fn fgetxattr(
        &mut self,
        who: Personality,
        f: &File<T>,
        name: Vec<u8>,
        value: Vec<u8>,
        reply: R,
    ) -> (r: Result<(), (Error, Vec<u8>)>)
        requires
            old(self).wf(),
        ensures
            final(self).wf(),
            old(self).identified() ==> final(self).identified(),
            if old(self).stop {
                r == Err::<(), (Error, Vec<u8>)>((gone(), value)) && *final(self) == *old(self)
            } else {
                &&& r is Ok
                &&& final(self).accepted(*old(self))
                &&& final(self).queue@.last() == (FsInject::FdMeta {
                    tag: TAG_FGETXATTR,
                    pers: who.spec_id(),
                    file: *f,
                    name: Some(name),
                    value,
                    off: 0,
                    len64: 0,
                    aux32: 0,
                    reply,
                })
            },
            r is Ok ==> kernel::queued(
                *old(self),
                *final(self),
                Some(who.spec_id()),
                (Call::GetXattr { fd: f.raw, name: name@, room: value@.len(), flags: 0 }),
                reply,
            ),
    {
        let msg = FsInject::FdMeta {
            tag: TAG_FGETXATTR,
            pers: who.id(),
            file: f.another(),
            name: Some(name),
            value,
            off: 0,
            len64: 0,
            aux32: 0,
            reply,
        };
        match self.send(msg) {
            Ok(()) => Ok(()),
            Err(FsInject::FdMeta { value, .. }) => Err((Error::Errno(Errno::ECONNABORTED), value)),
            Err(_) => Err((Error::Errno(Errno::ECONNABORTED), Vec::new())),
        }
    }

    /// Set the attribute `name` to `value`; a stopped loop hands the value back.
    pub fn fsetxattr(
        &mut self,
        who: Personality,
        f: &File<T>,
        name: Vec<u8>,
        value: Vec<u8>,
        flags: i32,
        reply: R,
    ) -> (r: Result<(), (Error, Vec<u8>)>)
        requires
            old(self).wf(),
        ensures
            final(self).wf(),
            old(self).identified() ==> final(self).identified(),
            if old(self).stop {
                r == Err::<(), (Error, Vec<u8>)>((gone(), value)) && *final(self) == *old(self)
            } else {
                &&& r is Ok
                &&& final(self).accepted(*old(self))
                &&& final(self).queue@.last() == (FsInject::FdMeta {
                    tag: TAG_FSETXATTR,
                    pers: who.spec_id(),
                    file: *f,
                    name: Some(name),
                    value,
                    off: 0,
                    len64: 0,
                    aux32: flags as u32,
                    reply,
                })
            },
            r is Ok ==> kernel::queued(
                *old(self),
                *final(self),
                Some(who.spec_id()),
                (Call::SetXattr { fd: f.raw, name: name@, value: value@, flags: flags as u32 }),
                reply,
            ),
    {
        let aux32: u32 = #[verifier::truncate]
        (flags as u32);
        let msg = FsInject::FdMeta {
            tag: TAG_FSETXATTR,
            pers: who.id(),
            file: f.another(),
            name: Some(name),
            value,
            off: 0,
            len64: 0,
            aux32,
            reply,
        };
        match self.send(msg) {
            Ok(()) => Ok(()),
            Err(FsInject::FdMeta { value, .. }) => Err((Error::Errno(Errno::ECONNABORTED), value)),
            Err(_) => Err((Error::Errno(Errno::ECONNABORTED), Vec::new())),
        }
    }

    /// [`FsHandle::fgetxattr`], for a caller that collects the reply later.
    pub fn start_fgetxattr(
        &mut self,
        who: Personality,
        f: &File<T>,
        name: Vec<u8>,
        value: Vec<u8>,
        reply: R,
    ) -> (r: Result<(), Error>)
        requires
            old(self).wf(),
        ensures
            final(self).wf(),
            old(self).identified() ==> final(self).identified(),
            final(self).posted(*old(self), r),
            !old(self).stop ==> final(self).queue@.last() == (FsInject::FdMeta {
                tag: TAG_FGETXATTR,
                pers: who.spec_id(),
                file: *f,
                name: Some(name),
                value,
                off: 0,
                len64: 0,
                aux32: 0,
                reply,
            }),
            r is Ok ==> kernel::queued(
                *old(self),
                *final(self),
                Some(who.spec_id()),
                (Call::GetXattr { fd: f.raw, name: name@, room: value@.len(), flags: 0 }),
                reply,
            ),
    {
        match self.fgetxattr(who, f, name, value, reply) {
            Ok(()) => Ok(()),
            Err((e, _)) => Err(e),
        }
    }

    /// Read the attribute `name` under the reactor's own credentials; a stopped loop hands
    /// the buffer back.
    pub fn fgetxattr_as_root(
        &mut self,
        f: &File<T>,
        name: Vec<u8>,
        value: Vec<u8>,
        reply: R,
    ) -> (r: Result<(), (Error, Vec<u8>)>)
        requires
            old(self).wf(),
        ensures
            final(self).wf(),
            old(self).identified() ==> final(self).identified(),
            if old(self).stop {
                r == Err::<(), (Error, Vec<u8>)>((gone(), value)) && *final(self) == *old(self)
            } else {
                &&& r is Ok
                &&& final(self).accepted(*old(self))
                &&& final(self).queue@.last() == (FsInject::FdMetaAsRoot {
                    file: *f,
                    name,
                    value,
                    reply,
                })
            },
            r is Ok ==> kernel::queued(
                *old(self),
                *final(self),
                None,
                (Call::GetXattr { fd: f.raw, name: name@, room: value@.len(), flags: 0 }),
                reply,
            ),
    {
        match self.send(FsInject::FdMetaAsRoot { file: f.another(), name, value, reply }) {
            Ok(()) => Ok(()),
            Err(FsInject::FdMetaAsRoot { value, .. }) => Err(
                (Error::Errno(Errno::ECONNABORTED), value),
            ),
            Err(_) => Err((Error::Errno(Errno::ECONNABORTED), Vec::new())),
        }
    }

    /// Remove an attribute the server owns.
    pub fn fremovexattr(&mut self, f: &File<T>, name: Vec<u8>, reply: R) -> (r: Result<(), Error>)
        requires
            old(self).wf(),
        ensures
            final(self).wf(),
            old(self).identified() ==> final(self).identified(),
            final(self).posted(*old(self), r),
            !old(self).stop ==> final(self).queue@.last() == (FsInject::FRemoveXattr {
                file: *f,
                name,
                reply,
            }),
    {
        self.post(FsInject::FRemoveXattr { file: f.another(), name, reply })
    }

    /// An operation on a file that carries neither a name nor a buffer.
    fn fd_meta_count(
        &mut self,
        tag: u8,
        who: Personality,
        f: &File<T>,
        off: u64,
        len64: u64,
        aux32: u32,
        reply: R,
    ) -> (r: Result<(), Error>)
        requires
            old(self).wf(),
        ensures
            final(self).wf(),
            old(self).identified() ==> final(self).identified(),
            final(self).posted(*old(self), r),
            !old(self).stop ==> final(self).queue@.last().is_meta(
                tag,
                who.spec_id(),
                *f,
                off,
                len64,
                aux32,
                reply,
            ),
    {
        self.post(
            FsInject::FdMeta {
                tag,
                pers: who.id(),
                file: f.another(),
                name: None,
                value: Vec::new(),
                off,
                len64,
                aux32,
                reply,
            },
        )
    }

    /// Set a file's length.
    pub fn ftruncate(
        &mut self,
        who: Personality,
        f: &File<T>,
        len: u64,
        reply: R,
    ) -> (r: Result<(), Error>)
        requires
            old(self).wf(),
        ensures
            final(self).wf(),
            old(self).identified() ==> final(self).identified(),
            final(self).posted(*old(self), r),
            !old(self).stop ==> final(self).queue@.last().is_meta(
                TAG_FTRUNCATE,
                who.spec_id(),
                *f,
                len,
                0,
                0,
                reply,
            ),
            r is Ok ==> kernel::queued(
                *old(self),
                *final(self),
                Some(who.spec_id()),
                (Call::Truncate { fd: f.raw, size: len }),
                reply,
            ),
    {
        self.fd_meta_count(TAG_FTRUNCATE, who, f, len, 0, 0, reply)
    }

    /// Allocate or punch a range, as `mode` says.
    pub fn fallocate(
        &mut self,
        who: Personality,
        f: &File<T>,
        mode: i32,
        off: u64,
        len: u64,
        reply: R,
    ) -> (r: Result<(), Error>)
        requires
            old(self).wf(),
        ensures
            final(self).wf(),
            old(self).identified() ==> final(self).identified(),
            final(self).posted(*old(self), r),
            !old(self).stop ==> final(self).queue@.last().is_meta(
                TAG_FALLOCATE,
                who.spec_id(),
                *f,
                off,
                len,
                mode as u32,
                reply,
            ),
            r is Ok ==> kernel::queued(
                *old(self),
                *final(self),
                Some(who.spec_id()),
                (Call::Allocate { fd: f.raw, mode: mode as u32, at: off, count: len }),
                reply,
            ),
    {
        let aux32: u32 = #[verifier::truncate]
        (mode as u32);
        self.fd_meta_count(TAG_FALLOCATE, who, f, off, len, aux32, reply)
    }

    /// Say how a range will be used.
    pub fn fadvise(
        &mut self,
        who: Personality,
        f: &File<T>,
        off: u64,
        len: u64,
        advice: Advice,
        reply: R,
    ) -> (r: Result<(), Error>)
        requires
            old(self).wf(),
        ensures
            final(self).wf(),
            old(self).identified() ==> final(self).identified(),
            final(self).posted(*old(self), r),
            !old(self).stop ==> final(self).queue@.last().is_meta(
                TAG_FADVISE,
                who.spec_id(),
                *f,
                off,
                len,
                advice.spec_code(),
                reply,
            ),
            r is Ok ==> kernel::queued(
                *old(self),
                *final(self),
                Some(who.spec_id()),
                (Call::Advise {
                    fd: f.raw,
                    at: off,
                    count: len,
                    advice: match advice {
                        Advice::Normal => 0,
                        Advice::Random => 1,
                        Advice::Sequential => 2,
                        Advice::WillNeed => 3,
                        Advice::DontNeed => 4,
                        Advice::NoReuse => 5,
                    },
                }),
                reply,
            ),
    {
        self.fd_meta_count(TAG_FADVISE, who, f, off, len, advice.code(), reply)
    }

    /// Move up to `len` bytes out of a pipe into the file at `off`.
    pub fn splice_from_pipe(
        &mut self,
        who: Personality,
        f: &File<T>,
        pipe: i32,
        off: u64,
        len: u32,
        reply: R,
    ) -> (r: Result<(), Error>)
        requires
            old(self).wf(),
        ensures
            final(self).wf(),
            old(self).identified() ==> final(self).identified(),
            final(self).posted(*old(self), r),
            !old(self).stop ==> final(self).queue@.last().is_meta(
                TAG_SPLICE,
                who.spec_id(),
                *f,
                off,
                pipe as u32 as u64,
                len,
                reply,
            ),
            r is Ok ==> kernel::queued(
                *old(self),
                *final(self),
                Some(who.spec_id()),
                (Call::Splice { source: pipe as u32, fd: f.raw, at: off, count: len, flags: 1 }),
                reply,
            ),
    {
        let word: u32 = #[verifier::truncate]
        (pipe as u32);
        let pipe64: u64 = word as u64;
        self.fd_meta_count(TAG_SPLICE, who, f, off, pipe64, len, reply)
    }

    /// An operation on one or two names.
    fn path_op(
        &mut self,
        tag: u8,
        who: Personality,
        a1: &Anchor<T>,
        n1: Vec<u8>,
        a2: Option<Anchor<T>>,
        n2: Option<Vec<u8>>,
        flags: u32,
        len_arg: u32,
        reply: R,
    ) -> (r: Result<(), Error>)
        requires
            old(self).wf(),
        ensures
            final(self).wf(),
            old(self).identified() ==> final(self).identified(),
            final(self).posted(*old(self), r),
            !old(self).stop ==> final(self).queue@.last().names(
                tag,
                who.spec_id(),
                *a1,
                n1@,
                a2,
                listing::opt_bytes(n2),
                flags,
                len_arg,
                reply,
            ),
    {
        self.post(
            FsInject::PathOp {
                tag,
                pers: who.id(),
                a1: a1.another(),
                n1,
                a2,
                n2,
                flags,
                len_arg,
                reply,
            },
        )
    }

    /// Read an entry's metadata by name. Symlinks are not followed unless the flags ask
    /// for it.
    pub fn statx(
        &mut self,
        who: Personality,
        anchor: &Anchor<T>,
        leaf: Leaf<'_>,
        flags: AtFlags,
        mask: u32,
        reply: R,
    ) -> (r: Result<(), Error>)
        requires
            old(self).wf(),
        ensures
            final(self).wf(),
            old(self).identified() ==> final(self).identified(),
            final(self).posted(*old(self), r),
            !old(self).stop ==> final(self).queue@.last().names(
                TAG_STATX,
                who.spec_id(),
                *anchor,
                leaf.spec_name(),
                None::<Anchor<T>>,
                None::<Seq<u8>>,
                policy::statx_flags(flags.bits),
                mask,
                reply,
            ),
            r is Ok ==> kernel::queued(
                *old(self),
                *final(self),
                Some(who.spec_id()),
                (Call::Statx {
                    dir: anchor.raw,
                    name: leaf.spec_name(),
                    flags: policy::statx_flags(flags.bits),
                    mask,
                }),
                reply,
            ),
    {
        self.path_op(
            TAG_STATX,
            who,
            anchor,
            leaf.to_cstring(),
            None,
            None,
            statx_at_flags(flags),
            mask,
            reply,
        )
    }

    /// [`FsHandle::statx`], for a caller that collects the reply later.
    pub fn start_statx(
        &mut self,
        who: Personality,
        anchor: &Anchor<T>,
        leaf: Leaf<'_>,
        flags: AtFlags,
        mask: u32,
        reply: R,
    ) -> (r: Result<(), Error>)
        requires
            old(self).wf(),
        ensures
            final(self).wf(),
            old(self).identified() ==> final(self).identified(),
            final(self).posted(*old(self), r),
            !old(self).stop ==> final(self).queue@.last().names(
                TAG_STATX,
                who.spec_id(),
                *anchor,
                leaf.spec_name(),
                None::<Anchor<T>>,
                None::<Seq<u8>>,
                policy::statx_flags(flags.bits),
                mask,
                reply,
            ),
            r is Ok ==> kernel::queued(
                *old(self),
                *final(self),
                Some(who.spec_id()),
                (Call::Statx {
                    dir: anchor.raw,
                    name: leaf.spec_name(),
                    flags: policy::statx_flags(flags.bits),
                    mask,
                }),
                reply,
            ),
    {
        self.statx(who, anchor, leaf, flags, mask, reply)
    }

    /// Read the metadata of the anchor itself.
    pub fn statx_anchor(
        &mut self,
        who: Personality,
        anchor: &Anchor<T>,
        flags: AtFlags,
        mask: u32,
        reply: R,
    ) -> (r: Result<(), Error>)
        requires
            old(self).wf(),
        ensures
            final(self).wf(),
            old(self).identified() ==> final(self).identified(),
            final(self).posted(*old(self), r),
            !old(self).stop ==> final(self).queue@.last().names(
                TAG_STATX,
                who.spec_id(),
                *anchor,
                Seq::<u8>::empty(),
                None::<Anchor<T>>,
                None::<Seq<u8>>,
                policy::statx_flags(flags.bits | AT_EMPTY_PATH),
                mask,
                reply,
            ),
            r is Ok ==> kernel::queued(
                *old(self),
                *final(self),
                Some(who.spec_id()),
                (Call::Statx {
                    dir: anchor.raw,
                    name: Seq::empty(),
                    flags: policy::statx_flags(flags.bits | 0x1000),
                    mask,
                }),
                reply,
            ),
    {
        let at = AtFlags { bits: flags.bits | AT_EMPTY_PATH };
        let none: Vec<u8> = Vec::new();
        assert(none@ =~= Seq::<u8>::empty());
        self.path_op(
            TAG_STATX,
            who,
            anchor,
            none,
            None,
            None,
            statx_at_flags(at),
            mask,
            reply,
        )
    }

    /// Read the metadata of an open file.
    pub fn fstatx(
        &mut self,
        who: Personality,
        f: &File<T>,
        flags: AtFlags,
        mask: u32,
        reply: R,
    ) -> (r: Result<(), Error>)
        requires
            old(self).wf(),
        ensures
            final(self).wf(),
            old(self).identified() ==> final(self).identified(),
            final(self).posted(*old(self), r),
            !old(self).stop ==> final(self).queue@.last().names(
                TAG_STATX,
                who.spec_id(),
                Anchor { raw: f.raw, fd: f.fd },
                Seq::<u8>::empty(),
                None::<Anchor<T>>,
                None::<Seq<u8>>,
                policy::statx_flags(flags.bits | AT_EMPTY_PATH),
                mask,
                reply,
            ),
            r is Ok ==> kernel::queued(
                *old(self),
                *final(self),
                Some(who.spec_id()),
                (Call::Statx {
                    dir: f.raw,
                    name: Seq::empty(),
                    flags: policy::statx_flags(flags.bits | 0x1000),
                    mask,
                }),
                reply,
            ),
    {
        let anchor = Anchor::from_shared(f);
        self.statx_anchor(who, &anchor, flags, mask, reply)
    }

    /// [`FsHandle::fstatx`], for a caller that collects the reply later.
    pub fn start_fstatx(
        &mut self,
        who: Personality,
        f: &File<T>,
        flags: AtFlags,
        mask: u32,
        reply: R,
    ) -> (r: Result<(), Error>)
        requires
            old(self).wf(),
        ensures
            final(self).wf(),
            old(self).identified() ==> final(self).identified(),
            final(self).posted(*old(self), r),
            !old(self).stop ==> final(self).queue@.last().names(
                TAG_STATX,
                who.spec_id(),
                Anchor { raw: f.raw, fd: f.fd },
                Seq::<u8>::empty(),
                None::<Anchor<T>>,
                None::<Seq<u8>>,
                policy::statx_flags(flags.bits | AT_EMPTY_PATH),
                mask,
                reply,
            ),
            r is Ok ==> kernel::queued(
                *old(self),
                *final(self),
                Some(who.spec_id()),
                (Call::Statx {
                    dir: f.raw,
                    name: Seq::empty(),
                    flags: policy::statx_flags(flags.bits | 0x1000),
                    mask,
                }),
                reply,
            ),
    {
        self.fstatx(who, f, flags, mask, reply)
    }

    /// Make a directory.
    pub fn mkdirat(
        &mut self,
        who: Personality,
        anchor: &Anchor<T>,
        leaf: Leaf<'_>,
        mode: u32,
        reply: R,
    ) -> (r: Result<(), Error>)
        requires
            old(self).wf(),
        ensures
            final(self).wf(),
            old(self).identified() ==> final(self).identified(),
            final(self).posted(*old(self), r),
            !old(self).stop ==> final(self).queue@.last().names(
                TAG_MKDIRAT,
                who.spec_id(),
                *anchor,
                leaf.spec_name(),
                None::<Anchor<T>>,
                None::<Seq<u8>>,
                0,
                mode,
                reply,
            ),
            r is Ok ==> kernel::queued(
                *old(self),
                *final(self),
                Some(who.spec_id()),
                (Call::Mkdir { dir: anchor.raw, name: leaf.spec_name(), mode }),
                reply,
            ),
    {
        self.path_op(TAG_MKDIRAT, who, anchor, leaf.to_cstring(), None, None, 0, mode, reply)
    }

    /// Remove a name that is no directory's.
    pub fn unlinkat(
        &mut self,
        who: Personality,
        anchor: &Anchor<T>,
        leaf: Leaf<'_>,
        reply: R,
    ) -> (r: Result<(), Error>)
        requires
            old(self).wf(),
        ensures
            final(self).wf(),
            old(self).identified() ==> final(self).identified(),
            final(self).posted(*old(self), r),
            !old(self).stop ==> final(self).queue@.last().names(
                TAG_UNLINKAT,
                who.spec_id(),
                *anchor,
                leaf.spec_name(),
                None::<Anchor<T>>,
                None::<Seq<u8>>,
                0,
                0,
                reply,
            ),
            r is Ok ==> kernel::queued(
                *old(self),
                *final(self),
                Some(who.spec_id()),
                (Call::Unlink { dir: anchor.raw, name: leaf.spec_name(), flags: 0 }),
                reply,
            ),
    {
        self.path_op(TAG_UNLINKAT, who, anchor, leaf.to_cstring(), None, None, 0, 0, reply)
    }

    /// Remove an empty directory.
    pub fn rmdirat(
        &mut self,
        who: Personality,
        anchor: &Anchor<T>,
        leaf: Leaf<'_>,
        reply: R,
    ) -> (r: Result<(), Error>)
        requires
            old(self).wf(),
        ensures
            final(self).wf(),
            old(self).identified() ==> final(self).identified(),
            final(self).posted(*old(self), r),
            !old(self).stop ==> final(self).queue@.last().names(
                TAG_UNLINKAT,
                who.spec_id(),
                *anchor,
                leaf.spec_name(),
                None::<Anchor<T>>,
                None::<Seq<u8>>,
                AT_REMOVEDIR,
                0,
                reply,
            ),
            r is Ok ==> kernel::queued(
                *old(self),
                *final(self),
                Some(who.spec_id()),
                (Call::Unlink { dir: anchor.raw, name: leaf.spec_name(), flags: 0x200 }),
                reply,
            ),
    {
        self.path_op(
            TAG_UNLINKAT,
            who,
            anchor,
            leaf.to_cstring(),
            None,
            None,
            AT_REMOVEDIR,
            0,
            reply,
        )
    }

    /// Rename one name to another.
    pub fn renameat(
        &mut self,
        who: Personality,
        old_dir: &Anchor<T>,
        old_leaf: Leaf<'_>,
        new_dir: &Anchor<T>,
        new_leaf: Leaf<'_>,
        flags: u32,
        reply: R,
    ) -> (r: Result<(), Error>)
        requires
            old(self).wf(),
        ensures
            final(self).wf(),
            old(self).identified() ==> final(self).identified(),
            final(self).posted(*old(self), r),
            !old(self).stop ==> final(self).queue@.last().names(
                TAG_RENAMEAT,
                who.spec_id(),
                *old_dir,
                old_leaf.spec_name(),
                Some(*new_dir),
                Some(new_leaf.spec_name()),
                flags,
                0,
                reply,
            ),
            r is Ok ==> kernel::queued(
                *old(self),
                *final(self),
                Some(who.spec_id()),
                (Call::Rename {
                    old_dir: old_dir.raw,
                    old_name: old_leaf.spec_name(),
                    dir: new_dir.raw,
                    name: new_leaf.spec_name(),
                    flags,
                }),
                reply,
            ),
    {
        self.path_op(
            TAG_RENAMEAT,
            who,
            old_dir,
            old_leaf.to_cstring(),
            Some(new_dir.another()),
            Some(new_leaf.to_cstring()),
            flags,
            0,
            reply,
        )
    }

    /// Give a file another name.
    pub fn linkat(
        &mut self,
        who: Personality,
        old_dir: &Anchor<T>,
        old_leaf: Leaf<'_>,
        new_dir: &Anchor<T>,
        new_leaf: Leaf<'_>,
        flags: AtFlags,
        reply: R,
    ) -> (r: Result<(), Error>)
        requires
            old(self).wf(),
        ensures
            final(self).wf(),
            old(self).identified() ==> final(self).identified(),
            final(self).posted(*old(self), r),
            !old(self).stop ==> final(self).queue@.last().names(
                TAG_LINKAT,
                who.spec_id(),
                *old_dir,
                old_leaf.spec_name(),
                Some(*new_dir),
                Some(new_leaf.spec_name()),
                flags.bits,
                0,
                reply,
            ),
            r is Ok ==> kernel::queued(
                *old(self),
                *final(self),
                Some(who.spec_id()),
                (Call::Link {
                    old_dir: old_dir.raw,
                    old_name: old_leaf.spec_name(),
                    dir: new_dir.raw,
                    name: new_leaf.spec_name(),
                    flags: flags.bits,
                }),
                reply,
            ),
    {
        self.path_op(
            TAG_LINKAT,
            who,
            old_dir,
            old_leaf.to_cstring(),
            Some(new_dir.another()),
            Some(new_leaf.to_cstring()),
            flags.bits,
            0,
            reply,
        )
    }

    /// Make a symlink to `target`, which may not be empty nor hold a NUL.
    pub fn symlinkat(
        &mut self,
        who: Personality,
        target: &[u8],
        anchor: &Anchor<T>,
        leaf: Leaf<'_>,
        reply: R,
    ) -> (r: Result<(), Error>)
        requires
            old(self).wf(),
        ensures
            final(self).wf(),
            old(self).identified() ==> final(self).identified(),
            if link_refusal(target@) is Some {
                &&& r is Err
                &&& r->Err_0 is Validation
                &&& link_refusal(target@) == Some(r->Err_0->Validation_0@)
                &&& *final(self) == *old(self)
            } else {
                &&& final(self).posted(*old(self), r)
                &&& !old(self).stop ==> final(self).queue@.last().names(
                    TAG_SYMLINKAT,
                    who.spec_id(),
                    *anchor,
                    target@,
                    None,
                    Some(leaf.spec_name()),
                    0,
                    0,
                    reply,
                )
            },
            r is Ok ==> kernel::queued(
                *old(self),
                *final(self),
                Some(who.spec_id()),
                (Call::Symlink { target: target@, dir: anchor.raw, name: leaf.spec_name() }),
                reply,
            ),
    {
        if target.len() == 0 {
            return Err(Error::Validation("symlinkat: empty target".to_owned()));
        }
        if contains_byte(target, 0) {
            return Err(Error::Validation("path contains NUL".to_owned()));
        }
        self.path_op(
            TAG_SYMLINKAT,
            who,
            anchor,
            copied(target),
            None,
            Some(leaf.to_cstring()),
            0,
            0,
            reply,
        )
    }

    /// Give an open file a name.
    pub fn linkat_file(
        &mut self,
        who: Personality,
        f: &File<T>,
        new_dir: &Anchor<T>,
        new_leaf: Leaf<'_>,
        reply: R,
    ) -> (r: Result<(), Error>)
        requires
            old(self).wf(),
        ensures
            final(self).wf(),
            old(self).identified() ==> final(self).identified(),
            final(self).posted(*old(self), r),
            !old(self).stop ==> final(self).queue@.last().links(
                who.spec_id(),
                *f,
                *new_dir,
                new_leaf.spec_name(),
                reply,
            ),
            r is Ok ==> kernel::queued(
                *old(self),
                *final(self),
                Some(who.spec_id()),
                (Call::Link {
                    old_dir: f.raw,
                    old_name: Seq::empty(),
                    dir: new_dir.raw,
                    name: new_leaf.spec_name(),
                    flags: 0x1000,
                }),
                reply,
            ),
    {
        self.post(
            FsInject::LinkatFile {
                pers: who.id(),
                file: f.another(),
                a2: new_dir.another(),
                n2: new_leaf.to_cstring(),
                reply,
            },
        )
    }

    /// Let go of a file: its descriptor closes with the last share of it.
    pub fn close(&self, f: File<T>) -> (r: Result<(), Error>)
        ensures
            r is Ok,
    {
        Ok(())
    }
}

/// Why a link's target is refused, where it is.
pub open spec fn link_refusal(target: Seq<u8>) -> Option<Seq<char>> {
    policy::path_refusal(target, "symlinkat: empty target"@)
}

/// A loop that was told to stop takes nothing: a request sent to it comes
/// back, and its queue stays as it was.
pub proof fn law_nothing_is_queued_after_stop<T, R>(
    before: FsHandle<T, R>,
    after: FsHandle<T, R>,
    r: Result<(), Error>,
)
    requires
        before.stop,
        after.posted(before, r),
    ensures
        r == Err::<(), Error>(gone()),
        after.queue@ == before.queue@,
{
}

/// The creation of every missing directory along a path, one component at a
/// time, for a caller that waits for each step.
pub struct MkdirPath {
    /// The components left to make, the first of them first.
    pub parts: VecDeque<Vec<u8>>,
    /// The component being made, or entered once it is there.
    pub making: Option<Vec<u8>>,
}

/// What the creation of a path does next.
#[derive(Debug)]
pub enum MkdirStep {
    /// Make that directory in the one reached, and say with
    /// [`MkdirPath::made`] what came of it.
    Make(Vec<u8>),
    /// Open it with [`mkdir_path_how`], and say with [`MkdirPath::entered`]
    /// whether it is the one reached now.
    Enter(Vec<u8>),
    /// The one reached is the last.
    Done,
    /// The creation failed; what was made stays.
    Fail(Error),
}

/// How each directory along the path is opened: as a place to resolve from,
/// and confined.
pub fn mkdir_path_how() -> (r: RawOpenHow)
    ensures
        r == (RawOpenHow {
            flags: O_PATH | O_DIRECTORY | O_CLOEXEC,
            mode: 0,
            resolve: CONFINED_RESOLVE,
        }),
        r == (RawOpenHow { flags: 0x29_0000, mode: 0, resolve: 0x0d }),
{
    assert(0x20_0000u64 | 0x1_0000u64 | 0x8_0000u64 == 0x29_0000u64) by (bit_vector);
    RawOpenHow { flags: O_PATH | O_DIRECTORY | O_CLOEXEC, mode: 0, resolve: CONFINED_RESOLVE }
}

/// Why a path to make is refused, where it is.
pub open spec fn mkdir_refusal(path: Seq<u8>) -> Option<Seq<char>> {
    match policy::path_refusal(path, "uring_fs mkdir_path: empty path"@) {
        Some(why) => Some(why),
        None => if path[0] == SLASH {
            Some("uring_fs mkdir_path: path must be relative to the anchor"@)
        } else {
            None
        },
    }
}

impl MkdirPath {
    pub open spec fn spec_parts(&self) -> Seq<Seq<u8>> {
        bytes::views(self.parts@)
    }

    /// `after` is `before` gone on to its next component: there is none left,
    /// or it is made, or it is no single component and refused.
    pub open spec fn goes_on(after: MkdirPath, before: MkdirPath, r: MkdirStep) -> bool {
        if before.parts@.len() == 0 {
            r is Done && after.parts@ == before.parts@ && after.making is None
        } else {
            let part = before.spec_parts()[0];
            &&& after.spec_parts() == before.spec_parts().drop_first()
            &&& if names::is_leaf(part) {
                r is Make && r->Make_0@ == part && after.making is Some && after.making->0@ == part
            } else {
                &&& r is Fail
                &&& r->Fail_0 is Validation
                &&& r->Fail_0->Validation_0@ == names::leaf_refusal(part)
                &&& after.making is None
            }
        }
    }

    /// How the creation goes on once making the component came to `result`.
    pub open spec fn after_make(&self, result: Result<(), Error>, r: MkdirStep) -> bool {
        match result {
            Ok(_) => r is Enter && r->Enter_0@ == self.making->0@,
            Err(e) => if e == Error::Errno(Errno::EEXIST) {
                r is Enter && r->Enter_0@ == self.making->0@
            } else {
                r == MkdirStep::Fail(e)
            },
        }
    }

    /// How it goes on once entering the component came to `result`.
    pub open spec fn after_enter(
        after: MkdirPath,
        before: MkdirPath,
        result: Result<(), Error>,
        r: MkdirStep,
    ) -> bool {
        match result {
            Ok(_) => Self::goes_on(after, before, r),
            Err(e) => r == MkdirStep::Fail(e) && after == before,
        }
    }

    /// Begin: an empty path, an absolute one and one that holds a NUL are
    /// refused. The whole path is
    /// tried first with [`mkdir_path_how`]; only if that opens nothing is
    /// [`MkdirPath::missing`] called. Empty components are passed over.
    pub fn begin(path: &[u8]) -> (r: Result<MkdirPath, Error>)
        ensures
            match r {
                Ok(w) => {
                    &&& mkdir_refusal(path@) is None
                    &&& w.spec_parts() == cursor::components_of(path@)
                    &&& w.making is None
                },
                Err(e) => e is Validation && mkdir_refusal(path@) == Some(e->Validation_0@),
            },
    {
        if path.len() == 0 {
            return Err(Error::Validation("uring_fs mkdir_path: empty path".to_owned()));
        }
        if contains_byte(path, 0) {
            return Err(Error::Validation("path contains NUL".to_owned()));
        }
        if path[0] == SLASH {
            return Err(
                Error::Validation(
                    "uring_fs mkdir_path: path must be relative to the anchor".to_owned(),
                ),
            );
        }
        let mut rest = split(path, SLASH);
        let ghost all = bytes::views(rest@);
        let mut parts: VecDeque<Vec<u8>> = VecDeque::new();
        let ghost mut tail: Seq<Seq<u8>> = Seq::empty();
        proof {
            reveal(Seq::filter);
            assert(bytes::views(rest@) + tail =~= all);
            assert(bytes::views(parts@) =~= cursor::nonempty(tail));
        }
        while rest.len() > 0
            invariant
                bytes::views(rest@) + tail == all,
                bytes::views(parts@) == cursor::nonempty(tail),
            decreases rest@.len(),
        {
            let ghost (r0, t0, p0) = (rest@, tail, parts@);
            let part = rest.pop().unwrap();
            let ghost one = seq![part@];
            proof {
                tail = one + t0;
                assert(bytes::views(rest@) + tail =~= bytes::views(r0) + t0);
                Seq::filter_distributes_over_add(one, t0, |p: Seq<u8>| p.len() > 0);
                reveal(Seq::filter);
                assert(one.drop_last() =~= Seq::<Seq<u8>>::empty());
                assert(cursor::nonempty(Seq::<Seq<u8>>::empty()) =~= Seq::<Seq<u8>>::empty());
                if part@.len() > 0 {
                    assert(cursor::nonempty(one) =~= one);
                } else {
                    assert(cursor::nonempty(one) =~= Seq::<Seq<u8>>::empty());
                }
            }
            if part.len() > 0 {
                parts.push_front(part);
                assert(bytes::views(parts@) =~= one + bytes::views(p0));
            } else {
                assert(cursor::nonempty(tail) =~= cursor::nonempty(t0));
            }
        }
        assert(tail =~= all);
        Ok(MkdirPath { parts, making: None })
    }

    fn go_on(&mut self) -> (r: MkdirStep)
        ensures
            Self::goes_on(*final(self), *old(self), r),
    {
        self.making = None;
        if self.parts.len() == 0 {
            return MkdirStep::Done;
        }
        let part = self.parts.pop_front().unwrap();
        assert(self.spec_parts() =~= old(self).spec_parts().drop_first());
        assert(part@ == old(self).spec_parts()[0]);
        match Leaf::new(part.as_slice()) {
            Ok(leaf) => {
                self.making = Some(leaf.to_cstring());
                MkdirStep::Make(part)
            },
            Err(e) => MkdirStep::Fail(e),
        }
    }

    /// The whole path did not open: its components are made one by one, from
    /// the anchor on.
    pub fn missing(&mut self) -> (r: MkdirStep)
        ensures
            Self::goes_on(*final(self), *old(self), r),
    {
        self.go_on()
    }

    /// What making the component came to: one that exists is as good as one
    /// that was made.
    pub fn made(&self, result: Result<(), Error>) -> (r: MkdirStep)
        requires
            self.making is Some,
        ensures
            self.after_make(result, r),
    {
        let there = match &result {
            Ok(()) => true,
            Err(Error::Errno(Errno::EEXIST)) => true,
            Err(_) => false,
        };
        match (result, &self.making) {
            (Err(e), _) if !there => MkdirStep::Fail(e),
            (_, Some(part)) => MkdirStep::Enter(copied(part.as_slice())),
            (_, None) => MkdirStep::Done,
        }
    }

    /// Whether the component is the directory reached now.
    pub fn entered(&mut self, result: Result<(), Error>) -> (r: MkdirStep)
        ensures
            Self::after_enter(*final(self), *old(self), result, r),
    {
        match result {
            Ok(()) => self.go_on(),
            Err(e) => MkdirStep::Fail(e),
        }
    }
}

/// The creation of a path under way: what it does next, the directory it has
/// reached, and the directories there are, each by its components from the
/// anchor on.
pub struct Making {
    pub at: MkdirPath,
    pub next: MkdirStep,
    pub reached: Seq<Seq<u8>>,
    pub dirs: Set<Seq<Seq<u8>>>,
}

/// What `before` asked for was done: a directory that is missing is made, one
/// that is there is reported so, and one that was made or found is entered.
pub open spec fn served(before: Making, after: Making) -> bool {
    match before.next {
        MkdirStep::Make(part) => {
            let dir = before.reached.push(part@);
            &&& after.at == before.at
            &&& after.reached == before.reached
            &&& after.dirs == before.dirs.insert(dir)
            &&& before.at.after_make(
                if before.dirs.contains(dir) {
                    Err(Error::Errno(Errno::EEXIST))
                } else {
                    Ok(())
                },
                after.next,
            )
        },
        MkdirStep::Enter(part) => {
            &&& after.reached == before.reached.push(part@)
            &&& after.dirs == before.dirs
            &&& MkdirPath::after_enter(after.at, before.at, Ok(()), after.next)
        },
        _ => false,
    }
}

/// The creation of a path of these components, from where it begins to make
/// them to its end.
pub open spec fn making_run(parts: Seq<Seq<u8>>, run: Seq<Making>) -> bool {
    &&& run.len() > 0
    &&& exists|w: MkdirPath|
        w.spec_parts() == parts && #[trigger] MkdirPath::goes_on(run[0].at, w, run[0].next)
    &&& run[0].reached.len() == 0
    &&& forall|i: int| 0 <= i < run.len() - 1 ==> served(#[trigger] run[i], run[i + 1])
    &&& run.last().next is Done || run.last().next is Fail
}

/// The directories along a path, the anchor left out.
pub open spec fn along(parts: Seq<Seq<u8>>, n: int) -> Set<Seq<Seq<u8>>> {
    Set::new(|d: Seq<Seq<u8>>| exists|k: int| 1 <= k <= n && d == #[trigger] parts.take(k))
}

proof fn lemma_along_more(parts: Seq<Seq<u8>>, n: int)
    requires
        0 <= n < parts.len(),
    ensures
        along(parts, n + 1) == along(parts, n).insert(parts.take(n).push(parts[n])),
{
    assert(parts.take(n).push(parts[n]) =~= parts.take(n + 1));
    assert forall|d: Seq<Seq<u8>>| #[trigger] along(parts, n + 1).contains(d) == along(parts, n).insert(
        parts.take(n + 1),
    ).contains(d) by {
        if along(parts, n + 1).contains(d) {
            let k = choose|k: int| 1 <= k <= n + 1 && d == #[trigger] parts.take(k);
            if k <= n {
                assert(along(parts, n).contains(d));
            }
        } else if along(parts, n).contains(d) {
            let k = choose|k: int| 1 <= k <= n && d == #[trigger] parts.take(k);
            assert(d == parts.take(k));
        } else if d == parts.take(n + 1) {
            assert(along(parts, n + 1).contains(d));
        }
    }
    assert(along(parts, n + 1) =~= along(parts, n).insert(parts.take(n + 1)));
}

/// How far a creation has come after `i` steps.
spec fn come_to(parts: Seq<Seq<u8>>, run: Seq<Making>, i: int) -> bool {
    let m = run[i];
    let n = i / 2;
    &&& n <= parts.len()
    &&& m.reached == parts.take(n)
    &&& if i % 2 == 1 {
        &&& n < parts.len()
        &&& m.next is Enter
        &&& m.next->Enter_0@ == parts[n]
        &&& m.at.making is Some
        &&& m.at.making->0@ == parts[n]
        &&& m.at.spec_parts() == parts.skip(n + 1)
        &&& m.dirs == run[0].dirs.union(along(parts, n + 1))
    } else {
        &&& m.dirs == run[0].dirs.union(along(parts, n))
        &&& if n == parts.len() {
            m.next is Done
        } else {
            &&& m.next is Make
            &&& m.next->Make_0@ == parts[n]
            &&& m.at.making is Some
            &&& m.at.making->0@ == parts[n]
            &&& m.at.spec_parts() == parts.skip(n + 1)
        }
    }
}

proof fn lemma_come_to(parts: Seq<Seq<u8>>, run: Seq<Making>, i: int)
    requires
        making_run(parts, run),
        forall|k: int| 0 <= k < parts.len() ==> names::is_leaf(#[trigger] parts[k]),
        0 <= i < run.len(),
    ensures
        come_to(parts, run, i),
    decreases i,
{
    if i == 0 {
        let w = choose|w: MkdirPath|
            w.spec_parts() == parts && #[trigger] MkdirPath::goes_on(run[0].at, w, run[0].next);
        assert(w.spec_parts().len() == w.parts@.len());
        assert(run[0].reached =~= parts.take(0));
        assert(along(parts, 0) =~= Set::empty());
        assert(run[0].dirs =~= run[0].dirs.union(along(parts, 0)));
        if parts.len() > 0 {
            assert(names::is_leaf(parts[0]));
            assert(parts.drop_first() =~= parts.skip(1));
        }
    } else {
        lemma_come_to(parts, run, i - 1);
        let (b, a) = (run[i - 1], run[i]);
        assert(served(b, a));
        let n = (i - 1) / 2;
        assert(b.at.spec_parts().len() == b.at.parts@.len());
        if (i - 1) % 2 == 0 {
            lemma_along_more(parts, n);
            assert(a.dirs =~= run[0].dirs.union(along(parts, n + 1)));
        } else {
            assert(parts.take(n).push(parts[n]) =~= parts.take(n + 1));
            if n + 1 < parts.len() {
                assert(parts.skip(n + 1)[0] == parts[n + 1]);
                assert(names::is_leaf(parts[n + 1]));
                assert(parts.skip(n + 1).drop_first() =~= parts.skip(n + 2));
            }
        }
    }
}

/// Making a path makes every directory along it that is missing and leaves
/// every other as it is, and ends at the deepest; and once they are all there,
/// making it makes nothing.
pub proof fn law_path_is_made_to_its_end(parts: Seq<Seq<u8>>, run: Seq<Making>)
    requires
        making_run(parts, run),
        forall|k: int| 0 <= k < parts.len() ==> names::is_leaf(#[trigger] parts[k]),
    ensures
        run.len() == 2 * parts.len() + 1,
        run.last().next is Done,
        run.last().reached == parts,
        run.last().dirs == run[0].dirs.union(along(parts, parts.len() as int)),
        along(parts, parts.len() as int).subset_of(run[0].dirs) ==> run.last().dirs == run[0].dirs,
{
    let last = run.len() - 1;
    lemma_come_to(parts, run, last);
    assert(parts.take(parts.len() as int) =~= parts);
    if 2 * parts.len() < last {
        let end = 2 * parts.len() as int;
        lemma_come_to(parts, run, end);
        assert(served(run[end], run[end + 1]));
    }
    if along(parts, parts.len() as int).subset_of(run[0].dirs) {
        assert(run[0].dirs.union(along(parts, parts.len() as int)) =~= run[0].dirs);
    }
}

/// Making the same path again makes nothing: `again` begins with the
/// directories that `run` left.
pub proof fn law_making_a_path_twice_makes_it_once(
    parts: Seq<Seq<u8>>,
    run: Seq<Making>,
    again: Seq<Making>,
)
    requires
        making_run(parts, run),
        making_run(parts, again),
        forall|k: int| 0 <= k < parts.len() ==> names::is_leaf(#[trigger] parts[k]),
        again[0].dirs == run.last().dirs,
    ensures
        again.last().next is Done,
        again.last().reached == run.last().reached,
        again.last().dirs == run.last().dirs,
{
    law_path_is_made_to_its_end(parts, run);
    law_path_is_made_to_its_end(parts, again);
}

/// A doubled separator, or one at the end, makes no difference to the
/// components of a path.
pub proof fn law_surplus_separators_name_nothing(a: Seq<u8>, b: Seq<u8>)
    ensures
        cursor::components_of(a.push(SLASH).push(SLASH) + b) == cursor::components_of(
            a.push(SLASH) + b,
        ),
        cursor::components_of(a.push(SLASH)) == cursor::components_of(a),
{
    let none = Seq::<u8>::empty();
    bytes::lemma_split_one(none, SLASH);
    cursor::lemma_nonempty_one(none);
    bytes::lemma_split_at(a, none, SLASH);
    cursor::lemma_nonempty_parts(bytes::split_on(a, SLASH), seq![none]);
    assert(a.push(SLASH) + none =~= a.push(SLASH));
    assert(cursor::components_of(a) + Seq::<Seq<u8>>::empty() =~= cursor::components_of(a));
    bytes::lemma_split_at(a, b, SLASH);
    bytes::lemma_split_at(a.push(SLASH), b, SLASH);
    cursor::lemma_nonempty_parts(bytes::split_on(a, SLASH), bytes::split_on(b, SLASH));
    cursor::lemma_nonempty_parts(bytes::split_on(a.push(SLASH), SLASH), bytes::split_on(b, SLASH));
}

/// A path is opened or linked to where it has a byte and no NUL; one to make
/// directories along does not begin with a slash either.
pub proof fn law_path_is_refused_for_its_bytes(path: Seq<u8>)
    ensures
        ({
            let whole = path.len() > 0 && forall|i: int|
                0 <= i < path.len() ==> #[trigger] path[i] != 0;
            &&& policy::open_refusal(path) is None <==> whole
            &&& link_refusal(path) is None <==> whole
            &&& mkdir_refusal(path) is None <==> whole && path[0] != 0x2f
        }),
{
    if !path.contains(0) {
        assert forall|i: int| 0 <= i < path.len() implies #[trigger] path[i] != 0 by {
            assert(path.contains(path[i]));
        }
    }
}

/// A request that is accepted is the last on the queue, with all that were
/// there before it unmoved, and the loop has one more wake to see it by.
pub proof fn law_accepted_request_is_last<T, R>(before: FsHandle<T, R>, after: FsHandle<T, R>)
    requires
        after.accepted(before),
    ensures
        !before.stop,
        after.queue@.len() == before.queue@.len() + 1,
        forall|i: int|
            0 <= i < before.queue@.len() ==> #[trigger] after.queue@[i] == before.queue@[i],
        before.pokes < u64::MAX ==> after.pokes == before.pokes + 1,
        before.pokes == u64::MAX ==> after.pokes == before.pokes,
{
    assert forall|i: int| 0 <= i < before.queue@.len() implies #[trigger] after.queue@[i]
        == before.queue@[i] by {
        assert(after.queue@.drop_last()[i] == after.queue@[i]);
    }
}

/// How a making of directories goes on by the answer to each step: made, or
/// found there, a component is entered; anything else ends it with the error
/// that came.
pub proof fn law_making_goes_on_where_the_component_is_there(
    at: MkdirPath,
    result: Result<(), Error>,
    r: MkdirStep,
)
    requires
        at.making is Some,
        at.after_make(result, r),
    ensures
        match result {
            Ok(_) => r is Enter && r->Enter_0@ == at.making->0@,
            Err(Error::Errno(e)) => if e.code() == 17 {
                (r is Enter && r->Enter_0@ == at.making->0@) || (e is Other && r
                    == MkdirStep::Fail(Error::Errno(e)))
            } else {
                r == MkdirStep::Fail(Error::Errno(e))
            },
            Err(e) => r == MkdirStep::Fail(e),
        },
{
}

/// What a refused path is told says what is wrong with it: that it is empty, in
/// the words of the call it was given to, or else that it holds a NUL, or else
/// that it is not relative.
pub proof fn law_refused_path_is_told_why(path: Seq<u8>)
    ensures
        path.len() == 0 ==> policy::open_refusal(path) == Some("uring_fs open: empty path"@),
        path.len() == 0 ==> link_refusal(path) == Some("symlinkat: empty target"@),
        path.len() == 0 ==> mkdir_refusal(path) == Some("uring_fs mkdir_path: empty path"@),
        path.contains(0) ==> policy::open_refusal(path) == Some("path contains NUL"@),
        path.contains(0) ==> link_refusal(path) == Some("path contains NUL"@),
        path.contains(0) ==> mkdir_refusal(path) == Some("path contains NUL"@),
        path.len() > 0 && !path.contains(0) && path[0] == 0x2f ==> mkdir_refusal(path) == Some(
            "uring_fs mkdir_path: path must be relative to the anchor"@,
        ),
{
}

} // verus!
