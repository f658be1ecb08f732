//! Walks that open one step after another: a chain of opens, each relative to
//! the file the step before it opened and under its own personality, and the
//! creation of every missing directory along a path. A walk says what to submit
//! next, and is handed what came of it.
use crate::bytes;
use crate::bytes::copied;
use crate::conn::{share_opt, FsConn};
use crate::errno::{Errno, Error};
use crate::file::{Anchor, File};
use crate::names;
use crate::names::{relative_defect, relative_parts, Personality, SLASH};
use crate::policy;
use crate::policy::{apply_special_file_guard, is_step_refused, RawOpenHow, SpecialFiles};
use crate::sys::{CONFINED_RESOLVE, O_DIRECTORY, O_NONBLOCK, RESOLVE_IN_ROOT};
use crate::table::{FsDone, ReapedFs};
use std::collections::VecDeque;
use std::sync::Arc;
use vstd::prelude::*;

verus! {

/// How a step of a chain is named. `D` computes a name from the directory the
/// step before it opened.
pub enum StepPath<D> {
    /// Known before the chain starts.
    Fixed(Vec<u8>),
    /// Named from the directory the previous step opened; never the first.
    Derived(D),
}

/// One step of a chain.
pub struct OpenStep<D> {
    /// What the step names, relative to the file the previous step opened, or
    /// to the chain's anchor.
    pub path: StepPath<D>,
    /// The credential the step resolves under.
    pub who: Personality,
    /// The step's own flags.
    pub how: RawOpenHow,
}

impl<D> OpenStep<D> {
    /// The step can be part of a chain: a name known beforehand is a plain
    /// relative path, and its flags neither make an inode nor scope it to a
    /// root.
    pub open spec fn admissible(&self) -> bool {
        &&& match self.path {
            StepPath::Fixed(p) => names::is_plain_relative(p@),
            StepPath::Derived(_) => true,
        }
        &&& !policy::step_refused(self.how)
    }

    fn is_admissible(&self) -> (r: bool)
        ensures
            r == self.admissible(),
    {
        match &self.path {
            StepPath::Fixed(p) => {
                if relative_defect(p.as_slice()).is_some() {
                    return false;
                }
            },
            StepPath::Derived(_) => {},
        }
        !is_step_refused(self.how)
    }
}

/// A chain can be walked: it has a first step, which derives its name from
/// nothing, and every step is admissible.
pub open spec fn walkable<D>(steps: Seq<OpenStep<D>>) -> bool {
    &&& steps.len() > 0
    &&& steps[0].path is Fixed
    &&& forall|i: int| 0 <= i < steps.len() ==> (#[trigger] steps[i]).admissible()
}

/// How a step is opened: confined, a directory unless it is the last; the
/// last as its caller asked, guarded against special files.
pub open spec fn planned_how(how: RawOpenHow, last: bool) -> RawOpenHow {
    let confined = how.resolve | CONFINED_RESOLVE;
    if !last {
        RawOpenHow { flags: how.flags | O_DIRECTORY, resolve: confined, ..how }
    } else if policy::guard_applies(how.flags, SpecialFiles::Guard) {
        RawOpenHow { flags: how.flags | O_NONBLOCK, resolve: confined, ..how }
    } else {
        RawOpenHow { resolve: confined, ..how }
    }
}

/// How a step is to be opened.
#[derive(Clone, Copy, Debug, PartialEq, Eq, Structural)]
pub struct Plan {
    pub who: Personality,
    pub how: RawOpenHow,
    pub guarded: bool,
    pub last: bool,
}

/// The plan of a step.
pub open spec fn planned<D>(step: OpenStep<D>, last: bool) -> Plan {
    Plan {
        who: step.who,
        how: planned_how(step.how, last),
        guarded: last && policy::guard_applies(step.how.flags, SpecialFiles::Guard),
        last,
    }
}

/// What a chain does next.
pub enum ChainStep<T, D> {
    /// Work the step's name out from the directory reached, and hand it to
    /// [`Chain::named`].
    Derive(D, Anchor<T>),
    /// Open that name in the directory reached, with
    /// [`FsConn::open_component`], and hand the outcome to [`Chain::opened`].
    Open { who: Personality, at: Anchor<T>, name: Vec<u8>, how: RawOpenHow, guarded: bool },
    /// Find out whether the file is a directory, and tell [`Chain::checked`].
    Check(File<T>),
    /// The chain is over, with this outcome.
    Answer(FsDone<T>),
}

/// A chain under way. `S` is where a refused submission reports.
pub struct Chain<T, D, S> {
    /// The steps still to be taken.
    pub steps: VecDeque<OpenStep<D>>,
    /// The directory reached.
    pub cur: Anchor<T>,
    /// How the step under way is opened.
    pub now: Option<Plan>,
    /// The reason slot that every step's submission shares.
    pub sink: Option<Arc<S>>,
}

/// The open of a step that is named.
pub open spec fn open_step<T, D>(plan: Plan, at: Anchor<T>, name: Vec<u8>) -> ChainStep<T, D> {
    ChainStep::Open { who: plan.who, at, name, how: plan.how, guarded: plan.guarded }
}

impl<T, D, S> Chain<T, D, S> {
    /// Every step left can be part of a chain.
    pub open spec fn wf(&self) -> bool {
        forall|i: int| 0 <= i < self.steps@.len() ==> (#[trigger] self.steps@[i]).admissible()
    }

    /// `after` is `before` with its next step under way, at the directory
    /// `cur`. With none left there is nothing to open.
    pub open spec fn takes_next(
        after: Self,
        before: Self,
        cur: Anchor<T>,
        r: ChainStep<T, D>,
    ) -> bool {
        &&& after.cur == cur
        &&& after.sink == before.sink
        &&& if before.steps@.len() == 0 {
            &&& r is Answer
            &&& r->Answer_0.is_refusal(Errno::EINVAL)
            &&& after.steps@ == before.steps@
            &&& after.now is None
        } else {
            let step = before.steps@[0];
            let plan = planned(step, before.steps@.len() == 1);
            &&& after.steps@ == before.steps@.drop_first()
            &&& after.now == Some(plan)
            &&& match step.path {
                StepPath::Fixed(name) => r == open_step::<T, D>(plan, cur, name),
                StepPath::Derived(d) => r == ChainStep::<T, D>::Derive(d, cur),
            }
        }
    }

    /// A chain of `steps` from `anchor`, or `None` where it cannot be walked:
    /// judged on shape, before anything is submitted, so that a bad argument
    /// leaves nothing behind.
    pub fn begin(anchor: &Anchor<T>, steps: Vec<OpenStep<D>>, sink: Option<Arc<S>>) -> (r: Option<
        Chain<T, D, S>,
    >)
        ensures
            match r {
                Some(chain) => {
                    &&& walkable(steps@)
                    &&& chain.wf()
                    &&& chain.steps@ == steps@
                    &&& chain.cur == *anchor
                    &&& chain.now is None
                    &&& chain.sink == sink
                },
                None => !walkable(steps@),
            },
    {
        if steps.len() == 0 {
            return None;
        }
        match steps[0].path {
            StepPath::Derived(_) => {
                return None;
            },
            StepPath::Fixed(_) => {},
        }
        let mut i: usize = 0;
        while i < steps.len()
            invariant
                0 <= i <= steps@.len(),
                forall|j: int| 0 <= j < i ==> (#[trigger] steps@[j]).admissible(),
            decreases steps@.len() - i,
        {
            if !steps[i].is_admissible() {
                return None;
            }
            i = i + 1;
        }
        let ghost all = steps@;
        let mut rest = steps;
        let mut queue: VecDeque<OpenStep<D>> = VecDeque::new();
        assert(rest@ + queue@ =~= all);
        while rest.len() > 0
            invariant
                rest@ + queue@ == all,
            decreases rest@.len(),
        {
            let ghost before = rest@ + queue@;
            match rest.pop() {
                Some(step) => {
                    queue.push_front(step);
                },
                None => {},
            }
            assert(rest@ + queue@ =~= before);
        }
        assert(queue@ =~= all);
        Some(Chain { steps: queue, cur: anchor.another(), now: None, sink })
    }

    /// Take the next step.
    pub fn next_step(&mut self) -> (r: ChainStep<T, D>)
        requires
            old(self).wf(),
        ensures
            final(self).wf(),
            Self::takes_next(*final(self), *old(self), old(self).cur, r),
    {
        let ghost steps = self.steps@;
        let step = match self.steps.pop_front() {
            Some(step) => step,
            None => {
                self.now = None;
                return ChainStep::Answer(FsDone::refused(Errno::EINVAL));
            },
        };
        assert(self.steps@ =~= steps.drop_first());
        assert forall|i: int| 0 <= i < self.steps@.len() implies (
        #[trigger] self.steps@[i]).admissible() by {
            assert(self.steps@[i] == steps[i + 1]);
        }
        let last = self.steps.len() == 0;
        let mut raw = step.how;
        raw.resolve = raw.resolve | CONFINED_RESOLVE;
        let guarded = if last {
            apply_special_file_guard(&mut raw, SpecialFiles::Guard)
        } else {
            raw.flags = raw.flags | O_DIRECTORY;
            false
        };
        self.now = Some(Plan { who: step.who, how: raw, guarded, last });
        match step.path {
            StepPath::Fixed(name) => ChainStep::Open {
                who: step.who,
                at: self.cur.another(),
                name,
                how: raw,
                guarded,
            },
            StepPath::Derived(d) => ChainStep::Derive(d, self.cur.another()),
        }
    }

    /// The name a derived step came up with, held to the rule every fixed name
    /// is held to. An errno of the caller's own is passed on unmarked.
    pub fn named(&self, name: Result<Vec<u8>, Error>) -> (r: ChainStep<T, D>)
        requires
            self.now is Some,
        ensures
            match name {
                Ok(n) => if names::is_plain_relative(n@) {
                    r == open_step::<T, D>(self.now->0, self.cur, n)
                } else {
                    r is Answer && r->Answer_0.is_refusal(Errno::EINVAL)
                },
                Err(Error::Errno(e)) => r is Answer && r->Answer_0.is_failure(e),
                Err(_) => r is Answer && r->Answer_0.is_refusal(Errno::EINVAL),
            },
    {
        match (name, self.now) {
            (Ok(name), Some(plan)) => {
                if relative_defect(name.as_slice()).is_none() {
                    ChainStep::Open {
                        who: plan.who,
                        at: self.cur.another(),
                        name,
                        how: plan.how,
                        guarded: plan.guarded,
                    }
                } else {
                    ChainStep::Answer(FsDone::refused(Errno::EINVAL))
                }
            },
            (Err(Error::Errno(e)), _) => ChainStep::Answer(FsDone::failed(e)),
            _ => ChainStep::Answer(FsDone::refused(Errno::EINVAL)),
        }
    }

    /// What an open came to: one that made no file ends the chain, as does the
    /// last; any other is descended into, if it is a directory.
    pub fn opened(&self, done: FsDone<T>) -> (r: ChainStep<T, D>)
        requires
            self.now is Some,
        ensures
            r == (if done.file is None || self.now->0.last {
                ChainStep::<T, D>::Answer(done)
            } else {
                ChainStep::<T, D>::Check(done.file->0)
            }),
    {
        let last = match self.now {
            Some(plan) => plan.last,
            None => true,
        };
        if last {
            return ChainStep::Answer(done);
        }
        match done.file() {
            None => ChainStep::Answer(done),
            Some(f) => ChainStep::Check(f),
        }
    }

    /// Whether the file just opened is a directory: then it is the one reached,
    /// and the next step is taken there; otherwise the chain is answered with a
    /// marked `EBADF`.
    pub fn checked(&mut self, f: &File<T>, is_dir: bool) -> (r: ChainStep<T, D>)
        requires
            old(self).wf(),
        ensures
            final(self).wf(),
            if is_dir {
                Self::takes_next(*final(self), *old(self), (Anchor { raw: f.raw, fd: f.fd }), r)
            } else {
                r is Answer && r->Answer_0.is_refusal(Errno::EBADF) && *final(self) == *old(self)
            },
    {
        if !is_dir {
            return ChainStep::Answer(FsDone::refused(Errno::EBADF));
        }
        self.cur = Anchor::from_shared(f);
        self.next_step()
    }
}

/// Every step of a chain that can be walked is opened confined to the anchor
/// it starts from and makes no inode; every step but the last is opened as a
/// directory.
pub proof fn law_chain_is_confined<D>(steps: Seq<OpenStep<D>>, i: int)
    requires
        walkable(steps),
        0 <= i < steps.len(),
    ensures
        ({
            let p = planned(steps[i], i == steps.len() - 1);
            &&& p.who == steps[i].who
            &&& p.how.resolve & CONFINED_RESOLVE == CONFINED_RESOLVE
            &&& p.how.resolve & RESOLVE_IN_ROOT == 0
            &&& !policy::creates(p.how.flags)
            &&& !p.last ==> p.how.flags & O_DIRECTORY != 0
        }),
{
    let how = steps[i].how;
    assert(steps[i].admissible());
    let p = planned(steps[i], i == steps.len() - 1);
    let f = how.flags;
    let pf = p.how.flags;
    let r = how.resolve;
    let pr = p.how.resolve;
    let dir = !p.last;
    assert(pr & 0x0d == 0x0d && pr & 0x10 == 0) by (bit_vector)
        requires
            pr == r | 0x0d,
            r & 0x10 == 0,
    ;
    assert(pf & (0x40u64 | 0x40_0000u64) == 0 && (dir ==> pf & 0x1_0000 != 0)) by (bit_vector)
        requires
            f & (0x40u64 | 0x40_0000u64) == 0,
            dir ==> pf == f | 0x1_0000,
            !dir ==> (pf == f || pf == f | 0x800),
    ;
}

/// What the creation of a path does next.
pub enum MkdirNext<T> {
    /// Make that directory in the one reached, with [`FsConn::mkdirat`], and
    /// hand the outcome to [`MkdirWalk::made`].
    Make { at: Anchor<T>, name: Vec<u8> },
    /// Open it with [`FsConn::open_component`], and hand the outcome to
    /// [`MkdirWalk::entered`].
    Enter { at: Anchor<T>, name: Vec<u8> },
    /// Find out whether the file is a directory, and tell
    /// [`MkdirWalk::checked`].
    Check(File<T>),
    /// The walk is over, with this outcome.
    Answer(FsDone<T>),
}

/// The creation of every missing directory along a path. `S` is where a
/// refused submission reports.
pub struct MkdirWalk<T, S> {
    /// The components left to make.
    pub parts: VecDeque<Vec<u8>>,
    pub who: Personality,
    pub mode: u32,
    /// How each directory is opened.
    pub how: RawOpenHow,
    /// The directory reached.
    pub cur: Anchor<T>,
    /// The component under way.
    pub making: Option<Vec<u8>>,
    /// The reason slot that every step's submission shares.
    pub sink: Option<Arc<S>>,
}

/// How every open of the walk is made: a directory, confined.
pub open spec fn walk_how(how: RawOpenHow) -> RawOpenHow {
    RawOpenHow {
        flags: how.flags | O_DIRECTORY,
        resolve: how.resolve | CONFINED_RESOLVE,
        ..how
    }
}

/// A walk can be made: its path names its components plainly, and its flags
/// neither make an inode nor scope it to a root.
pub open spec fn mkdir_admissible(path: Seq<u8>, how: RawOpenHow) -> bool {
    names::is_plain_relative(path) && !policy::step_refused(how)
}

impl<T, S> MkdirWalk<T, S> {
    pub open spec fn spec_parts(&self) -> Seq<Seq<u8>> {
        bytes::views(self.parts@)
    }

    /// Every component left is a single plain name.
    pub open spec fn wf(&self) -> bool {
        forall|i: int| 0 <= i < self.parts@.len() ==> names::is_leaf((#[trigger] self.parts@[i])@)
    }

    /// Nothing but what is left, where the walk is and what is under way
    /// differs.
    pub open spec fn same_walk(&self, other: Self) -> bool {
        &&& self.who == other.who
        &&& self.mode == other.mode
        &&& self.how == other.how
        &&& self.sink == other.sink
    }

    /// `after` is `before` gone on to its next component, in the directory
    /// `cur`. With none left there is nothing to make.
    pub open spec fn goes_on(
        after: Self,
        before: Self,
        cur: Anchor<T>,
        r: MkdirNext<T>,
    ) -> bool {
        &&& after.same_walk(before)
        &&& after.cur == cur
        &&& if before.parts@.len() == 0 {
            &&& r is Answer
            &&& r->Answer_0.is_refusal(Errno::EINVAL)
            &&& after.parts@ == before.parts@
            &&& after.making is None
        } else {
            let part = before.parts@[0];
            &&& after.parts@ == before.parts@.drop_first()
            &&& after.making == Some(part)
            &&& r is Make
            &&& r->Make_at == cur
            &&& r->Make_name@ == part@
            &&& names::is_leaf(part@)
        }
    }

    /// A walk along `path` from `anchor`, or `None` where it cannot be made:
    /// judged on shape, so that a bad argument leaves no partial tree. The
    /// whole path is tried first, opened as [`MkdirWalk::how`] says, and what
    /// came of that is for [`MkdirWalk::probed`].
    pub fn begin(
        who: Personality,
        anchor: &Anchor<T>,
        path: &[u8],
        mode: u32,
        how: RawOpenHow,
        sink: Option<Arc<S>>,
    ) -> (r: Option<MkdirWalk<T, S>>)
        ensures
            match r {
                Some(w) => {
                    &&& mkdir_admissible(path@, how)
                    &&& w.wf()
                    &&& w.spec_parts() == bytes::split_on(path@, SLASH)
                    &&& w.who == who
                    &&& w.mode == mode
                    &&& w.how == walk_how(how)
                    &&& w.cur == *anchor
                    &&& w.making is None
                    &&& w.sink == sink
                },
                None => !mkdir_admissible(path@, how),
            },
    {
        let (parts, defect) = relative_parts(path);
        if defect.is_some() {
            return None;
        }
        if is_step_refused(how) {
            return None;
        }
        let ghost all = parts@;
        let mut rest = parts;
        let mut queue: VecDeque<Vec<u8>> = VecDeque::new();
        assert(rest@ + queue@ =~= all);
        while rest.len() > 0
            invariant
                rest@ + queue@ == all,
            decreases rest@.len(),
        {
            let ghost before = rest@ + queue@;
            match rest.pop() {
                Some(part) => {
                    queue.push_front(part);
                },
                None => {},
            }
            assert(rest@ + queue@ =~= before);
        }
        assert(queue@ =~= all);
        let w = MkdirWalk {
            parts: queue,
            who,
            mode,
            how: RawOpenHow {
                flags: how.flags | O_DIRECTORY,
                mode: how.mode,
                resolve: how.resolve | CONFINED_RESOLVE,
            },
            cur: anchor.another(),
            making: None,
            sink,
        };
        proof {
            assert(w.spec_parts() =~= bytes::views(all));
            assert forall|i: int| 0 <= i < w.parts@.len() implies names::is_leaf(
                (#[trigger] w.parts@[i])@,
            ) by {
                assert(w.spec_parts()[i] == w.parts@[i]@);
            }
        }
        Some(w)
    }

    fn go_on(&mut self) -> (r: MkdirNext<T>)
        requires
            old(self).wf(),
        ensures
            final(self).wf(),
            Self::goes_on(*final(self), *old(self), old(self).cur, r),
    {
        let ghost parts = self.parts@;
        let part = match self.parts.pop_front() {
            Some(part) => part,
            None => {
                self.making = None;
                return MkdirNext::Answer(FsDone::refused(Errno::EINVAL));
            },
        };
        assert(self.parts@ =~= parts.drop_first());
        assert forall|i: int| 0 <= i < self.parts@.len() implies names::is_leaf(
            (#[trigger] self.parts@[i])@,
        ) by {
            assert(self.parts@[i] == parts[i + 1]);
        }
        let name = copied(part.as_slice());
        self.making = Some(part);
        MkdirNext::Make { at: self.cur.another(), name }
    }

    /// What opening the whole path came to: a file is the answer; where there
    /// is none, the components are made one by one.
    pub fn probed(&mut self, done: FsDone<T>) -> (r: MkdirNext<T>)
        requires
            old(self).wf(),
        ensures
            final(self).wf(),
            if done.file is Some {
                r == MkdirNext::Answer(done) && *final(self) == *old(self)
            } else {
                Self::goes_on(*final(self), *old(self), old(self).cur, r)
            },
    {
        if done.file.is_some() {
            return MkdirNext::Answer(done);
        }
        self.go_on()
    }

    /// What making a component came to: the walk goes on where it was made, or
    /// was there already, which is also what losing a race with another creator
    /// gives.
    pub fn made(&self, done: FsDone<T>) -> (r: MkdirNext<T>)
        requires
            self.making is Some,
        ensures
            if done.result is Ok || done.result == Err::<i32, Errno>(Errno::EEXIST) {
                r is Enter && r->Enter_at == self.cur && r->Enter_name@ == self.making->0@
            } else {
                r == MkdirNext::Answer(done)
            },
    {
        let there = match done.result {
            Ok(_) => true,
            Err(Errno::EEXIST) => true,
            Err(_) => false,
        };
        match &self.making {
            Some(name) if there => MkdirNext::Enter {
                at: self.cur.another(),
                name: copied(name.as_slice()),
            },
            _ => MkdirNext::Answer(done),
        }
    }

    /// What opening a component came to: one that made no file ends the walk,
    /// as does the last; any other is descended into, if it is a directory.
    pub fn entered(&self, done: FsDone<T>) -> (r: MkdirNext<T>)
        ensures
            r == (if done.file is None || self.parts@.len() == 0 {
                MkdirNext::Answer(done)
            } else {
                MkdirNext::Check(done.file->0)
            }),
    {
        if self.parts.len() == 0 {
            return MkdirNext::Answer(done);
        }
        match done.file() {
            None => MkdirNext::Answer(done),
            Some(f) => MkdirNext::Check(f),
        }
    }

    /// Whether the file just opened is a directory: then it is the one reached,
    /// and the walk goes on there; otherwise it is answered with a marked
    /// `EBADF`.
    pub fn checked(&mut self, f: &File<T>, is_dir: bool) -> (r: MkdirNext<T>)
        requires
            old(self).wf(),
        ensures
            final(self).wf(),
            if is_dir {
                Self::goes_on(*final(self), *old(self), (Anchor { raw: f.raw, fd: f.fd }), r)
            } else {
                r is Answer && r->Answer_0.is_refusal(Errno::EBADF) && *final(self) == *old(self)
            },
    {
        if !is_dir {
            return MkdirNext::Answer(FsDone::refused(Errno::EBADF));
        }
        self.cur = Anchor::from_shared(f);
        self.go_on()
    }
}

/// Every component a walk makes is a single plain name, and every open it
/// makes is a confined directory open that makes no inode.
pub proof fn law_mkdir_walk_is_confined(path: Seq<u8>, how: RawOpenHow, i: int)
    requires
        mkdir_admissible(path, how),
        0 <= i < bytes::split_on(path, SLASH).len(),
    ensures
        names::is_leaf(bytes::split_on(path, SLASH)[i]),
        walk_how(how).flags & O_DIRECTORY != 0,
        !policy::creates(walk_how(how).flags),
        walk_how(how).resolve & CONFINED_RESOLVE == CONFINED_RESOLVE,
        walk_how(how).resolve & RESOLVE_IN_ROOT == 0,
{
    let f = how.flags;
    let r = how.resolve;
    assert((f | 0x1_0000) & 0x1_0000 != 0 && (f & (0x40u64 | 0x40_0000u64) == 0 ==> (f | 0x1_0000)
        & (0x40u64 | 0x40_0000u64) == 0) && (r | 0x0d) & 0x0d == 0x0d && (r & 0x10 == 0 ==> (r
        | 0x0d) & 0x10 == 0)) by (bit_vector);
}

impl<S> FsConn<S> {
    /// Begin a chain of opens from `anchor`. One that cannot be walked is
    /// answered at once with a marked `EINVAL`.
    pub fn open_chain<T, R, C, D>(&self, anchor: &Anchor<T>, steps: Vec<OpenStep<D>>, cb: C) -> (r:
        Result<(Chain<T, D, S>, C), ReapedFs<T, R, C, S>>)
        ensures
            match r {
                Ok((chain, back)) => {
                    &&& walkable(steps@)
                    &&& chain.wf()
                    &&& chain.steps@ == steps@
                    &&& chain.cur == *anchor
                    &&& chain.now is None
                    &&& chain.sink == self.fail_sink
                    &&& back == cb
                },
                Err(routed) => !walkable(steps@) && crate::conn::answered(
                    routed,
                    cb,
                    Errno::EINVAL,
                    self.owner,
                ),
            },
    {
        match Chain::begin(anchor, steps, share_opt(&self.fail_sink)) {
            Some(chain) => Ok((chain, cb)),
            None => Err(ReapedFs::Embedded(cb, FsDone::refused(Errno::EINVAL), self.owner)),
        }
    }

    /// Begin creating every missing directory along `path`. One that cannot be
    /// made is answered at once with a marked `EINVAL`.
    pub fn mkdir_path<T, R, C>(
        &self,
        who: Personality,
        anchor: &Anchor<T>,
        path: &[u8],
        mode: u32,
        how: RawOpenHow,
        cb: C,
    ) -> (r: Result<(MkdirWalk<T, S>, C), ReapedFs<T, R, C, S>>)
        ensures
            match r {
                Ok((w, back)) => {
                    &&& mkdir_admissible(path@, how)
                    &&& w.wf()
                    &&& w.spec_parts() == bytes::split_on(path@, SLASH)
                    &&& w.who == who
                    &&& w.mode == mode
                    &&& w.how == walk_how(how)
                    &&& w.cur == *anchor
                    &&& w.making is None
                    &&& w.sink == self.fail_sink
                    &&& back == cb
                },
                Err(routed) => !mkdir_admissible(path@, how) && crate::conn::answered(
                    routed,
                    cb,
                    Errno::EINVAL,
                    self.owner,
                ),
            },
    {
        match MkdirWalk::begin(who, anchor, path, mode, how, share_opt(&self.fail_sink)) {
            Some(w) => Ok((w, cb)),
            None => Err(ReapedFs::Embedded(cb, FsDone::refused(Errno::EINVAL), self.owner)),
        }
    }
}

/// A chain is walked where its steps allow it, by what they say themselves:
/// the first has a name, every name known beforehand is plain, and none makes
/// an inode or is scoped to a root.
pub proof fn law_walkable_by_its_steps<D>(steps: Seq<OpenStep<D>>)
    ensures
        walkable(steps) <==> {
            &&& steps.len() > 0
            &&& steps[0].path is Fixed
            &&& forall|i: int|
                0 <= i < steps.len() ==> {
                    let step = #[trigger] steps[i];
                    &&& step.path is Fixed ==> names::is_plain_relative(step.path->Fixed_0@)
                    &&& step.how.flags & 0x40 == 0
                    &&& step.how.flags & 0x40_0000 == 0
                    &&& step.how.resolve & 0x10 == 0
                }
        },
{
    assert forall|i: int| 0 <= i < steps.len() implies (#[trigger] steps[i]).admissible() == {
        let step = steps[i];
        &&& step.path is Fixed ==> names::is_plain_relative(step.path->Fixed_0@)
        &&& step.how.flags & 0x40 == 0
        &&& step.how.flags & 0x40_0000 == 0
        &&& step.how.resolve & 0x10 == 0
    } by {
        let h = steps[i].how;
        policy::law_rules_in_the_kernels_numbers(h.flags, h.resolve, h.mode, 0);
    }
    if walkable(steps) {
        assert forall|i: int| 0 <= i < steps.len() implies {
            let step = #[trigger] steps[i];
            &&& step.path is Fixed ==> names::is_plain_relative(step.path->Fixed_0@)
            &&& step.how.flags & 0x40 == 0
            &&& step.how.flags & 0x40_0000 == 0
            &&& step.how.resolve & 0x10 == 0
        } by {
            assert(steps[i].admissible());
        }
    }
}

/// A step is opened as itself: under its own identity and mode, with its own
/// flags and resolution, to which the whole confinement is added; before the
/// last, that it is a directory; at the last, the guard where it applies.
pub proof fn law_step_is_opened_as_itself<D>(step: OpenStep<D>, last: bool)
    ensures
        ({
            let (p, f) = (planned(step, last), step.how.flags);
            let guard = last && f & 0x800 == 0 && f & 0x20_0000 == 0 && f & 0x1_0000 == 0;
            &&& p.who == step.who
            &&& p.last == last
            &&& p.guarded == guard
            &&& p.how.mode == step.how.mode
            &&& p.how.resolve == step.how.resolve | 0x0d
            &&& !last ==> p.how.flags == f | 0x1_0000
            &&& last && guard ==> p.how.flags == f | 0x800
            &&& last && !guard ==> p.how.flags == f
        }),
{
    let h = step.how;
    policy::law_rules_in_the_kernels_numbers(h.flags, h.resolve, h.mode, 0);
}

/// A chain that went from step to step: it was begun with `steps` at `anchor`,
/// and what each step opened, a directory, was handed in before the next.
pub open spec fn chain_run<T, D, S>(
    anchor: Anchor<T>,
    steps: Seq<OpenStep<D>>,
    states: Seq<Chain<T, D, S>>,
    dirs: Seq<File<T>>,
    rs: Seq<ChainStep<T, D>>,
) -> bool {
    &&& states.len() == rs.len() + 1
    &&& rs.len() <= steps.len()
    &&& dirs.len() + 1 >= rs.len()
    &&& states[0].steps@ == steps
    &&& states[0].cur == anchor
    &&& forall|i: int|
        0 <= i < rs.len() ==> Chain::takes_next(
            states[i + 1],
            states[i],
            if i == 0 {
                anchor
            } else {
                Anchor { raw: dirs[i - 1].raw, fd: dirs[i - 1].fd }
            },
            #[trigger] rs[i],
        )
}

/// Each step of a chain is taken in the directory that the step before it
/// opened, the first at the chain's anchor, under its own name and identity,
/// in the order the steps were given; all but the last are opened as
/// directories, and the last alone as its caller asked.
pub proof fn law_chain_takes_each_step_where_the_last_led<T, D, S>(
    anchor: Anchor<T>,
    steps: Seq<OpenStep<D>>,
    states: Seq<Chain<T, D, S>>,
    dirs: Seq<File<T>>,
    rs: Seq<ChainStep<T, D>>,
    k: int,
)
    requires
        chain_run(anchor, steps, states, dirs, rs),
        0 <= k < rs.len(),
    ensures
        states[k].steps@ == steps.skip(k),
        ({
            let place = if k == 0 {
                anchor.raw
            } else {
                dirs[k - 1].raw
            };
            match (steps[k].path, rs[k]) {
                (StepPath::Fixed(given), ChainStep::Open { who, at, name, .. }) => {
                    &&& name == given
                    &&& who == steps[k].who
                    &&& at.raw == place
                },
                (StepPath::Derived(d), ChainStep::Derive(by, at)) => by == d && at.raw == place,
                _ => false,
            }
        }),
        ({
            let (last, f) = (k == steps.len() - 1, steps[k].how.flags);
            let guard = last && f & 0x800 == 0 && f & 0x20_0000 == 0 && f & 0x1_0000 == 0;
            let now = states[k + 1].now;
            &&& now is Some
            &&& now->0.last == last
            &&& now->0.who == steps[k].who
            &&& now->0.guarded == guard
            &&& now->0.how == (RawOpenHow {
                flags: if !last {
                    f | 0x1_0000
                } else if guard {
                    f | 0x800
                } else {
                    f
                },
                mode: steps[k].how.mode,
                resolve: steps[k].how.resolve | 0x0d,
            })
            &&& rs[k] is Open ==> rs[k]->how == now->0.how && rs[k]->guarded == guard
        }),
    decreases k,
{
    if k > 0 {
        law_chain_takes_each_step_where_the_last_led(anchor, steps, states, dirs, rs, k - 1);
        assert(states[k - 1].steps@.drop_first() =~= steps.skip(k));
        assert(Chain::takes_next(
            states[k],
            states[k - 1],
            if k - 1 == 0 {
                anchor
            } else {
                Anchor { raw: dirs[k - 2].raw, fd: dirs[k - 2].fd }
            },
            rs[k - 1],
        ));
    } else {
        assert(steps.skip(0) =~= steps);
    }
    assert(Chain::takes_next(
        states[k + 1],
        states[k],
        if k == 0 {
            anchor
        } else {
            Anchor { raw: dirs[k - 1].raw, fd: dirs[k - 1].fd }
        },
        rs[k],
    ));
    assert(states[k].steps@[0] == steps[k]);
    law_step_is_opened_as_itself(steps[k], k == steps.len() - 1);
}

/// A creation that went from component to component: begun with `parts` at
/// `anchor`, each one made, entered and found a directory before the next.
pub open spec fn mkdir_run<T, S>(
    anchor: Anchor<T>,
    parts: Seq<Vec<u8>>,
    states: Seq<MkdirWalk<T, S>>,
    dirs: Seq<File<T>>,
    rs: Seq<MkdirNext<T>>,
) -> bool {
    &&& states.len() == rs.len() + 1
    &&& rs.len() <= parts.len()
    &&& dirs.len() + 1 >= rs.len()
    &&& states[0].parts@ == parts
    &&& states[0].cur == anchor
    &&& forall|i: int|
        0 <= i < rs.len() ==> MkdirWalk::goes_on(
            states[i + 1],
            states[i],
            if i == 0 {
                anchor
            } else {
                Anchor { raw: dirs[i - 1].raw, fd: dirs[i - 1].fd }
            },
            #[trigger] rs[i],
        )
}

/// Each component is made in the directory that the one before it is, the
/// first in the anchor, in the order of the path, under one identity and mode.
pub proof fn law_mkdir_walk_makes_each_below_the_last<T, S>(
    anchor: Anchor<T>,
    parts: Seq<Vec<u8>>,
    states: Seq<MkdirWalk<T, S>>,
    dirs: Seq<File<T>>,
    rs: Seq<MkdirNext<T>>,
    k: int,
)
    requires
        mkdir_run(anchor, parts, states, dirs, rs),
        0 <= k < rs.len(),
    ensures
        states[k].parts@ == parts.skip(k),
        states[k].who == states[0].who,
        states[k].mode == states[0].mode,
        states[k].how == states[0].how,
        rs[k] is Make,
        rs[k]->Make_name@ == parts[k]@,
        rs[k]->Make_at.raw == (if k == 0 {
            anchor.raw
        } else {
            dirs[k - 1].raw
        }),
        states[k + 1].making == Some(parts[k]),
        states[k + 1].cur == rs[k]->Make_at,
    decreases k,
{
    if k > 0 {
        law_mkdir_walk_makes_each_below_the_last(anchor, parts, states, dirs, rs, k - 1);
        assert(states[k - 1].parts@.drop_first() =~= parts.skip(k));
        assert(MkdirWalk::goes_on(
            states[k],
            states[k - 1],
            if k - 1 == 0 {
                anchor
            } else {
                Anchor { raw: dirs[k - 2].raw, fd: dirs[k - 2].fd }
            },
            rs[k - 1],
        ));
    } else {
        assert(parts.skip(0) =~= parts);
    }
    assert(MkdirWalk::goes_on(
        states[k + 1],
        states[k],
        if k == 0 {
            anchor
        } else {
            Anchor { raw: dirs[k - 1].raw, fd: dirs[k - 1].fd }
        },
        rs[k],
    ));
    assert(states[k].parts@[0] == parts[k]);
}

/// Every open of a creation is as its caller asked, with the directory flag and
/// the whole confinement added and nothing taken away.
pub proof fn law_mkdir_opens_add_only_confinement(how: RawOpenHow)
    ensures
        walk_how(how).flags == how.flags | 0x1_0000,
        walk_how(how).mode == how.mode,
        walk_how(how).resolve == how.resolve | 0x0d,
{
}

/// A creation is begun where its path names its components plainly and its
/// flags neither make an inode nor scope it to a root, and nowhere else.
pub proof fn law_creation_is_begun_by_its_path_and_flags(path: Seq<u8>, how: RawOpenHow)
    ensures
        mkdir_admissible(path, how) <==> {
            &&& names::is_plain_relative(path)
            &&& how.flags & 0x40 == 0
            &&& how.flags & 0x40_0000 == 0
            &&& how.resolve & 0x10 == 0
        },
{
    policy::law_rules_in_the_kernels_numbers(how.flags, how.resolve, how.mode, 0);
}

} // verus!
