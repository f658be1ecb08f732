//! Blocking jobs and their way back to the loop: a worker records its outcome
//! and then wakes the loop; the loop drains what was recorded and fires each
//! job's continuation once.
use crate::errno::{Errno, Error};
use crate::table::Owner;
use std::collections::{HashMap, VecDeque};
use vstd::prelude::*;

verus! {

broadcast use vstd::std_specs::hash::group_hash_axioms;

/// Finished jobs on their way to the loop, and the wake that tells it of
/// them. `A` is a job's outcome.
pub struct CompletionSink<A> {
    pub queue: VecDeque<(u64, A)>,
    /// Wakes that the loop has not consumed.
    pub pokes: u64,
    /// Workers that have recorded an outcome and not yet woken the loop.
    pub recording: Ghost<nat>,
    /// The loop is waiting for a wake, as opposed to having one in hand.
    pub parked: bool,
}

impl<A> CompletionSink<A> {
    /// A loop that waits has no outcome it was not, or will not be, woken
    /// for.
    pub open spec fn wf(&self) -> bool {
        self.parked && self.queue@.len() > 0 ==> self.pokes > 0 || self.recording@ > 0
    }

    /// Nothing finished, the loop waiting.
    pub fn new() -> (r: CompletionSink<A>)
        ensures
            r.wf(),
            r.queue@ == Seq::<(u64, A)>::empty(),
            r.pokes == 0,
            r.recording@ == 0,
            r.parked,
    {
        CompletionSink { queue: VecDeque::new(), pokes: 0, recording: Ghost(0), parked: true }
    }

    /// A worker records an outcome.
    pub fn record(&mut self, token: u64, outcome: A)
        requires
            old(self).wf(),
        ensures
            final(self).wf(),
            final(self).queue@ == old(self).queue@.push((token, outcome)),
            final(self).pokes == old(self).pokes,
            final(self).parked == old(self).parked,
            final(self).recording@ == old(self).recording@ + 1,
    {
        self.queue.push_back((token, outcome));
        self.recording = Ghost((self.recording@ + 1) as nat);
    }

    /// A worker that recorded an outcome wakes the loop. Wakes add up, so none
    /// is lost to another.
    pub fn poke(&mut self)
        requires
            old(self).wf(),
            old(self).recording@ > 0,
        ensures
            final(self).wf(),
            final(self).queue@ == old(self).queue@,
            final(self).pokes == (if old(self).pokes == u64::MAX {
                u64::MAX
            } else {
                (old(self).pokes + 1) as u64
            }),
            final(self).parked == old(self).parked,
            final(self).recording@ == old(self).recording@ - 1,
    {
        self.pokes = self.pokes.saturating_add(1);
        self.recording = Ghost((self.recording@ - 1) as nat);
    }

    /// The loop takes the wakes there are; whether there were any.
    pub fn wake(&mut self) -> (woken: bool)
        requires
            old(self).wf(),
        ensures
            final(self).wf(),
            woken == (old(self).pokes > 0),
            final(self).pokes == 0,
            final(self).queue@ == old(self).queue@,
            final(self).recording@ == old(self).recording@,
            final(self).parked == (old(self).parked && !woken),
    {
        if self.pokes > 0 {
            self.pokes = 0;
            self.parked = false;
            true
        } else {
            false
        }
    }

    /// The loop takes every recorded outcome and goes back to waiting.
    pub fn drain(&mut self) -> (r: VecDeque<(u64, A)>)
        ensures
            final(self).wf(),
            r@ == old(self).queue@,
            final(self).queue@ == Seq::<(u64, A)>::empty(),
            final(self).pokes == old(self).pokes,
            final(self).recording@ == old(self).recording@,
            final(self).parked,
    {
        let mut out: VecDeque<(u64, A)> = VecDeque::new();
        std::mem::swap(&mut out, &mut self.queue);
        self.parked = true;
        out
    }
}

/// The worker's epilogue: record the outcome, then wake the loop, so that a
/// loop that wakes finds it there.
pub fn finish_offload<A>(sink: &mut CompletionSink<A>, token: u64, outcome: A)
    requires
        old(sink).wf(),
    ensures
        final(sink).wf(),
        final(sink).queue@ == old(sink).queue@.push((token, outcome)),
        final(sink).pokes > 0,
        final(sink).recording@ == old(sink).recording@,
        final(sink).parked == old(sink).parked,
{
    sink.record(token, outcome);
    sink.poke();
}

/// No wake-up is lost: with no worker between recording and waking, a waiting
/// loop that has outcomes to take has a wake to take first.
pub proof fn law_no_lost_wakeup<A>(sink: CompletionSink<A>)
    requires
        sink.wf(),
        sink.parked,
        sink.recording@ == 0,
        sink.queue@.len() > 0,
    ensures
        sink.pokes > 0,
{
}

/// The loop's half of a job in flight: whom it runs for, and what continues
/// it.
pub struct OffloadEntry<D> {
    pub owner: Owner,
    pub deliver: D,
}

/// One finished job, ready to fire.
pub struct PoolDelivery<D, A> {
    pub owner: Owner,
    pub deliver: D,
    pub outcome: A,
}

/// The jobs in flight, by token.
pub struct OffloadRegistry<D> {
    pub reg: HashMap<u64, OffloadEntry<D>>,
    pub next: u64,
}

/// Whether a token is among the outcomes of `queue`.
pub open spec fn finished<A>(queue: Seq<(u64, A)>, token: u64) -> bool {
    exists|i: int| 0 <= i < queue.len() && (#[trigger] queue[i]).0 == token
}

/// What firing the outcomes of `queue` comes to: each one whose token is
/// registered, in order, and only the first of a token.
pub open spec fn fired<D, A>(
    queue: Seq<(u64, A)>,
    reg: Map<u64, OffloadEntry<D>>,
) -> Seq<PoolDelivery<D, A>>
    decreases queue.len(),
{
    if queue.len() == 0 {
        Seq::empty()
    } else {
        let rest = fired(queue.drop_last(), reg);
        let (token, outcome) = queue.last();
        if reg.contains_key(token) && !finished(queue.drop_last(), token) {
            rest.push(
                PoolDelivery { owner: reg[token].owner, deliver: reg[token].deliver, outcome },
            )
        } else {
            rest
        }
    }
}

impl<D> OffloadRegistry<D> {
    pub fn new() -> (r: OffloadRegistry<D>)
        ensures
            r.reg@ == Map::<u64, OffloadEntry<D>>::empty(),
            r.next == 0,
    {
        OffloadRegistry { reg: HashMap::new(), next: 0 }
    }

    /// Register a continuation; its token is the one that names its outcome.
    pub fn register_offload(&mut self, owner: Owner, deliver: D) -> (token: u64)
        ensures
            token == old(self).next,
            final(self).next == crate::sys::next_generation(old(self).next),
            final(self).reg@ == old(self).reg@.insert(token, OffloadEntry { owner, deliver }),
    {
        let token: u64 = self.next;
        self.next = token.wrapping_add(1);
        self.reg.insert(token, OffloadEntry { owner, deliver });
        token
    }

    /// Take every finished job with its owner and continuation. Each
    /// registration is consumed by its outcome; an outcome nobody registered
    /// for is dropped.
    pub fn take_pool_completions<A>(&mut self, sink: &mut CompletionSink<A>) -> (r: Vec<
        PoolDelivery<D, A>,
    >)
        ensures
            r@ == fired(old(sink).queue@, old(self).reg@),
            forall|t: u64| #[trigger]
                final(self).reg@.contains_key(t) == (old(self).reg@.contains_key(t) && !finished(
                    old(sink).queue@,
                    t,
                )),
            forall|t: u64| #[trigger]
                final(self).reg@.contains_key(t) ==> final(self).reg@[t] == old(self).reg@[t],
            final(self).next == old(self).next,
            final(sink).wf(),
            final(sink).queue@ == Seq::<(u64, A)>::empty(),
            final(sink).parked,
            final(sink).pokes == old(sink).pokes,
            final(sink).recording@ == old(sink).recording@,
    {
        let ghost reg0 = self.reg@;
        let mut drained = sink.drain();
        let ghost all = drained@;
        let mut out: Vec<PoolDelivery<D, A>> = Vec::new();
        let ghost mut done: int = 0;
        assert(all.subrange(0, 0) =~= Seq::<(u64, A)>::empty());
        assert(all.subrange(0, all.len() as int) =~= all);
        while drained.len() > 0
            invariant
                0 <= done <= all.len(),
                drained@ == all.subrange(done, all.len() as int),
                out@ == fired(all.subrange(0, done), reg0),
                self.next == old(self).next,
                forall|t: u64| #[trigger]
                    self.reg@.contains_key(t) == (reg0.contains_key(t) && !finished(
                        all.subrange(0, done),
                        t,
                    )),
                forall|t: u64| #[trigger] self.reg@.contains_key(t) ==> self.reg@[t] == reg0[t],
            decreases drained@.len(),
        {
            let ghost before = all.subrange(0, done);
            let ghost after = all.subrange(0, done + 1);
            match drained.pop_front() {
                Some((token, outcome)) => {
                    proof {
                        assert(after.drop_last() =~= before);
                        assert(after.last() == all[done]);
                        assert((token, outcome) == all[done]);
                        assert(drained@ =~= all.subrange(done + 1, all.len() as int));
                        assert forall|t: u64| finished(after, t) == (finished(before, t) || t
                            == token) by {
                            if finished(after, t) {
                                let i = choose|i: int|
                                    0 <= i < after.len() && (#[trigger] after[i]).0 == t;
                                if i < before.len() {
                                    assert(before[i] == after[i]);
                                }
                            }
                            if finished(before, t) {
                                let i = choose|i: int|
                                    0 <= i < before.len() && (#[trigger] before[i]).0 == t;
                                assert(after[i] == before[i]);
                            }
                            if t == token {
                                assert(after[done] == all[done]);
                            }
                        }
                    }
                    match self.reg.remove(&token) {
                        Some(e) => {
                            out.push(
                                PoolDelivery { owner: e.owner, deliver: e.deliver, outcome },
                            );
                        },
                        None => {},
                    }
                },
                None => {},
            }
            proof {
                done = done + 1;
            }
        }
        assert(all.subrange(0, done) =~= all);
        out
    }
}

/// Outcomes nobody registered for fire nothing.
proof fn lemma_unregistered_fire_nothing<D, A>(
    queue: Seq<(u64, A)>,
    reg: Map<u64, OffloadEntry<D>>,
)
    requires
        forall|i: int| 0 <= i < queue.len() ==> !reg.contains_key((#[trigger] queue[i]).0),
    ensures
        fired(queue, reg) == Seq::<PoolDelivery<D, A>>::empty(),
    decreases queue.len(),
{
    if queue.len() > 0 {
        let rest = queue.drop_last();
        assert forall|i: int| 0 <= i < rest.len() implies !reg.contains_key(
            (#[trigger] rest[i]).0,
        ) by {
            assert(rest[i] == queue[i]);
        }
        lemma_unregistered_fire_nothing(rest, reg);
        assert(!reg.contains_key(queue[queue.len() - 1].0));
    }
}

/// An outcome is delivered once: what was drained, drained again against the
/// registrations that were left, fires nothing.
pub proof fn law_outcome_is_delivered_once<D, A>(
    queue: Seq<(u64, A)>,
    left: Map<u64, OffloadEntry<D>>,
)
    requires
        forall|t: u64| #[trigger] left.contains_key(t) ==> !finished(queue, t),
    ensures
        fired(queue, left) == Seq::<PoolDelivery<D, A>>::empty(),
{
    assert forall|i: int| 0 <= i < queue.len() implies !left.contains_key(
        (#[trigger] queue[i]).0,
    ) by {
        assert(finished(queue, queue[i].0));
    }
    lemma_unregistered_fire_nothing(queue, left);
}

/// No outcome is lost: where every outcome's token is registered and no two
/// share one, each is delivered, in order.
pub proof fn law_every_outcome_is_delivered<D, A>(
    queue: Seq<(u64, A)>,
    reg: Map<u64, OffloadEntry<D>>,
)
    requires
        forall|i: int| 0 <= i < queue.len() ==> reg.contains_key((#[trigger] queue[i]).0),
        forall|i: int, j: int|
            0 <= i < j < queue.len() ==> (#[trigger] queue[i]).0 != (#[trigger] queue[j]).0,
    ensures
        fired(queue, reg).len() == queue.len(),
        forall|i: int|
            0 <= i < queue.len() ==> (#[trigger] fired(queue, reg)[i]).outcome == queue[i].1
                && fired(queue, reg)[i].deliver == reg[queue[i].0].deliver && fired(
                queue,
                reg,
            )[i].owner == reg[queue[i].0].owner,
    decreases queue.len(),
{
    if queue.len() > 0 {
        let rest = queue.drop_last();
        assert forall|i: int| 0 <= i < rest.len() implies reg.contains_key(
            (#[trigger] rest[i]).0,
        ) by {
            assert(rest[i] == queue[i]);
        }
        assert forall|i: int, j: int| 0 <= i < j < rest.len() implies (#[trigger] rest[i]).0 != (
        #[trigger] rest[j]).0 by {
            assert(rest[i] == queue[i] && rest[j] == queue[j]);
        }
        law_every_outcome_is_delivered(rest, reg);
        let n = queue.len() - 1;
        assert(!finished(rest, queue.last().0)) by {
            if finished(rest, queue.last().0) {
                let i = choose|i: int|
                    0 <= i < rest.len() && (#[trigger] rest[i]).0 == queue.last().0;
                assert(rest[i] == queue[i]);
                assert(queue[i].0 != queue[n].0);
            }
        }
        assert(reg.contains_key(queue[n].0));
        assert forall|i: int| 0 <= i < queue.len() implies (#[trigger] fired(
            queue,
            reg,
        )[i]).outcome == queue[i].1 && fired(queue, reg)[i].deliver == reg[queue[i].0].deliver
            && fired(queue, reg)[i].owner == reg[queue[i].0].owner by {
            if i < n {
                assert(fired(queue, reg)[i] == fired(rest, reg)[i]);
                assert(rest[i] == queue[i]);
            }
        }
    }
}

/// What a job's continuation is told: the job's own result, or `EIO` where the
/// job panicked.
pub fn job_result<V>(ran: Result<Result<V, Error>, ()>) -> (r: Result<V, Error>)
    ensures
        match ran {
            Ok(own) => r == own,
            Err(_) => r is Err && r->Err_0 == Error::Errno(Errno::EIO),
        },
{
    match ran {
        Ok(own) => own,
        Err(_) => Err(Error::Errno(Errno::EIO)),
    }
}

/// An outcome fires the continuation registered under its token, for the owner
/// registered with it, after all that finished before it; one whose token
/// nobody registered, or finished already, fires nothing.
pub proof fn law_outcome_fires_its_own_continuation<D, A>(
    queue: Seq<(u64, A)>,
    reg: Map<u64, OffloadEntry<D>>,
    token: u64,
    outcome: A,
)
    ensures
        ({
            let (before, after) = (fired(queue, reg), fired(queue.push((token, outcome)), reg));
            let earlier = exists|i: int| 0 <= i < queue.len() && (#[trigger] queue[i]).0 == token;
            if reg.contains_key(token) && !earlier {
                &&& after.len() == before.len() + 1
                &&& after.last().outcome == outcome
                &&& after.last().deliver == reg[token].deliver
                &&& after.last().owner == reg[token].owner
                &&& forall|i: int| 0 <= i < before.len() ==> #[trigger] after[i] == before[i]
            } else {
                after == before
            }
        }),
{
    let more = queue.push((token, outcome));
    assert(more.drop_last() =~= queue);
    assert(more.last() == (token, outcome));
}

} // verus!
