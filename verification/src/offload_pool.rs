//! The elastic pool of workers behind blocking jobs: its books under the
//! lock, and what each worker and each submitter does with them.
//!
//! The pool keeps a floor of workers warm and grows, at most once per
//! cooldown, while more is queued than the parked workers answer for; workers
//! above the floor retire when idle. The threads, the lock and the waits are
//! the host's: a host calls these functions with the lock held and does what
//! they say.
use std::collections::VecDeque;
use vstd::prelude::*;

verus! {

/// Workers kept warm by default.
pub const OFFLOAD_FLOOR: usize = 4;

/// How far the pool grows by default.
pub const OFFLOAD_CEILING: usize = 64;

/// The most workers a pool may be asked for.
pub const MAX_OFFLOAD_THREADS: usize = 1024;

/// How many jobs a caller must declare, per worker still parked, before a
/// flush asks for another worker.
pub const JOBS_PER_WORKER_BEFORE_GROWTH: usize = 4;

/// Microseconds between two workers grown in.
pub const OFFLOAD_SPAWN_COOLDOWN_US: u64 = 1_000;

/// Microseconds after which an idle worker above the floor retires.
pub const OFFLOAD_IDLE_TIMEOUT_US: u64 = 10_000_000;

/// Microseconds that closing a pool waits for its workers before it leaves
/// them to exit on their own.
pub const SHUTDOWN_DETACH_AFTER_US: u64 = 2_000_000;

/// Microseconds for which jobs run inline after the pool could not be
/// started.
pub const SPAWN_RETRY_BACKOFF_US: u64 = 1_000_000;

/// Per-ring sizing of the pool.
#[derive(Clone, Copy, Debug, PartialEq, Eq, Structural)]
#[non_exhaustive]
pub struct OffloadBounds {
    /// Warm workers, never retired below. At least one.
    pub floor: usize,
    /// How many workers the pool grows to. Raised to `floor` if smaller.
    pub ceiling: usize,
}

impl Default for OffloadBounds {
    fn default() -> (r: OffloadBounds)
        ensures
            r == (OffloadBounds { floor: OFFLOAD_FLOOR, ceiling: OFFLOAD_CEILING }),
    {
        OffloadBounds { floor: OFFLOAD_FLOOR, ceiling: OFFLOAD_CEILING }
    }
}

impl OffloadBounds {
    /// The floor in effect.
    pub open spec fn spec_floor(self) -> usize {
        if self.floor == 0 {
            1
        } else {
            self.floor
        }
    }

    /// The bounds in effect: a floor of at least one, and a ceiling not below
    /// it.
    pub open spec fn spec_effective(self) -> OffloadBounds {
        OffloadBounds {
            floor: self.spec_floor(),
            ceiling: if self.ceiling < self.spec_floor() {
                self.spec_floor()
            } else {
                self.ceiling
            },
        }
    }

    /// [`OffloadBounds::spec_effective`].
    pub fn effective(self) -> (r: OffloadBounds)
        ensures
            r == self.spec_effective(),
    {
        let floor = if self.floor == 0 {
            1
        } else {
            self.floor
        };
        let ceiling = if self.ceiling < floor {
            floor
        } else {
            self.ceiling
        };
        OffloadBounds { floor, ceiling }
    }
}

/// What a pool's lock protects. `J` is a job.
pub struct PoolInner<J> {
    /// Jobs that no worker has taken.
    pub queue: VecDeque<J>,
    /// Live workers: the floor and those grown in.
    pub total: usize,
    /// Parked workers that nobody has claimed.
    pub idle: usize,
    /// Wakes issued and not consumed: parked workers that are claimed.
    pub notify: usize,
    /// The pool takes no more jobs; workers drain the queue and exit.
    pub closed: bool,
    /// When the last worker was grown in, in microseconds since the pool
    /// began.
    pub last_spawn_us: u64,
    /// Wakes the most recent flush issued.
    pub last_flush_wakes: usize,
    /// Wakes issued over the pool's life.
    pub wakes_issued: u64,
    /// Workers between parking and waking.
    pub waiting: Ghost<nat>,
    /// Workers running a job or about to look for one.
    pub running: Ghost<nat>,
    /// Every job accepted, in order.
    pub accepted: Ghost<Seq<J>>,
    /// Every job a worker took, in order.
    pub taken: Ghost<Seq<J>>,
}

/// A pool: its books and its sizing.
pub struct WorkerPool<J> {
    pub inner: PoolInner<J>,
    /// Tells this pool from any other of the process.
    pub id: u64,
    pub floor: usize,
    pub ceiling: usize,
    pub cooldown_us: u64,
    pub idle_timeout_us: u64,
}

/// How starting a pool goes on.
#[derive(Clone, Copy, Debug, PartialEq, Eq, Structural)]
pub enum FloorStep {
    /// Start another worker and say how that went.
    Spawn,
    /// The floor is running.
    Ready,
    /// A worker could not be started; the pool is closed, and those already
    /// running are to be waited for.
    Failed,
}

/// What a flush asks of its caller.
#[derive(Clone, Copy, Debug, PartialEq, Eq, Structural)]
pub struct Flushed {
    /// Signal one parked worker.
    pub wake: bool,
    /// Start one worker, and say so with [`WorkerPool::spawned`].
    pub spawn: bool,
}

/// What a worker does next.
pub enum Turn<J> {
    /// Signal one parked worker if `wake`, then run the job off the lock.
    Run { job: J, wake: bool },
    /// Wait to be signalled, for at most that many microseconds.
    Park { timeout_us: Option<u64> },
    /// Tell everyone waiting, and end.
    Exit,
}

/// What a worker does when a wait returned.
#[derive(Clone, Copy, Debug, PartialEq, Eq)]
pub enum AfterWait {
    /// Look for a job.
    Look,
    /// Wait again.
    Sleep { timeout_us: Option<u64> },
    /// Tell everyone waiting, and end.
    Retire,
}

/// What whoever closes a pool does next.
#[derive(Clone, Copy, Debug, PartialEq, Eq, Structural)]
pub enum DropStep {
    /// The closer is one of the pool's own workers: nothing to wait for.
    OwnWorker,
    /// Every worker has exited.
    Joined,
    /// The wait has lasted long enough; the rest exit on their own.
    Detached,
    /// Wait for a worker to exit, for at most that many microseconds.
    Wait { left_us: u64 },
}

impl<J> PoolInner<J> {
    /// Jobs in the queue that no claimed worker is coming for.
    pub open spec fn spec_unclaimed(&self) -> nat {
        if self.queue@.len() > self.notify {
            (self.queue@.len() - self.notify) as nat
        } else {
            0
        }
    }

    /// Whether a wake is owed: an unclaimed job, and somebody parked to take
    /// it.
    pub open spec fn owes_wake(&self) -> bool {
        self.spec_unclaimed() > 0 && self.idle > 0
    }

    /// The books after claiming one parked worker.
    pub open spec fn claimed_from(&self, old: PoolInner<J>) -> bool {
        &&& self.idle == old.idle - 1
        &&& self.notify == old.notify + 1
        &&& self.wakes_issued == (if old.wakes_issued == u64::MAX {
            u64::MAX
        } else {
            (old.wakes_issued + 1) as u64
        })
    }

    /// The books but for the wakes are those of `old`.
    pub open spec fn same_but_wakes(&self, old: PoolInner<J>) -> bool {
        &&& self.queue@ == old.queue@
        &&& self.total == old.total
        &&& self.closed == old.closed
        &&& self.last_spawn_us == old.last_spawn_us
        &&& self.waiting@ == old.waiting@
        &&& self.running@ == old.running@
        &&& self.accepted@ == old.accepted@
        &&& self.taken@ == old.taken@
    }

    /// The wake counters are those of `old`.
    pub open spec fn same_wakes(&self, old: PoolInner<J>) -> bool {
        &&& self.idle == old.idle
        &&& self.notify == old.notify
        &&& self.wakes_issued == old.wakes_issued
    }

    /// Jobs in the queue that no claimed worker is coming for.
    pub fn unclaimed(&self) -> (r: usize)
        ensures
            r == self.spec_unclaimed(),
    {
        self.queue.len().saturating_sub(self.notify)
    }

    /// Claim one parked worker; the caller signals it.
    pub fn claim_one(&mut self)
        requires
            old(self).idle > 0,
            old(self).notify < usize::MAX,
        ensures
            final(self).claimed_from(*old(self)),
            final(self).same_but_wakes(*old(self)),
            final(self).last_flush_wakes == old(self).last_flush_wakes,
    {
        self.idle = self.idle - 1;
        self.notify = self.notify + 1;
        self.wakes_issued = self.wakes_issued.saturating_add(1);
    }
}

impl<J> WorkerPool<J> {
    /// The pool's books balance: every live worker runs or waits, every
    /// waiting worker is idle or claimed, the ceiling holds, every accepted
    /// job was taken or is queued in its order, and no job is left where no
    /// worker is.
    pub open spec fn wf(&self) -> bool {
        &&& 1 <= self.floor <= self.ceiling
        &&& self.inner.total <= self.ceiling
        &&& self.inner.waiting@ + self.inner.running@ == self.inner.total
        &&& self.inner.idle + self.inner.notify == self.inner.waiting@
        &&& self.inner.accepted@ == self.inner.taken@ + self.inner.queue@
        &&& self.inner.total == 0 ==> self.inner.queue@.len() == 0
    }

    /// The sizing of `self` is that of `old`.
    pub open spec fn same_sizing(&self, old: WorkerPool<J>) -> bool {
        &&& self.id == old.id
        &&& self.floor == old.floor
        &&& self.ceiling == old.ceiling
        &&& self.cooldown_us == old.cooldown_us
        &&& self.idle_timeout_us == old.idle_timeout_us
    }

    /// Somebody is coming for the queue: where it holds a job, a worker is
    /// claimed, or one runs and looks again before it parks.
    pub open spec fn attended(&self) -> bool {
        self.inner.queue@.len() > 0 ==> self.inner.notify > 0 || self.inner.running@ > 0
    }

    /// How long a worker may wait: only a pool above its floor has a worker
    /// to retire.
    pub open spec fn wait_limit(&self) -> Option<u64> {
        if self.inner.total > self.floor {
            Some(self.idle_timeout_us)
        } else {
            None
        }
    }

    /// A pool with no worker yet, with the usual cooldown and idle time.
    pub fn try_elastic(bounds: OffloadBounds, id: u64) -> (r: WorkerPool<J>)
        ensures
            r.wf(),
            r.fresh(bounds, id, OFFLOAD_SPAWN_COOLDOWN_US, OFFLOAD_IDLE_TIMEOUT_US),
    {
        Self::try_elastic_tuned(bounds, id, OFFLOAD_SPAWN_COOLDOWN_US, OFFLOAD_IDLE_TIMEOUT_US)
    }

    /// A pool as it begins.
    pub open spec fn fresh(
        &self,
        bounds: OffloadBounds,
        id: u64,
        cooldown_us: u64,
        idle_timeout_us: u64,
    ) -> bool {
        &&& self.id == id
        &&& self.floor == bounds.spec_effective().floor
        &&& self.ceiling == bounds.spec_effective().ceiling
        &&& self.cooldown_us == cooldown_us
        &&& self.idle_timeout_us == idle_timeout_us
        &&& self.inner.queue@.len() == 0
        &&& self.inner.total == 0
        &&& self.inner.idle == 0
        &&& self.inner.notify == 0
        &&& !self.inner.closed
        &&& self.inner.last_spawn_us == 0
        &&& self.inner.last_flush_wakes == 0
        &&& self.inner.wakes_issued == 0
        &&& self.inner.accepted@.len() == 0
        &&& self.inner.taken@.len() == 0
    }

    /// A pool with no worker yet; [`WorkerPool::floor_step`] starts its
    /// floor.
    pub fn try_elastic_tuned(
        bounds: OffloadBounds,
        id: u64,
        cooldown_us: u64,
        idle_timeout_us: u64,
    ) -> (r: WorkerPool<J>)
        ensures
            r.wf(),
            r.fresh(bounds, id, cooldown_us, idle_timeout_us),
    {
        let b = bounds.effective();
        let inner = PoolInner {
            queue: VecDeque::new(),
            total: 0,
            idle: 0,
            notify: 0,
            closed: false,
            last_spawn_us: 0,
            last_flush_wakes: 0,
            wakes_issued: 0,
            waiting: Ghost(0),
            running: Ghost(0),
            accepted: Ghost(Seq::empty()),
            taken: Ghost(Seq::empty()),
        };
        WorkerPool {
            inner,
            id,
            floor: b.floor,
            ceiling: b.ceiling,
            cooldown_us,
            idle_timeout_us,
        }
    }

    /// A worker was started, or could not be. Only one that exists counts.
    pub fn spawned(&mut self, ok: bool)
        requires
            old(self).wf(),
            old(self).inner.total < old(self).ceiling,
        ensures
            final(self).wf(),
            final(self).same_sizing(*old(self)),
            final(self).inner.total == old(self).inner.total + (if ok {
                1int
            } else {
                0
            }),
            final(self).inner.running@ == old(self).inner.running@ + (if ok {
                1int
            } else {
                0
            }),
            final(self).inner.waiting@ == old(self).inner.waiting@,
            final(self).inner.queue@ == old(self).inner.queue@,
            final(self).inner.accepted@ == old(self).inner.accepted@,
            final(self).inner.taken@ == old(self).inner.taken@,
            final(self).inner.same_wakes(old(self).inner),
            final(self).inner.last_flush_wakes == old(self).inner.last_flush_wakes,
            final(self).inner.closed == old(self).inner.closed,
            final(self).inner.last_spawn_us == old(self).inner.last_spawn_us,
            old(self).attended() ==> final(self).attended(),
    {
        if ok {
            self.inner.total = self.inner.total + 1;
            self.inner.running = Ghost((self.inner.running@ + 1) as nat);
        }
    }

    /// Starting the floor: `last` is how the worker asked for last went, if
    /// one was.
    pub fn floor_step(&mut self, last: Option<bool>) -> (r: FloorStep)
        requires
            old(self).wf(),
            !old(self).inner.closed,
            last is Some ==> old(self).inner.total < old(self).floor,
        ensures
            final(self).wf(),
            final(self).same_sizing(*old(self)),
            final(self).inner.queue@ == old(self).inner.queue@,
            final(self).inner.accepted@ == old(self).inner.accepted@,
            final(self).inner.taken@ == old(self).inner.taken@,
            final(self).inner.same_wakes(old(self).inner),
            final(self).inner.waiting@ == old(self).inner.waiting@,
            final(self).inner.total == old(self).inner.total + (if last == Some(true) {
                1int
            } else {
                0
            }),
            final(self).inner.running@ == old(self).inner.running@ + (if last == Some(true) {
                1int
            } else {
                0
            }),
            final(self).inner.last_spawn_us == old(self).inner.last_spawn_us,
            final(self).inner.last_flush_wakes == old(self).inner.last_flush_wakes,
            final(self).inner.closed == (last == Some(false)),
            r == (if last == Some(false) {
                FloorStep::Failed
            } else if final(self).inner.total < final(self).floor {
                FloorStep::Spawn
            } else {
                FloorStep::Ready
            }),
    {
        match last {
            Some(false) => {
                self.inner.closed = true;
                return FloorStep::Failed;
            },
            Some(true) => {
                self.spawned(true);
            },
            None => {},
        }
        if self.inner.total < self.floor {
            FloorStep::Spawn
        } else {
            FloorStep::Ready
        }
    }

    /// The pool `old` once `job` was queued and nobody woken, or dropped where
    /// it is closed.
    pub open spec fn enqueued(&self, old: WorkerPool<J>, job: J) -> bool {
        &&& self.same_sizing(old)
        &&& self.inner.queue@ == (if old.inner.closed {
            old.inner.queue@
        } else {
            old.inner.queue@.push(job)
        })
        &&& self.inner.accepted@ == (if old.inner.closed {
            old.inner.accepted@
        } else {
            old.inner.accepted@.push(job)
        })
        &&& self.inner.taken@ == old.inner.taken@
        &&& self.inner.same_wakes(old.inner)
        &&& self.inner.last_flush_wakes == old.inner.last_flush_wakes
        &&& self.inner.total == old.inner.total
        &&& self.inner.closed == old.inner.closed
        &&& self.inner.last_spawn_us == old.inner.last_spawn_us
        &&& self.inner.waiting@ == old.inner.waiting@
        &&& self.inner.running@ == old.inner.running@
    }

    /// Queue a job and wake nobody; a closed pool drops it. The caller owes a
    /// [`WorkerPool::flush`] before it blocks.
    pub fn enqueue(&mut self, job: J)
        requires
            old(self).wf(),
            old(self).inner.total > 0 || old(self).inner.closed,
        ensures
            final(self).wf(),
            final(self).enqueued(*old(self), job),
    {
        if self.inner.closed {
            return;
        }
        self.inner.accepted = Ghost(self.inner.accepted@.push(job));
        self.inner.queue.push_back(job);
        assert(self.inner.accepted@ =~= self.inner.taken@ + self.inner.queue@);
    }

    /// At most once per cooldown, `true`: the slot to grow in is then taken.
    pub fn claim_spawn_slot(&mut self, now_us: u64) -> (r: bool)
        ensures
            r == (now_us as int - old(self).inner.last_spawn_us as int >= old(self).cooldown_us
                || old(self).cooldown_us == 0),
            *final(self) == (WorkerPool {
                inner: PoolInner {
                    last_spawn_us: if r {
                        now_us
                    } else {
                        old(self).inner.last_spawn_us
                    },
                    ..old(self).inner
                },
                ..*old(self)
            }),
    {
        if now_us.saturating_sub(self.inner.last_spawn_us) < self.cooldown_us {
            return false;
        }
        self.inner.last_spawn_us = now_us;
        true
    }

    /// Whether a caller's count outruns the parked workers: more than four
    /// jobs for each.
    pub open spec fn saturated(&self, pending: usize) -> bool {
        pending > JOBS_PER_WORKER_BEFORE_GROWTH * self.inner.idle
    }

    /// Whether a flush asks for another worker.
    pub open spec fn grows(&self, pending: usize, now_us: u64) -> bool {
        &&& self.saturated(pending)
        &&& self.inner.total < self.ceiling
        &&& (now_us as int - self.inner.last_spawn_us as int >= self.cooldown_us
            || self.cooldown_us == 0)
    }

    /// The pool `old` once it was woken for `pending` jobs, with what that asks
    /// of the caller.
    pub open spec fn flushed(
        &self,
        old: WorkerPool<J>,
        pending: usize,
        now_us: u64,
        r: Flushed,
    ) -> bool {
        if pending == 0 || old.inner.closed {
            !r.wake && !r.spawn && *self == old
        } else {
            &&& self.same_sizing(old)
            &&& r.wake == old.inner.owes_wake()
            &&& if r.wake {
                self.inner.claimed_from(old.inner)
            } else {
                self.inner.same_wakes(old.inner)
            }
            &&& self.inner.last_flush_wakes == (if r.wake {
                1usize
            } else {
                0usize
            })
            &&& r.spawn == old.grows(pending, now_us)
            &&& self.inner.last_spawn_us == (if r.spawn {
                now_us
            } else {
                old.inner.last_spawn_us
            })
            &&& self.inner.queue@ == old.inner.queue@
            &&& self.inner.accepted@ == old.inner.accepted@
            &&& self.inner.taken@ == old.inner.taken@
            &&& self.inner.total == old.inner.total
            &&& self.inner.waiting@ == old.inner.waiting@
            &&& self.inner.running@ == old.inner.running@
            &&& !self.inner.closed
            &&& self.attended()
        }
    }

    /// The pool `old` once `job` was handed to it and a worker woken for it,
    /// with what that asks of the caller.
    pub open spec fn submitted(
        &self,
        old: WorkerPool<J>,
        job: J,
        now_us: u64,
        r: Flushed,
    ) -> bool {
        &&& self.same_sizing(old)
        &&& self.inner.total == old.inner.total
        &&& self.inner.closed == old.inner.closed
        &&& self.inner.taken@ == old.inner.taken@
        &&& self.inner.waiting@ == old.inner.waiting@
        &&& self.inner.running@ == old.inner.running@
        &&& self.inner.last_spawn_us == (if r.spawn {
            now_us
        } else {
            old.inner.last_spawn_us
        })
        &&& if r.wake {
            self.inner.claimed_from(old.inner)
        } else {
            self.inner.same_wakes(old.inner)
        }
        &&& if old.inner.closed {
            &&& !r.wake
            &&& !r.spawn
            &&& self.inner.queue@ == old.inner.queue@
            &&& self.inner.accepted@ == old.inner.accepted@
            &&& self.inner.last_flush_wakes == old.inner.last_flush_wakes
        } else {
            &&& self.inner.queue@ == old.inner.queue@.push(job)
            &&& self.inner.accepted@ == old.inner.accepted@.push(job)
            &&& r.wake == (old.inner.queue@.len() + 1 > old.inner.notify && old.inner.idle > 0)
            &&& self.inner.last_flush_wakes == (if r.wake {
                1usize
            } else {
                0usize
            })
            &&& r.spawn == old.grows(1, now_us)
            &&& self.attended()
        }
    }

    /// Wake the pool for what its queue holds: one parked worker, which hands
    /// the next wake on as it takes its job; and ask for one worker more where
    /// `pending`, the caller's own count, outruns those parked before the wake
    /// and the cooldown has passed.
    pub fn flush(&mut self, pending: usize, now_us: u64) -> (r: Flushed)
        requires
            old(self).wf(),
        ensures
            final(self).wf(),
            final(self).flushed(*old(self), pending, now_us, r),
    {
        if pending == 0 || self.inner.closed {
            return Flushed { wake: false, spawn: false };
        }
        let parked = self.inner.idle;
        let wake = self.inner.unclaimed() > 0 && self.inner.idle > 0;
        if wake {
            self.inner.claim_one();
        }
        self.inner.last_flush_wakes = if wake {
            1
        } else {
            0
        };
        let whole = pending / JOBS_PER_WORKER_BEFORE_GROWTH;
        let over = pending % JOBS_PER_WORKER_BEFORE_GROWTH > 0;
        let saturated = whole > parked || (whole == parked && over);
        let spawn = saturated && self.inner.total < self.ceiling && self.claim_spawn_slot(now_us);
        Flushed { wake, spawn }
    }

    /// [`WorkerPool::enqueue`] and a [`WorkerPool::flush`] of one.
    pub fn submit(&mut self, job: J, now_us: u64) -> (r: Flushed)
        requires
            old(self).wf(),
            old(self).inner.total > 0 || old(self).inner.closed,
        ensures
            final(self).wf(),
            final(self).submitted(*old(self), job, now_us, r),
    {
        self.enqueue(job);
        self.flush(1, now_us)
    }

    /// A worker that holds no job and does not wait: take the first job, and
    /// hand the wake on before running it; with none, exit where the pool is
    /// closed, and park otherwise.
    pub fn next_turn(&mut self) -> (r: Turn<J>)
        requires
            old(self).wf(),
            old(self).inner.running@ > 0,
        ensures
            final(self).wf(),
            final(self).same_sizing(*old(self)),
            final(self).inner.accepted@ == old(self).inner.accepted@,
            final(self).inner.closed == old(self).inner.closed,
            final(self).inner.last_spawn_us == old(self).inner.last_spawn_us,
            final(self).inner.last_flush_wakes == old(self).inner.last_flush_wakes,
            final(self).attended(),
            match r {
                Turn::Run { job, wake } => {
                    &&& old(self).inner.queue@.len() > 0
                    &&& job == old(self).inner.queue@[0]
                    &&& final(self).inner.queue@ == old(self).inner.queue@.drop_first()
                    &&& final(self).inner.taken@ == old(self).inner.taken@.push(job)
                    &&& wake == (final(self).inner.queue@.len() > old(self).inner.notify && old(
                        self,
                    ).inner.idle > 0)
                    &&& if wake {
                        final(self).inner.claimed_from(old(self).inner)
                    } else {
                        final(self).inner.same_wakes(old(self).inner)
                    }
                    &&& final(self).inner.total == old(self).inner.total
                    &&& final(self).inner.waiting@ == old(self).inner.waiting@
                    &&& final(self).inner.running@ == old(self).inner.running@
                },
                Turn::Exit => {
                    &&& old(self).inner.queue@.len() == 0
                    &&& old(self).inner.closed
                    &&& final(self).inner.queue@.len() == 0
                    &&& final(self).inner.taken@ == old(self).inner.taken@
                    &&& final(self).inner.same_wakes(old(self).inner)
                    &&& final(self).inner.total == old(self).inner.total - 1
                    &&& final(self).inner.waiting@ == old(self).inner.waiting@
                    &&& final(self).inner.running@ == old(self).inner.running@ - 1
                },
                Turn::Park { timeout_us } => {
                    &&& old(self).inner.queue@.len() == 0
                    &&& !old(self).inner.closed
                    &&& timeout_us == old(self).wait_limit()
                    &&& final(self).inner.queue@.len() == 0
                    &&& final(self).inner.taken@ == old(self).inner.taken@
                    &&& final(self).inner.idle == old(self).inner.idle + 1
                    &&& final(self).inner.notify == old(self).inner.notify
                    &&& final(self).inner.wakes_issued == old(self).inner.wakes_issued
                    &&& final(self).inner.total == old(self).inner.total
                    &&& final(self).inner.waiting@ == old(self).inner.waiting@ + 1
                    &&& final(self).inner.running@ == old(self).inner.running@ - 1
                },
            },
    {
        let ghost q = self.inner.queue@;
        match self.inner.queue.pop_front() {
            Some(job) => {
                self.inner.taken = Ghost(self.inner.taken@.push(job));
                let wake = self.inner.unclaimed() > 0 && self.inner.idle > 0;
                if wake {
                    self.inner.claim_one();
                }
                assert(self.inner.queue@ =~= q.drop_first());
                assert(self.inner.accepted@ =~= self.inner.taken@ + self.inner.queue@);
                Turn::Run { job, wake }
            },
            None => {
                if self.inner.closed {
                    self.inner.total = self.inner.total - 1;
                    self.inner.running = Ghost((self.inner.running@ - 1) as nat);
                    Turn::Exit
                } else {
                    let timeout_us = self.wait_time();
                    self.inner.idle = self.inner.idle + 1;
                    self.inner.running = Ghost((self.inner.running@ - 1) as nat);
                    self.inner.waiting = Ghost((self.inner.waiting@ + 1) as nat);
                    Turn::Park { timeout_us }
                }
            },
        }
    }

    /// [`WorkerPool::wait_limit`].
    fn wait_time(&self) -> (r: Option<u64>)
        ensures
            r == self.wait_limit(),
    {
        if self.inner.total > self.floor {
            Some(self.idle_timeout_us)
        } else {
            None
        }
    }

    /// A parked worker's wait returned, `expired` if for want of a signal. A
    /// claim goes first; then a job nobody claimed; then the closing; and only
    /// a worker with none of these, above the floor, retires.
    pub fn after_wait(&mut self, expired: bool) -> (r: AfterWait)
        requires
            old(self).wf(),
            old(self).inner.waiting@ > 0,
        ensures
            final(self).wf(),
            final(self).same_sizing(*old(self)),
            final(self).inner.queue@ == old(self).inner.queue@,
            final(self).inner.accepted@ == old(self).inner.accepted@,
            final(self).inner.taken@ == old(self).inner.taken@,
            final(self).inner.closed == old(self).inner.closed,
            final(self).inner.last_spawn_us == old(self).inner.last_spawn_us,
            final(self).inner.last_flush_wakes == old(self).inner.last_flush_wakes,
            final(self).inner.wakes_issued == old(self).inner.wakes_issued,
            final(self).attended(),
            r == (if old(self).inner.notify > 0 || old(self).inner.queue@.len() > 0 || old(
                self,
            ).inner.closed {
                AfterWait::Look
            } else if expired && old(self).inner.total > old(self).floor {
                AfterWait::Retire
            } else {
                AfterWait::Sleep { timeout_us: old(self).wait_limit() }
            }),
            final(self).inner.notify == old(self).inner.notify - (if old(self).inner.notify > 0 {
                1int
            } else {
                0
            }),
            final(self).inner.idle == old(self).inner.idle - (if r is Sleep || old(
                self,
            ).inner.notify > 0 {
                0int
            } else {
                1
            }),
            final(self).inner.total == old(self).inner.total - (if r is Retire {
                1int
            } else {
                0
            }),
            final(self).inner.waiting@ == old(self).inner.waiting@ - (if r is Sleep {
                0int
            } else {
                1
            }),
            final(self).inner.running@ == old(self).inner.running@ + (if r is Look {
                1int
            } else {
                0
            }),
            r is Retire ==> {
                &&& expired
                &&& final(self).inner.total >= final(self).floor
                &&& final(self).inner.queue@.len() == 0
                &&& final(self).inner.notify == 0
            },
    {
        if self.inner.notify > 0 {
            self.inner.notify = self.inner.notify - 1;
        } else if self.inner.queue.len() > 0 || self.inner.closed {
            self.inner.idle = self.inner.idle - 1;
        } else if expired && self.inner.total > self.floor {
            self.inner.idle = self.inner.idle - 1;
            self.inner.total = self.inner.total - 1;
            self.inner.waiting = Ghost((self.inner.waiting@ - 1) as nat);
            return AfterWait::Retire;
        } else {
            return AfterWait::Sleep { timeout_us: self.wait_time() };
        }
        self.inner.waiting = Ghost((self.inner.waiting@ - 1) as nat);
        self.inner.running = Ghost((self.inner.running@ + 1) as nat);
        AfterWait::Look
    }

    /// The pool takes no more jobs; the caller tells everyone waiting.
    pub fn close(&mut self)
        requires
            old(self).wf(),
        ensures
            final(self).wf(),
            *final(self) == (WorkerPool {
                inner: PoolInner { closed: true, ..old(self).inner },
                ..*old(self)
            }),
    {
        self.inner.closed = true;
    }

    /// Whoever closed the pool waits its workers out: not on one of its own
    /// workers, `on_worker_of` being the pool whose worker the closer is; and
    /// not beyond one deadline for the whole wait, however often it wakes.
    pub fn drop_step(
        &self,
        on_worker_of: Option<u64>,
        elapsed_us: u64,
        timed_out: bool,
    ) -> (r: DropStep)
        ensures
            r == (if on_worker_of == Some(self.id) {
                DropStep::OwnWorker
            } else if self.inner.total == 0 {
                DropStep::Joined
            } else if timed_out || elapsed_us >= SHUTDOWN_DETACH_AFTER_US {
                DropStep::Detached
            } else {
                DropStep::Wait { left_us: (SHUTDOWN_DETACH_AFTER_US - elapsed_us) as u64 }
            }),
            r matches DropStep::Wait { left_us } ==> left_us > 0 && elapsed_us + left_us == 2_000_000
                && self.inner.total > 0,
            r is Detached ==> self.inner.total > 0 && (timed_out || elapsed_us >= 2_000_000),
            r is Joined ==> self.inner.total == 0,
    {
        if let Some(id) = on_worker_of {
            if id == self.id {
                return DropStep::OwnWorker;
            }
        }
        if self.inner.total == 0 {
            return DropStep::Joined;
        }
        let left_us = SHUTDOWN_DETACH_AFTER_US.saturating_sub(elapsed_us);
        if timed_out || left_us == 0 {
            DropStep::Detached
        } else {
            DropStep::Wait { left_us }
        }
    }
}

/// A pool that has shut down lost no job and ran none twice: with every worker
/// gone, what the workers took is what was accepted, in its order.
pub proof fn law_shutdown_runs_every_job_once<J>(pool: WorkerPool<J>)
    requires
        pool.wf(),
        pool.inner.total == 0,
    ensures
        pool.inner.taken@ == pool.inner.accepted@,
{
    assert(pool.inner.accepted@ =~= pool.inner.taken@);
}

/// Growth is spaced: a pool that took its slot to grow in at one time, and has
/// taken none since, grows again only once its cooldown has passed.
pub proof fn law_growth_is_spaced<J>(
    pool: WorkerPool<J>,
    grown_us: u64,
    pending: usize,
    now_us: u64,
)
    requires
        pool.inner.last_spawn_us == grown_us,
        pool.cooldown_us > 0,
        pool.grows(pending, now_us),
    ensures
        now_us >= grown_us + pool.cooldown_us,
        pool.inner.total < pool.ceiling,
{
}

/// No worker is counted twice: those parked unclaimed, those claimed and those
/// running are, together, the workers there are, and never more than the
/// ceiling.
pub proof fn law_workers_are_counted_once<J>(pool: WorkerPool<J>)
    requires
        pool.wf(),
    ensures
        pool.inner.idle + pool.inner.notify + pool.inner.running@ == pool.inner.total,
        pool.inner.idle <= pool.inner.total,
        pool.inner.notify <= pool.inner.total,
        pool.inner.total <= pool.ceiling,
{
}

/// One claimed worker woke and took a job: [`WorkerPool::after_wait`] and then
/// [`WorkerPool::next_turn`], as their contracts have it.
pub open spec fn claimed_worker_took<J>(before: WorkerPool<J>, after: WorkerPool<J>) -> bool {
    let left = before.inner.notify - 1;
    let wake = before.inner.queue@.len() - 1 > left && before.inner.idle > 0;
    &&& before.inner.notify > 0
    &&& before.inner.queue@.len() > 0
    &&& after.inner.queue@ == before.inner.queue@.drop_first()
    &&& after.inner.running@ == before.inner.running@ + 1
    &&& after.inner.notify == left + (if wake {
        1int
    } else {
        0
    })
    &&& after.inner.idle == before.inner.idle - (if wake {
        1int
    } else {
        0
    })
}

/// A flush that claims one worker reaches a worker per job: with as many
/// workers parked as jobs queued, each claimed worker claims the next as it
/// takes its job, and the batch ends with every job on a worker of its own and
/// no claim left over.
pub proof fn law_one_wake_reaches_a_worker_per_job<J>(states: Seq<WorkerPool<J>>)
    requires
        states.len() > 0,
        states.len() == states[0].inner.queue@.len() + 1,
        states[0].inner.notify == 1,
        states[0].inner.idle + 1 >= states[0].inner.queue@.len(),
        forall|i: int|
            0 <= i < states.len() - 1 ==> claimed_worker_took(
                #[trigger] states[i],
                states[i + 1],
            ),
    ensures
        states[0].inner.queue@.len() > 0 ==> {
            &&& states.last().inner.queue@.len() == 0
            &&& states.last().inner.notify == 0
            &&& states.last().inner.running@ == states[0].inner.running@
                + states[0].inner.queue@.len()
        },
    decreases states.len(),
{
    if states[0].inner.queue@.len() > 1 {
        let rest = states.drop_first();
        assert(claimed_worker_took(states[0], states[1]));
        assert(rest[0] == states[1]);
        assert forall|i: int| 0 <= i < rest.len() - 1 implies claimed_worker_took(
            #[trigger] rest[i],
            rest[i + 1],
        ) by {
            assert(rest[i] == states[i + 1]);
            assert(rest[i + 1] == states[i + 2]);
        }
        law_one_wake_reaches_a_worker_per_job(rest);
        assert(rest.last() == states.last());
    } else if states[0].inner.queue@.len() == 1 {
        assert(claimed_worker_took(states[0], states[1]));
    }
}

/// One [`WorkerPool`] started on first use, shared by everyone who offloads.
pub struct SharedPool<J> {
    pub pool: Option<WorkerPool<J>>,
    pub bounds: OffloadBounds,
    /// No start is tried before this, in microseconds since the pool began.
    pub retry_spawn_us: u64,
}

/// What becomes of a job handed to a [`SharedPool`].
pub enum Submitted<J> {
    /// The pool holds it, or has closed and dropped it.
    Taken,
    /// Run it here: the pool could not be started a moment ago.
    Inline(J),
    /// Start the pool, then hand the job to [`SharedPool::started`].
    Start(J),
}

impl<J> SharedPool<J> {
    /// A pool there is has its floor or has closed.
    pub open spec fn wf(&self) -> bool {
        self.pool is Some ==> self.pool->0.wf() && (self.pool->0.inner.total > 0
            || self.pool->0.inner.closed)
    }

    /// No pool yet, sized by `bounds`.
    pub fn new(bounds: OffloadBounds) -> (r: SharedPool<J>)
        ensures
            r.wf(),
            r.pool is None,
            r.bounds == bounds.spec_effective(),
            r.retry_spawn_us == 0,
    {
        SharedPool { pool: None, bounds: bounds.effective(), retry_spawn_us: 0 }
    }

    /// Queue a job without a wake, where there is a pool. Where there is none,
    /// start it, unless a start failed a moment ago.
    pub fn enqueue(&mut self, job: J, now_us: u64) -> (r: Submitted<J>)
        requires
            old(self).wf(),
        ensures
            final(self).wf(),
            final(self).bounds == old(self).bounds,
            final(self).retry_spawn_us == old(self).retry_spawn_us,
            final(self).pool is Some == old(self).pool is Some,
            match r {
                Submitted::Taken => old(self).pool is Some && final(self).pool->0.enqueued(
                    old(self).pool->0,
                    job,
                ),
                Submitted::Inline(j) => old(self).pool is None && now_us < old(self).retry_spawn_us
                    && j == job,
                Submitted::Start(j) => old(self).pool is None && now_us >= old(self).retry_spawn_us
                    && j == job,
            },
    {
        match self.pool.take() {
            Some(p) => {
                let mut pool = p;
                pool.enqueue(job);
                self.pool = Some(pool);
                Submitted::Taken
            },
            None => {
                if now_us < self.retry_spawn_us {
                    Submitted::Inline(job)
                } else {
                    Submitted::Start(job)
                }
            },
        }
    }

    /// The start that [`SharedPool::enqueue`] asked for has ended: with a pool,
    /// which takes the job, or, where another start was faster, the pool that
    /// is there; or with none, and the job is to run here and no start is tried
    /// for a while. A pool that came too late is handed back, to be closed.
    pub fn started(
        &mut self,
        built: Option<WorkerPool<J>>,
        job: J,
        now_us: u64,
    ) -> (r: (Option<J>, Option<WorkerPool<J>>))
        requires
            old(self).wf(),
            built is Some ==> built->0.wf() && built->0.inner.total > 0,
        ensures
            final(self).wf(),
            final(self).bounds == old(self).bounds,
            match built {
                Some(b) => {
                    &&& final(self).retry_spawn_us == old(self).retry_spawn_us
                    &&& r.0 is None
                    &&& final(self).pool is Some
                    &&& match old(self).pool {
                        Some(p) => r.1 == Some(b) && final(self).pool->0.enqueued(p, job),
                        None => r.1 is None && final(self).pool->0.enqueued(b, job),
                    }
                },
                None => {
                    &&& r == (Some(job), None::<WorkerPool<J>>)
                    &&& final(self).pool == old(self).pool
                    &&& final(self).retry_spawn_us == (if now_us + SPAWN_RETRY_BACKOFF_US
                        > u64::MAX {
                        u64::MAX
                    } else {
                        (now_us + SPAWN_RETRY_BACKOFF_US) as u64
                    })
                },
            },
    {
        match built {
            Some(b) => {
                let (mut pool, surplus) = match self.pool.take() {
                    Some(p) => (p, Some(b)),
                    None => (b, None),
                };
                pool.enqueue(job);
                self.pool = Some(pool);
                (None, surplus)
            },
            None => {
                self.retry_spawn_us = now_us.saturating_add(SPAWN_RETRY_BACKOFF_US);
                (Some(job), None)
            },
        }
    }

    /// [`SharedPool::enqueue`], and a [`SharedPool::flush`] of one where the
    /// pool took the job.
    pub fn submit(&mut self, job: J, now_us: u64) -> (r: (Submitted<J>, Flushed))
        requires
            old(self).wf(),
        ensures
            final(self).wf(),
            final(self).bounds == old(self).bounds,
            final(self).retry_spawn_us == old(self).retry_spawn_us,
            match (r.0, old(self).pool) {
                (Submitted::Taken, Some(p)) => {
                    &&& final(self).pool is Some
                    &&& final(self).pool->0.submitted(p, job, now_us, r.1)
                },
                (Submitted::Inline(j), None) => {
                    &&& now_us < old(self).retry_spawn_us
                    &&& j == job
                    &&& final(self).pool is None
                    &&& !r.1.wake
                    &&& !r.1.spawn
                },
                (Submitted::Start(j), None) => {
                    &&& now_us >= old(self).retry_spawn_us
                    &&& j == job
                    &&& final(self).pool is None
                    &&& !r.1.wake
                    &&& !r.1.spawn
                },
                _ => false,
            },
    {
        let s = self.enqueue(job, now_us);
        let f = self.flush(1, now_us);
        (s, f)
    }

    /// Wake the pool for `pending` jobs; nothing to do where there is none.
    pub fn flush(&mut self, pending: usize, now_us: u64) -> (r: Flushed)
        requires
            old(self).wf(),
        ensures
            final(self).wf(),
            final(self).bounds == old(self).bounds,
            final(self).retry_spawn_us == old(self).retry_spawn_us,
            match old(self).pool {
                None => !r.wake && !r.spawn && *final(self) == *old(self),
                Some(p) => final(self).pool is Some && final(self).pool->0.flushed(
                    p,
                    pending,
                    now_us,
                    r,
                ),
            },
    {
        match self.pool.take() {
            Some(p) => {
                let mut pool = p;
                let r = pool.flush(pending, now_us);
                self.pool = Some(pool);
                r
            },
            None => Flushed { wake: false, spawn: false },
        }
    }
}

/// The bounds in effect keep what was asked for where it can be: a floor of
/// one at least, and a ceiling no lower than the floor.
pub proof fn law_bounds_in_effect(b: OffloadBounds)
    ensures
        ({
            let e = b.spec_effective();
            &&& e.floor >= 1
            &&& e.ceiling >= e.floor
            &&& b.floor >= 1 ==> e.floor == b.floor
            &&& b.floor == 0 ==> e.floor == 1
            &&& b.ceiling >= e.floor ==> e.ceiling == b.ceiling
            &&& b.ceiling < e.floor ==> e.ceiling == e.floor
        }),
{
}

/// The jobs nobody comes for are those beyond one for each worker that is
/// claimed, and only they are worth a wake.
pub proof fn law_wake_is_owed_for_unclaimed_jobs<J>(inner: PoolInner<J>)
    ensures
        inner.spec_unclaimed() > 0 <==> inner.queue@.len() > inner.notify,
        inner.spec_unclaimed() > 0 ==> inner.spec_unclaimed() + inner.notify == inner.queue@.len(),
        inner.owes_wake() <==> inner.queue@.len() > inner.notify && inner.idle > 0,
{
}

/// A flush wakes one parked worker for an unclaimed job, and asks for a worker
/// more exactly if the caller has more than four jobs for each one parked, the
/// pool is below its ceiling and its cooldown has passed. It moves no job.
pub proof fn law_flush_wakes_one_and_grows_by_one<J>(
    before: WorkerPool<J>,
    after: WorkerPool<J>,
    pending: usize,
    now_us: u64,
    r: Flushed,
)
    requires
        before.wf(),
        after.flushed(before, pending, now_us, r),
    ensures
        ({
            let work = pending > 0 && !before.inner.closed;
            let rested = before.cooldown_us == 0 || now_us >= before.inner.last_spawn_us
                + before.cooldown_us;
            &&& r.wake <==> work && before.inner.queue@.len() > before.inner.notify
                && before.inner.idle > 0
            &&& r.wake ==> after.inner.idle + 1 == before.inner.idle && after.inner.notify
                == before.inner.notify + 1
            &&& !r.wake ==> after.inner.idle == before.inner.idle && after.inner.notify
                == before.inner.notify
            &&& r.spawn <==> work && pending > 4 * before.inner.idle && before.inner.total
                < before.ceiling && rested
            &&& r.spawn ==> after.inner.last_spawn_us == now_us
            &&& !r.spawn ==> after.inner.last_spawn_us == before.inner.last_spawn_us
            &&& after.inner.queue@ == before.inner.queue@
            &&& after.inner.total == before.inner.total
            &&& after.floor == before.floor && after.ceiling == before.ceiling
        }),
{
}

/// A job handed to an open pool is queued behind all that were, and a worker is
/// woken for it where one is parked that no other job has claimed; a closed
/// pool drops it and wakes nobody.
pub proof fn law_submitted_job_is_queued_last<J>(
    before: WorkerPool<J>,
    after: WorkerPool<J>,
    job: J,
    now_us: u64,
    r: Flushed,
)
    requires
        before.wf(),
        after.submitted(before, job, now_us, r),
    ensures
        before.inner.closed ==> after.inner.queue@ == before.inner.queue@ && !r.wake && !r.spawn,
        !before.inner.closed ==> {
            &&& after.inner.queue@.len() == before.inner.queue@.len() + 1
            &&& after.inner.queue@.last() == job
            &&& forall|i: int|
                0 <= i < before.inner.queue@.len() ==> #[trigger] after.inner.queue@[i]
                    == before.inner.queue@[i]
            &&& r.wake <==> before.inner.queue@.len() >= before.inner.notify && before.inner.idle
                > 0
            &&& r.spawn <==> before.inner.idle == 0 && before.inner.total < before.ceiling && (
            before.cooldown_us == 0 || now_us >= before.inner.last_spawn_us + before.cooldown_us)
        },
{
}

/// A job queued without a wake is behind all that were, and changes nothing
/// else; a closed pool drops it.
pub proof fn law_enqueued_job_is_last<J>(before: WorkerPool<J>, after: WorkerPool<J>, job: J)
    requires
        after.enqueued(before, job),
    ensures
        before.inner.closed ==> after.inner.queue@ == before.inner.queue@,
        !before.inner.closed ==> after.inner.queue@.len() == before.inner.queue@.len() + 1
            && after.inner.queue@.last() == job && forall|i: int|
            0 <= i < before.inner.queue@.len() ==> #[trigger] after.inner.queue@[i]
                == before.inner.queue@[i],
        after.inner.idle == before.inner.idle,
        after.inner.notify == before.inner.notify,
        after.inner.total == before.inner.total,
{
}

/// A worker waits without end in a pool at its floor, and for the idle time in
/// one above it; a new pool is sized as its bounds say and holds nothing.
pub proof fn law_waits_end_only_above_the_floor<J>(
    pool: WorkerPool<J>,
    bounds: OffloadBounds,
    id: u64,
    cooldown_us: u64,
    idle_timeout_us: u64,
)
    ensures
        pool.inner.total > pool.floor ==> pool.wait_limit() == Some(pool.idle_timeout_us),
        pool.inner.total <= pool.floor ==> pool.wait_limit() is None,
        pool.fresh(bounds, id, cooldown_us, idle_timeout_us) ==> {
            &&& pool.floor >= 1
            &&& pool.floor >= bounds.floor
            &&& pool.ceiling >= bounds.ceiling
            &&& pool.id == id
            &&& pool.cooldown_us == cooldown_us
            &&& pool.idle_timeout_us == idle_timeout_us
            &&& pool.inner.total == 0 && pool.inner.queue@.len() == 0 && !pool.inner.closed
        },
{
}

} // verus!
