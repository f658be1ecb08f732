//! The pool's books: workers are stepped by hand, so every count is exact.
use uring_fs::offload_pool::{
    AfterWait, DropStep, FloorStep, Flushed, OffloadBounds, PoolInner, SharedPool, Submitted,
    Turn, WorkerPool, OFFLOAD_IDLE_TIMEOUT_US, OFFLOAD_SPAWN_COOLDOWN_US, SHUTDOWN_DETACH_AFTER_US,
    SPAWN_RETRY_BACKOFF_US,
};

fn bounds(floor: usize, ceiling: usize) -> OffloadBounds {
    let mut b = OffloadBounds::default();
    b.floor = floor;
    b.ceiling = ceiling;
    b
}

/// What a worker is at.
#[derive(Clone, Debug, PartialEq)]
enum Worker {
    Looking,
    Parked,
    Running(u32),
    Gone,
}

/// A pool and its workers.
struct Sim {
    pool: WorkerPool<u32>,
    workers: Vec<Worker>,
    ran: Vec<u32>,
    now: u64,
}

impl Sim {
    fn tuned(b: OffloadBounds, cooldown_us: u64, idle_us: u64) -> Sim {
        let mut pool = WorkerPool::try_elastic_tuned(b, 1, cooldown_us, idle_us);
        let mut workers = Vec::new();
        let mut last = None;
        loop {
            match pool.floor_step(last) {
                FloorStep::Spawn => {
                    workers.push(Worker::Looking);
                    last = Some(true);
                }
                FloorStep::Ready => break,
                FloorStep::Failed => panic!("every worker starts here"),
            }
        }
        Sim { pool, workers, ran: Vec::new(), now: 0 }
    }

    fn parked(b: OffloadBounds, cooldown_us: u64, idle_us: u64) -> Sim {
        let mut s = Sim::tuned(b, cooldown_us, idle_us);
        s.settle();
        s
    }

    /// One worker looks for a job.
    fn look(&mut self, i: usize) {
        match self.pool.next_turn() {
            Turn::Run { job, wake } => {
                self.workers[i] = Worker::Running(job);
                if wake {
                    self.signal(false);
                }
            }
            Turn::Park { .. } => self.workers[i] = Worker::Parked,
            Turn::Exit => self.workers[i] = Worker::Gone,
        }
    }

    /// A parked worker's wait returns; whether there was one.
    fn signal(&mut self, expired: bool) -> bool {
        let Some(i) = self.workers.iter().position(|w| *w == Worker::Parked) else {
            return false;
        };
        match self.pool.after_wait(expired) {
            AfterWait::Look => self.workers[i] = Worker::Looking,
            AfterWait::Retire => self.workers[i] = Worker::Gone,
            AfterWait::Sleep { .. } => {}
        }
        true
    }

    /// Every worker that looks gets its turn; none finishes a job.
    fn settle(&mut self) {
        while let Some(i) = self.workers.iter().position(|w| *w == Worker::Looking) {
            self.look(i);
        }
    }

    /// Running workers finish their jobs, until nothing moves.
    fn finish(&mut self) {
        loop {
            self.settle();
            let Some(i) = self.workers.iter().position(|w| matches!(w, Worker::Running(_))) else {
                return;
            };
            if let Worker::Running(job) = self.workers[i] {
                self.ran.push(job);
            }
            self.workers[i] = Worker::Looking;
        }
    }

    fn act(&mut self, f: Flushed) {
        if f.spawn {
            self.pool.spawned(true);
            self.workers.push(Worker::Looking);
        }
        if f.wake {
            self.signal(false);
        }
    }

    fn submit(&mut self, job: u32) {
        self.now += 1;
        let f = self.pool.submit(job, self.now);
        self.act(f);
        self.settle();
    }

    /// Close the pool; every waiting worker wakes to see it.
    fn close(&mut self) {
        self.pool.close();
        for _ in 0..self.workers.len() {
            self.signal(false);
        }
        self.finish();
    }
}

fn quiesced(g: &PoolInner<u32>) -> bool {
    g.notify == 0 && g.idle == g.total && g.queue.is_empty()
}

#[test]
fn an_enqueue_wakes_nobody_and_a_flush_wakes_once_for_the_batch() {
    const JOBS: usize = 3;
    const FLOOR: usize = 5;
    let mut s = Sim::parked(bounds(FLOOR, FLOOR), 1_000, 10_000_000);
    assert_eq!(s.pool.inner.idle, FLOOR);
    for j in 0..JOBS {
        s.pool.enqueue(j as u32);
    }
    assert_eq!(s.pool.inner.queue.len(), JOBS, "queued, not run");
    assert_eq!(s.pool.inner.wakes_issued, 0, "an enqueue woke somebody");
    assert_eq!(s.pool.inner.idle, FLOOR, "an enqueue claimed a worker");

    let f = s.pool.flush(JOBS, 0);
    let flush_cost = s.pool.inner.last_flush_wakes;
    s.act(f);
    s.settle();
    assert_eq!(
        flush_cost, 1,
        "a flush must cost the caller exactly one wake, whatever the \
         batch: the rest are handed on by the workers"
    );
    assert_eq!(
        s.pool.inner.wakes_issued, JOBS as u64,
        "the chain did not reach one worker per job"
    );
    s.finish();
    assert!(quiesced(&s.pool.inner));
}

#[test]
fn a_flush_wakes_no_more_workers_than_it_has_jobs_for() {
    const FLOOR: usize = 8;
    const JOBS: usize = 2;
    let mut s = Sim::parked(bounds(FLOOR, FLOOR), 1_000, 10_000_000);
    for j in 0..JOBS {
        s.pool.enqueue(j as u32);
    }
    let f = s.pool.flush(JOBS, 0);
    assert_eq!(s.pool.inner.last_flush_wakes, 1, "a flush must cost one wake whatever is parked");
    s.act(f);
    s.finish();
    assert!(quiesced(&s.pool.inner));
    assert!(
        s.pool.inner.wakes_issued <= JOBS as u64,
        "the chain woke workers it had no jobs for"
    );
}

#[test]
fn a_flush_of_one_wakes_for_every_job_already_queued() {
    const QUEUED: usize = 5;
    let mut s = Sim::parked(bounds(QUEUED, QUEUED), 1_000, 10_000_000);
    for j in 0..QUEUED {
        s.pool.enqueue(j as u32);
    }
    // The off-loop submitter's count: one, for a queue of five.
    let f = s.pool.flush(1, 0);
    let flush_cost = s.pool.inner.last_flush_wakes;
    s.act(f);
    s.settle();
    assert_eq!(flush_cost, 1, "an application thread paid the reactor's queue depth in wakes");
    assert_eq!(
        s.pool.inner.wakes_issued, QUEUED as u64,
        "a flush of one serialised a queue of {QUEUED}"
    );
    s.finish();
    assert!(quiesced(&s.pool.inner));
}

#[test]
fn the_growth_threshold_did_not_move_with_the_wake_count() {
    const FLOOR: usize = 4;
    // ceil(n / 4) > 4 is false at 16 and true at 17.
    for (jobs, want_total, what) in [(16usize, FLOOR, "below"), (17, FLOOR + 1, "above")] {
        let mut s = Sim::parked(bounds(FLOOR, 64), 0, 10_000_000);
        for j in 0..jobs {
            s.pool.enqueue(j as u32);
        }
        let f = s.pool.flush(jobs, 0);
        s.act(f);
        assert_eq!(
            s.pool.inner.total, want_total,
            "{jobs} jobs on a floor of {FLOOR} is {what} the growth threshold"
        );
        s.finish();
        assert!(quiesced(&s.pool.inner));
    }
}

#[test]
fn a_flush_of_one_does_not_grow_against_the_queue() {
    const FLOOR: usize = 2;
    let mut s = Sim::parked(bounds(FLOOR, 64), 0, 10_000_000);
    // Ten queued, one declared: `ceil(1/4) > 2` is false, so no growth, where
    // `ceil(10/4) > 2` would spawn.
    for j in 0..10 {
        s.pool.enqueue(j);
    }
    let f = s.pool.flush(1, 0);
    s.act(f);
    assert_eq!(
        s.pool.inner.total, FLOOR,
        "growth was sized by the queue, not by what the caller queued"
    );
    s.finish();
    assert!(quiesced(&s.pool.inner));
}

#[test]
fn a_flush_does_not_re_wake_workers_a_claim_already_covers() {
    const FLOOR: usize = 4;
    let mut s = Sim::parked(bounds(FLOOR, FLOOR), 1_000, 10_000_000);
    s.pool.enqueue(0);
    s.pool.enqueue(1);
    // As a previous flush would have left it, minus the wakes it would also
    // have issued: those workers are spoken for.
    s.pool.inner.idle -= 2;
    s.pool.inner.notify += 2;

    s.pool.flush(2, 0);
    assert_eq!(
        s.pool.inner.wakes_issued, 0,
        "a flush woke again for jobs a claim already covered"
    );

    // Hand the claims back so the pool settles on its own books.
    s.signal(false);
    s.signal(false);
    s.finish();
    assert!(quiesced(&s.pool.inner));
}

#[test]
fn offload_pool_grows_under_saturation_then_reclaims_when_idle() {
    let mut s = Sim::tuned(bounds(1, 4), 0, 50_000);
    s.settle();
    for j in 0..4 {
        s.submit(j);
    }
    assert_eq!(s.pool.inner.total, 4, "grew from floor 1 to ceiling 4 under saturation");
    s.finish();
    // Idle burst workers retire back to the floor.
    for _ in 0..8 {
        s.signal(true);
    }
    assert_eq!(s.pool.inner.total, 1, "burst workers retired back to the floor");
}

#[test]
fn a_timed_wait_expiry_takes_a_job_nobody_claimed() {
    let mut s = Sim::tuned(bounds(1, 4), 0, 50_000);
    s.settle();
    for j in 0..4 {
        s.submit(j);
    }
    s.finish();
    assert!(s.pool.inner.total > 1, "every burst worker retired before the job was queued");
    // Queued with no flush.
    s.pool.enqueue(77);
    assert_eq!(s.pool.inner.notify, 0, "unclaimed");
    s.signal(true);
    s.finish();
    assert!(s.ran.contains(&77), "a timed wait expiry must let a worker take the job");
    assert!(quiesced(&s.pool.inner));
}

#[test]
fn fixed_pool_does_not_grow() {
    let mut s = Sim::tuned(bounds(2, 2), OFFLOAD_SPAWN_COOLDOWN_US, OFFLOAD_IDLE_TIMEOUT_US);
    s.settle();
    s.submit(0);
    s.submit(1);
    // Two more jobs against a saturated fixed pool: they queue, no growth.
    s.submit(2);
    s.submit(3);
    assert_eq!(s.pool.inner.total, 2, "fixed pool stayed at its worker count");
}

#[test]
fn dpool_query_job_holding_the_last_pool_arc_wedges_a_worker() {
    let mut s = Sim::parked(bounds(1, 1), 0, 0);
    s.submit(5);
    // The job closes its own pool from the worker it runs on.
    s.pool.close();
    assert_eq!(
        s.pool.drop_step(Some(1), 0, false),
        DropStep::OwnWorker,
        "a job dropping the pool's last handle waited for its own worker"
    );
}

#[test]
fn dpool_foreign_pool_dropped_on_a_worker_is_still_joined() {
    let mut b = Sim::parked(bounds(1, 1), 0, 0);
    b.submit(5);
    b.pool.close();
    // A worker of another pool gets no exemption: it waits while the job runs.
    assert_eq!(
        b.pool.drop_step(Some(2), 0, false),
        DropStep::Wait { left_us: SHUTDOWN_DETACH_AFTER_US }
    );
    b.finish();
    assert_eq!(b.ran, vec![5], "b job finished");
    assert_eq!(b.pool.drop_step(Some(2), 10, false), DropStep::Joined, "b joined");
}

#[test]
fn loom_pool_lifecycle() {
    let mut s = Sim::parked(bounds(1, 1), 0, 0);
    s.submit(1);
    s.submit(2);
    s.close();
    assert!(s.pool.inner.closed);
    assert_eq!(s.pool.inner.total, 0, "workers still live");
    assert!(s.pool.inner.queue.is_empty());
    assert_eq!(s.ran, vec![1, 2], "a queued job was dropped on the floor");
    assert_eq!(s.pool.drop_step(None, 0, false), DropStep::Joined);
}

#[test]
fn loom_pool_growth_respects_the_ceiling() {
    let mut s = Sim::parked(bounds(1, 1), 0, 0);
    s.submit(1);
    s.submit(2);
    assert!(s.pool.inner.total <= s.pool.ceiling);
    s.close();
    assert_eq!(s.pool.inner.total, 0);
    assert_eq!(s.ran.len(), 2, "a job was lost");
}

#[test]
fn loom_pool_drop_detaches_a_worker_that_never_exits() {
    let mut s = Sim::parked(bounds(1, 1), 0, 0);
    // A worker that is counted but will never exit.
    s.pool.inner.total += 1;
    s.pool.close();
    assert_eq!(s.pool.drop_step(None, 0, true), DropStep::Detached);
    assert_eq!(s.pool.drop_step(None, SHUTDOWN_DETACH_AFTER_US, false), DropStep::Detached);
    assert!(s.pool.inner.closed);
    assert!(s.pool.inner.total > 0);
}

#[test]
fn loom_a_claimless_take_cannot_double_count_a_claimed_worker() {
    for claim_first in [false, true] {
        let mut s = Sim::parked(bounds(1, 1), 0, 0);
        // Queued with no wake, exactly as an unflushed enqueue leaves it.
        s.pool.enqueue(1);
        if claim_first {
            let f = s.pool.flush(1, 0);
            assert!(f.wake);
            s.signal(false);
        } else {
            s.signal(false);
            let f = s.pool.flush(1, 0);
            assert!(!f.wake, "nobody is parked any more");
        }
        assert!(s.pool.inner.idle <= s.pool.inner.total);
        assert!(s.pool.inner.notify <= s.pool.inner.total);
        s.finish();
        assert!(quiesced(&s.pool.inner));
    }
}

#[test]
fn loom_pool_idle_retire_cannot_strand_drop() {
    for retire_first in [false, true] {
        let mut s = Sim::parked(bounds(1, 2), 0, 0);
        s.pool.spawned(true);
        s.workers.push(Worker::Looking);
        s.settle();
        if retire_first {
            s.signal(true);
            s.signal(true);
            assert_eq!(s.pool.inner.total, 1, "the last worker never retires");
        }
        s.close();
        // Once closed, a worker exits rather than retires, and says so.
        s.signal(true);
        assert_eq!(s.pool.inner.total, 0);
        assert_eq!(s.pool.drop_step(None, 0, false), DropStep::Joined);
    }
}

#[test]
fn loom_pool_self_join_is_avoided() {
    let mut s = Sim::parked(bounds(1, 1), 0, 0);
    s.submit(1);
    s.pool.close();
    assert_eq!(s.pool.drop_step(Some(1), 0, false), DropStep::OwnWorker);
    s.finish();
    assert!(s.pool.inner.closed, "dropping the pool did not close it");
    assert_eq!(s.ran, vec![1]);
}

#[test]
fn loom_pool_foreign_drop_still_joins() {
    let mut b = Sim::parked(bounds(1, 1), 0, 0);
    b.pool.close();
    assert!(matches!(b.pool.drop_step(Some(9), 0, false), DropStep::Wait { .. }));
    b.signal(false);
    b.finish();
    assert!(b.pool.inner.closed, "foreign drop did not close the pool");
    assert_eq!(b.pool.inner.total, 0, "foreign drop returned with workers still live");
    assert_eq!(b.pool.drop_step(Some(9), 1, false), DropStep::Joined);
}

fn built(b: OffloadBounds, id: u64) -> WorkerPool<u32> {
    let mut p = WorkerPool::try_elastic(b, id);
    let mut last = None;
    while p.floor_step(last) == FloorStep::Spawn {
        last = Some(true);
    }
    p
}

#[test]
fn loom_shared_pool_init() {
    // Two first submits race the start: each builds a pool, the loser's is
    // handed back to be closed, and neither job is lost.
    let mut sp: SharedPool<u32> = SharedPool::new(bounds(1, 1));
    let (a, _) = sp.submit(1, 0);
    let (b, _) = sp.submit(2, 0);
    let (Submitted::Start(a), Submitted::Start(b)) = (a, b) else {
        panic!("a pool was there before it was started");
    };
    let (inline, surplus) = sp.started(Some(built(sp.bounds, 1)), a, 0);
    assert!(inline.is_none() && surplus.is_none());
    let (inline, surplus) = sp.started(Some(built(sp.bounds, 2)), b, 0);
    assert!(inline.is_none());
    assert_eq!(surplus.expect("the later pool is surplus").id, 2);
    let pool = sp.pool.expect("no pool was installed");
    assert_eq!(pool.id, 1);
    assert_eq!(pool.inner.queue, [1, 2], "a job was lost to the start race");
}

#[test]
fn a_failed_start_runs_jobs_inline_until_its_backoff_ends() {
    let mut sp: SharedPool<u32> = SharedPool::new(bounds(0, 0));
    assert_eq!(sp.bounds, bounds(1, 1));
    let (s, _) = sp.submit(1, 5);
    let Submitted::Start(job) = s else { panic!("the first submit starts the pool") };
    let (inline, _) = sp.started(None, job, 5);
    assert_eq!(inline, Some(1));
    assert!(matches!(sp.enqueue(2, SPAWN_RETRY_BACKOFF_US), Submitted::Inline(2)));
    assert!(matches!(sp.enqueue(3, 5 + SPAWN_RETRY_BACKOFF_US), Submitted::Start(3)));
    assert_eq!(sp.flush(1, 0), Flushed { wake: false, spawn: false });
}

#[test]
fn a_shared_pool_lives_on_and_grows_no_faster_than_its_cooldown() {
    let mut sp: SharedPool<u32> = SharedPool::new(bounds(1, 4));
    let (s, _) = sp.submit(1, 0);
    let Submitted::Start(job) = s else { panic!("the first submit starts the pool") };
    sp.started(Some(built(sp.bounds, 1)), job, 0);
    let cooldown = sp.pool.as_ref().expect("a pool").cooldown_us;
    let (s, owed) = sp.submit(2, cooldown);
    assert!(matches!(s, Submitted::Taken));
    assert!(owed.spawn, "nobody is parked");
    let (_, owed) = sp.submit(3, 2 * cooldown - 1);
    assert!(!owed.spawn, "the cooldown has not passed");
    assert_eq!(sp.flush(3, 2 * cooldown), Flushed { wake: false, spawn: true });
    let pool = sp.pool.expect("a pool");
    assert!(!pool.inner.closed);
    assert_eq!(pool.inner.last_spawn_us, 2 * cooldown);
    assert_eq!(pool.inner.queue, [1, 2, 3]);
}

#[test]
fn a_pool_that_cannot_start_a_worker_is_closed() {
    let mut p: WorkerPool<u32> = WorkerPool::try_elastic(bounds(3, 3), 1);
    assert_eq!(p.floor_step(None), FloorStep::Spawn);
    assert_eq!(p.floor_step(Some(true)), FloorStep::Spawn);
    assert_eq!(p.floor_step(Some(false)), FloorStep::Failed);
    assert!(p.inner.closed);
    assert_eq!(p.inner.total, 1);
    assert!(matches!(p.drop_step(None, 0, false), DropStep::Wait { .. }));
}

#[test]
fn growth_waits_out_its_cooldown() {
    let mut s = Sim::parked(bounds(1, 8), 1_000, 10_000_000);
    s.now = 999;
    s.submit(0);
    s.submit(1);
    assert_eq!(s.pool.inner.total, 2, "the cooldown had passed");
    s.submit(2);
    assert_eq!(s.pool.inner.total, 2, "grew twice within one cooldown");
    s.now = 2_000;
    s.submit(3);
    assert_eq!(s.pool.inner.total, 3);
}

#[test]
fn a_closed_pool_takes_no_job() {
    let mut s = Sim::parked(bounds(1, 1), 0, 0);
    s.close();
    s.pool.enqueue(1);
    assert!(s.pool.inner.queue.is_empty());
    assert_eq!(s.pool.flush(1, 0), Flushed { wake: false, spawn: false });
}

#[test]
fn the_default_bounds_are_four_and_sixty_four() {
    let b = OffloadBounds::default();
    assert_eq!((b.floor, b.ceiling), (4, 64));
    let p: WorkerPool<u32> = WorkerPool::try_elastic(bounds(9, 3), 7);
    assert_eq!((p.floor, p.ceiling, p.id), (9, 9, 7));
}

#[test]
fn one_deadline_bounds_the_whole_wait() {
    let mut s = Sim::parked(bounds(2, 2), 0, 0);
    s.pool.close();
    let mut waited = 0;
    // Woken early each time, the wait that is left only shrinks.
    while let DropStep::Wait { left_us } = s.pool.drop_step(None, waited, false) {
        assert_eq!(left_us + waited, SHUTDOWN_DETACH_AFTER_US);
        waited += 300_000;
    }
    assert!(waited >= SHUTDOWN_DETACH_AFTER_US);
}
