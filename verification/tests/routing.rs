//! The operation table: what completions do to it, and what they hand back.
use std::sync::{Arc, Weak};
use uring_fs::conn::{FsConn, RecvWriteLease};
use uring_fs::engine::Engine;
use uring_fs::errno::Errno;
use uring_fs::file::{Anchor, File, Statx};
use uring_fs::names::{Personality, RwFlags};
use uring_fs::policy::RawOpenHow;
use uring_fs::sys::{
    pack_raw, TAG_FGETXATTR, TAG_OPEN, TAG_READV, TAG_STATX, TAG_TIMEOUT, TAG_WRITEV,
};
use uring_fs::table::{
    map_res, FsCore, FsOpState, FsOutcome, FsWaiter, IoVecs, LeaseHold, PumpDest, ReapedFs,
};

/// A descriptor that closes when it is dropped.
struct Fd;

type Core = FsCore<Fd, u32, u32, u32>;
type Reaped = ReapedFs<Fd, u32, u32, u32>;

const OP_SLOTS: u32 = 32;

fn engine() -> Engine {
    Engine::new(4096, Errno::EBUSY)
}

fn fd(raw: i32) -> File<Fd> {
    File::new(raw, Arc::new(Fd))
}

fn anchor() -> Anchor<Fd> {
    Anchor::from_shared(&fd(3))
}

fn chan(id: u32) -> FsWaiter<u32, u32, u32> {
    FsWaiter::Channel(id)
}

fn reap(core: &mut Core, tag: u8, slot: u32, generation: u32, res: i32) -> Reaped {
    core.on_cqe(tag, slot, generation, res, Statx::zeroed(), |_, _| Arc::new(Fd))
}

fn drain(core: &mut Core, tag: u8, slot: u32, generation: u32, res: i32) -> Reaped {
    core.on_drain_cqe(pack_raw(tag, slot, generation), res, Statx::zeroed(), |_, _| Arc::new(Fd))
}

fn reply(r: Reaped) -> FsOutcome<Fd> {
    match r {
        ReapedFs::Reply(_, out) => out,
        _ => panic!("no reply was delivered"),
    }
}

/// Sorted free list, and each operation's generation and state.
fn snapshot(c: &Core) -> (Vec<u32>, Vec<(u64, u8)>) {
    let mut free = c.op_free.clone();
    free.sort_unstable();
    let ops = c
        .ops
        .iter()
        .map(|e| {
            let code = match e.state.state {
                FsOpState::Free => 0u8,
                FsOpState::InFlight { tag } => tag,
            };
            (e.generation, code)
        })
        .collect();
    (free, ops)
}

/// The completions a kernel could deliver.
fn inflight(c: &Core) -> Vec<(u8, u32, u32)> {
    c.ops
        .iter()
        .enumerate()
        .filter_map(|(i, e)| match e.state.state {
            FsOpState::InFlight { tag } => Some((tag, i as u32, e.generation as u32)),
            FsOpState::Free => None,
        })
        .collect()
}

fn complete(core: &mut Core, t: u8, s: u32, g: u32) -> Reaped {
    reap(core, t, s, g, if t == TAG_OPEN { 77 } else { 16 })
}

#[test]
fn an_unknown_tag_is_refused_rather_than_staged_as_a_nop() {
    let mut eng = engine();
    let mut core = Core::new(8, 1);
    let before = snapshot(&core);

    // No arm for either tag.
    let r = core.submit_fd_meta(&mut eng, 0x7F, 1, fd(5), None, vec![1, 2, 3], 0, 0, 0, chan(1));
    let out = reply(r);
    assert_eq!(out.res, Err(Errno::EINVAL));
    assert_eq!(out.bufs, vec![vec![1u8, 2, 3]], "the value comes back");

    let r = core.submit_path_op(
        &mut eng,
        0x7E,
        1,
        anchor(),
        b"x".to_vec(),
        None,
        None,
        0,
        0,
        chan(2),
    );
    assert_eq!(reply(r).res, Err(Errno::EINVAL));

    assert!(inflight(&core).is_empty(), "nothing was staged");
    assert!(eng.staged.is_empty());
    assert_eq!(snapshot(&core), before, "no op slot was consumed");
}

#[test]
fn a_short_leased_write_is_an_error() {
    let mut eng = engine();
    let mut core = Core::new(8, 1);
    let file = fd(5);

    // Short: the kernel wrote less than the lease asked for.
    let hold = core.mint_hold(9);
    let staged =
        core.submit_pwritev2_leased(&mut eng, 0, file.another(), 0x1000, 8192, 0, 0, hold, chan(1));
    assert!(staged.is_ok(), "staged");
    let [(t, s, g)] = inflight(&core)[..] else { panic!("one op in flight") };
    assert_eq!(
        reply(reap(&mut core, t, s, g, 4096)).res,
        Err(Errno::EIO),
        "a short leased write surfaced as success"
    );

    // Full: the same submit at the written size is an ordinary success.
    let hold = core.mint_hold(9);
    let staged =
        core.submit_pwritev2_leased(&mut eng, 0, file, 0x1000, 8192, 0, 0, hold, chan(2));
    assert!(staged.is_ok(), "staged");
    let [(t, s, g)] = inflight(&core)[..] else { panic!("one op in flight") };
    assert_eq!(
        reply(reap(&mut core, t, s, g, 8192)).res,
        Ok(8192),
        "a full leased write is untouched"
    );
}

#[test]
fn the_last_shared_lease_releases_the_buffer() {
    let mut eng = engine();
    let mut core = Core::new(8, 1);
    let file = fd(5);
    let hold: LeaseHold = core.mint_hold(9);
    for off in [0u64, 4096] {
        let staged = core.submit_pwritev2_leased(
            &mut eng,
            0,
            file.another(),
            0x1000 + off as usize,
            4096,
            off,
            0,
            hold,
            FsWaiter::Embedded { owner: Some((0, 0)), cb: 1, on_fail: None },
        );
        assert!(staged.is_ok(), "staged");
    }
    assert!(core.lease_is_live(hold));

    let mut flight = inflight(&core);
    flight.sort();
    let [(ta, sa, ga), (tb, sb, gb)] = flight[..] else { panic!("two ops in flight") };
    // First completion: short. Its op fails; the buffer is withheld.
    let ReapedFs::Embedded(_, mut a, _) = reap(&mut core, ta, sa, ga, 100) else {
        panic!("an embedded waiter reaps embedded");
    };
    assert_eq!(a.result(), Err(Errno::EIO), "short fails its own op");
    assert_eq!(
        a.take_recv_lease(),
        None,
        "the buffer must not come back while a sibling reads it"
    );
    // Last completion: full. Its op succeeds and carries the id out.
    let ReapedFs::Embedded(_, mut b, _) = reap(&mut core, tb, sb, gb, 4096) else {
        panic!("an embedded waiter reaps embedded");
    };
    assert_eq!(b.result(), Ok(4096), "the sibling is unaffected");
    assert_eq!(b.take_recv_lease(), Some(9), "the last share surfaces the id exactly once");
    assert_eq!(b.take_recv_lease(), None);
    assert!(!core.lease_is_live(hold));
}

#[test]
fn a_drained_short_leased_write_is_an_error() {
    let mut eng = engine();
    let mut core = Core::new(8, 1);
    let hold = core.mint_hold(9);
    let staged =
        core.submit_pwritev2_leased(&mut eng, 0, fd(5), 0x1000, 8192, 0, 0, hold, chan(1));
    assert!(staged.is_ok(), "staged");
    let [(t, s, g)] = inflight(&core)[..] else { panic!("one op in flight") };
    // Short of the 8192 the lease asked for.
    assert_eq!(
        reply(drain(&mut core, t, s, g, 4096)).res,
        Err(Errno::EIO),
        "a short leased write survived the drain as a success"
    );
}

#[test]
fn a_drained_open_owns_its_fd() {
    let mut eng = engine();
    let mut core = Core::new(8, 1);
    let how = RawOpenHow { flags: 0, mode: 0, resolve: 0 };
    core.submit_open(&mut eng, 1, anchor(), b"x".to_vec(), how, false, chan(1));
    let [(t, s, g)] = inflight(&core)[..] else { panic!("one op in flight") };
    let opened = Arc::new(Fd);
    let weak = Arc::downgrade(&opened);
    let out = core.on_drain_cqe(pack_raw(t, s, g), 42, Statx::zeroed(), move |_, _| opened);
    assert!(weak.upgrade().is_some(), "the outcome owns the descriptor");
    // Nobody is left to take the outcome.
    drop(out);
    assert!(weak.upgrade().is_none(), "the drained open's fd was closed, not leaked");
}

#[test]
fn close_last_parked_vs_caller() {
    let mut eng = engine();
    let mut core = Core::new(8, 1);

    // (A) The caller drops before the completion: the op's share keeps the fd.
    let caller = fd(5);
    let weak = Arc::downgrade(&caller.fd);
    core.submit_rw(
        &mut eng,
        TAG_READV,
        1,
        caller.another(),
        vec![vec![0u8; 16]],
        0,
        0,
        chan(1),
    );
    drop(caller);
    assert!(
        weak.upgrade().is_some(),
        "parked clone must keep the fd alive after the caller drops"
    );
    let (t, s, g) = inflight(&core)[0];
    complete(&mut core, t, s, g);
    assert!(
        weak.upgrade().is_none(),
        "fd closes once both the parked clone and the caller are gone"
    );

    // (B) The completion before the caller drops: the caller's share keeps it.
    let caller = fd(5);
    let weak = Arc::downgrade(&caller.fd);
    core.submit_rw(
        &mut eng,
        TAG_WRITEV,
        1,
        caller.another(),
        vec![vec![0u8; 16]],
        0,
        0,
        chan(2),
    );
    let (t, s, g) = inflight(&core)[0];
    complete(&mut core, t, s, g);
    assert!(
        weak.upgrade().is_some(),
        "the caller's ref keeps the fd alive after the CQE reaps"
    );
    drop(caller);
    assert!(weak.upgrade().is_none(), "fd closes when the caller finally drops its last ref");
}

#[test]
fn teardown_drain_releases_parked_fds() {
    let mut eng = engine();
    let mut core = Core::new(8, 1);
    let mut weaks = Vec::new();
    // Four reads in flight, each parking a fd whose caller already dropped.
    for i in 0..4 {
        let f = fd(10 + i);
        weaks.push(Arc::downgrade(&f.fd));
        core.submit_rw(&mut eng, TAG_READV, 1, f, vec![vec![0u8; 16]], 0, 0, chan(1));
    }
    for (t, s, g) in inflight(&core) {
        let out = reply(drain(&mut core, t, s, g, -libc::ECANCELED));
        assert_eq!(out.res, Err(Errno::ECANCELED));
    }
    assert!(
        weaks.iter().all(|w| w.upgrade().is_none()),
        "teardown released every parked fd"
    );
    let mut free = core.op_free.clone();
    free.sort_unstable();
    assert_eq!(
        free,
        (0..8).collect::<Vec<_>>(),
        "teardown freed every op slot exactly once"
    );
}

/// A deterministic xorshift generator: a failing seed reproduces exactly.
struct Rng(u64);

impl Rng {
    fn new(seed: u64) -> Rng {
        Rng(seed ^ 0x9E37_79B9_7F4A_7C15 | 1)
    }
    fn next(&mut self) -> u64 {
        let mut x = self.0;
        x ^= x << 13;
        x ^= x >> 7;
        x ^= x << 17;
        self.0 = x;
        x
    }
    fn below(&mut self, n: u32) -> u32 {
        (self.next() % u64::from(n.max(1))) as u32
    }
}

fn take(
    r: Reaped,
    rng: &mut Rng,
    watched: &mut Vec<Weak<Fd>>,
    held: &mut Vec<File<Fd>>,
) {
    if let ReapedFs::Reply(_, out) = r {
        if let Some(f) = out.file {
            watched.push(Arc::downgrade(&f.fd));
            if rng.below(2) == 0 {
                held.push(f);
            }
        }
    }
}

fn run_one(seed: u64) {
    let mut rng = Rng::new(seed);
    let mut eng = engine();
    let mut core = Core::new(OP_SLOTS, 1);
    let anchor = anchor();
    // `upgrade() == None` means closed.
    let mut watched: Vec<Weak<Fd>> = Vec::new();
    let mut held: Vec<File<Fd>> = Vec::new();

    let steps = 24 + rng.below(72);
    for _ in 0..steps {
        match rng.below(7) {
            0 if !core.op_free.is_empty() => {
                let how = RawOpenHow { flags: 0, mode: 0, resolve: 0 };
                core.submit_open(&mut eng, 1, anchor.another(), b"x".to_vec(), how, false, chan(1));
            }
            1 | 2 if !core.op_free.is_empty() => {
                let f = fd(9);
                watched.push(Arc::downgrade(&f.fd));
                held.push(f.another());
                let tag = if rng.below(2) == 0 { TAG_READV } else { TAG_WRITEV };
                core.submit_rw(&mut eng, tag, 1, f, vec![vec![0u8; 16]], 0, 0, chan(1));
            }
            3 if !core.op_free.is_empty() => {
                let f = fd(9);
                watched.push(Arc::downgrade(&f.fd));
                held.push(f.another());
                core.submit_fd_meta(
                    &mut eng,
                    TAG_FGETXATTR,
                    1,
                    f,
                    Some(b"user.x".to_vec()),
                    vec![0u8; 64],
                    0,
                    0,
                    0,
                    chan(1),
                );
            }
            4 if !core.op_free.is_empty() => {
                core.submit_path_op(
                    &mut eng,
                    TAG_STATX,
                    1,
                    anchor.another(),
                    b"x".to_vec(),
                    None,
                    None,
                    0,
                    0x7ff,
                    chan(1),
                );
            }
            5 => {
                // A correct completion.
                let fly = inflight(&core);
                if !fly.is_empty() {
                    let (t, s, g) = fly[rng.below(fly.len() as u32) as usize];
                    let r = complete(&mut core, t, s, g);
                    take(r, &mut rng, &mut watched, &mut held);
                }
            }
            6 => {
                // An anomalous completion must change nothing.
                let fly = inflight(&core);
                let snap = snapshot(&core);
                match rng.below(3) {
                    0 if !fly.is_empty() => {
                        let (t, s, g) = fly[rng.below(fly.len() as u32) as usize];
                        reap(&mut core, t, s, g.wrapping_add(1), 16);
                    }
                    1 if !fly.is_empty() => {
                        let (t, s, g) = fly[rng.below(fly.len() as u32) as usize];
                        reap(&mut core, t ^ 0x0F, s, g, 16);
                    }
                    _ => {
                        if let Some(&fslot) = core.op_free.first() {
                            reap(&mut core, TAG_READV, fslot, 0, 16);
                        }
                    }
                }
                assert_eq!(snapshot(&core), snap, "anomalous CQE mutated state (seed {seed})");
            }
            _ => {}
        }
        // Drop a caller's file mid-flight now and then.
        if !held.is_empty() && rng.below(3) == 0 {
            let i = rng.below(held.len() as u32) as usize;
            held.swap_remove(i);
        }
    }

    while let Some(&(t, s, g)) = inflight(&core).first() {
        let r = complete(&mut core, t, s, g);
        take(r, &mut rng, &mut watched, &mut held);
    }
    held.clear();

    let leaked = watched.iter().filter(|w| w.upgrade().is_some()).count();
    assert_eq!(leaked, 0, "{leaked} fd(s) leaked after drain (seed {seed})");
    let mut free = core.op_free.clone();
    free.sort_unstable();
    assert_eq!(
        free,
        (0..OP_SLOTS).collect::<Vec<_>>(),
        "op slots leaked or double-freed (seed {seed})"
    );
}

#[test]
fn routing_survives_fuzzed_completion() {
    for seed in 0..64 {
        run_one(seed);
    }
}

#[test]
fn a_pump_read_routes_back_with_its_owner_and_bytes() {
    let mut eng = engine();
    let mut core = Core::new(4, 1);
    let file = fd(5);
    core.submit_pump_read(&mut eng, &file, PumpDest::Owned(Vec::with_capacity(8)), 8, 2, (3, 77))
        .expect("submit");
    // The op parks its own share: caller and op.
    assert_eq!(Arc::strong_count(&file.fd), 2);

    let [(tag, slot, g)] = inflight(&core)[..] else { panic!("one op in flight") };
    assert_eq!(tag, TAG_READV);
    let ReapedFs::Pump(done, owner) = reap(&mut core, tag, slot, g, 8) else {
        panic!("a pump read must route as ReapedFs::Pump");
    };
    assert_eq!(owner, (3, 77), "the owner survives the round trip");
    assert_eq!(done.result(), Ok(8));
    assert_eq!(Arc::strong_count(&file.fd), 1);
    let mut bufs = done.into_bufs();
    let b = bufs.pop().expect("the read's buffer comes back");
    assert!(bufs.is_empty());
    assert!(b.capacity() >= 8);
}

#[test]
fn a_full_op_table_refuses_a_pump_read_synchronously() {
    let mut eng = engine();
    let mut core = Core::new(1, 1);
    let file = fd(5);
    let submit = |core: &mut Core, eng: &mut Engine| {
        core.submit_pump_read(eng, &file, PumpDest::Owned(Vec::with_capacity(4)), 4, 0, (0, 1))
    };
    submit(&mut core, &mut eng).expect("first read takes the only op slot");
    assert_eq!(
        submit(&mut core, &mut eng),
        Err(Errno::EBUSY),
        "a full table must refuse, not drop"
    );
    // Completing the first read frees the slot for the next.
    let [(tag, slot, g)] = inflight(&core)[..] else { panic!("one op in flight") };
    assert!(matches!(reap(&mut core, tag, slot, g, 4), ReapedFs::Pump(..)));
    submit(&mut core, &mut eng).expect("freed slot serves the next");
}

#[test]
fn restart_codes_fold_to_eintr_like_the_kernels_rw_path() {
    for res in [-512, -513, -514, -516] {
        assert_eq!(map_res(res), Err(Errno::EINTR), "res {res}");
    }
    // 515 is not a restart code; a range would eat it.
    assert_eq!(map_res(-515), Err(Errno::from_raw(515)));
    assert_eq!(map_res(-libc::ECANCELED), Err(Errno::ECANCELED));
    assert_eq!(map_res(7), Ok(7));
}

#[test]
fn a_swept_owner_is_visible_to_what_runs_after_the_sweep() {
    let mut eng = engine();
    let mut core = Core::new(4, 1);
    let gone = (7u32, 3u64);

    assert!(!core.owner_is_gone(Some(gone)), "nothing swept yet");
    core.cancel_owned_by(&mut eng, &vec![gone]);
    assert!(core.owner_is_gone(Some(gone)), "the swept owner is gone");
    assert!(
        !core.owner_is_gone(Some((gone.0, gone.1 + 1))),
        "a later tenant of the same slot is live"
    );
    assert!(
        core.owner_is_gone(Some((gone.0, gone.1 - 1))),
        "a tenant before the swept one is gone too"
    );
    assert!(!core.owner_is_gone(Some((8, 3))), "another slot is its own");
    assert!(
        !core.owner_is_gone(None),
        "a reactor with no owners has no connection to lose"
    );
    let conn: FsConn<u32> = FsConn::new(Some(gone));
    assert!(conn.owner_is_gone(&core), "the continuation facade answers");
}

#[test]
fn one_sweep_covers_the_batch_and_an_idle_table_is_free() {
    let mut eng = engine();
    let mut core = Core::new(8, 1);
    let all_free = core.op_free.len();

    // Nothing in flight: the sweep records and returns.
    core.cancel_owned_by(&mut eng, &vec![(1, 1), (2, 1), (3, 1)]);
    assert!(core.owner_is_gone(Some((2, 1))), "recorded regardless");
    assert_eq!(core.op_free.len(), all_free, "nothing taken");
    assert!(eng.staged.is_empty(), "nothing staged");

    let file = fd(5);
    for o in [(10u32, 1u64), (11, 1), (12, 1), (13, 1)] {
        core.submit_pump_read(
            &mut eng,
            &file,
            PumpDest::Owned(Vec::with_capacity(8)),
            8,
            u64::MAX,
            o,
        )
        .expect("submit");
    }
    let flight = inflight(&core);
    assert_eq!(flight.len(), 4, "four parked reads");
    let staged = eng.staged.len();

    // One call for three of them; the fourth is untouched.
    core.cancel_owned_by(&mut eng, &vec![(10, 1), (11, 1), (12, 1)]);
    assert_eq!(eng.staged.len(), staged + 3, "one sweep reaches the whole batch");
    // What each cancellation names completes.
    let mut reaped = Vec::new();
    for (t, s, g) in flight {
        let named = eng.staged[staged..]
            .iter()
            .any(|q| q.addr == uring_fs::engine::Operand::Value(pack_raw(t, s, g)));
        if named {
            if let ReapedFs::Pump(_, owner) = reap(&mut core, t, s, g, -libc::ECANCELED) {
                reaped.push(owner);
            }
        }
    }
    reaped.sort_unstable();
    assert_eq!(reaped, vec![(10, 1), (11, 1), (12, 1)], "exactly the batch");
    assert_eq!(inflight(&core).len(), 1, "the owner outside it stays");
    assert!(
        core.owner_is_gone(Some((11, 1))) && !core.owner_is_gone(Some((13, 1))),
        "and the record is exactly the batch too"
    );
}

#[test]
fn cancel_owned_by_reaches_a_pump_read() {
    let mut eng = engine();
    let mut core = Core::new(4, 1);
    let file = fd(5);
    core.submit_pump_read(
        &mut eng,
        &file,
        PumpDest::Owned(Vec::with_capacity(8)),
        8,
        u64::MAX,
        (5, 9),
    )
    .expect("submit");
    assert_eq!(Arc::strong_count(&file.fd), 2, "op parks its clone");
    let [(t, s, g)] = inflight(&core)[..] else { panic!("one op in flight") };
    core.cancel_owned_by(&mut eng, &vec![(5, 9)]);
    assert_eq!(
        eng.staged.last().map(|q| q.addr),
        Some(uring_fs::engine::Operand::Value(pack_raw(t, s, g)))
    );
    let ReapedFs::Pump(done, owner) = reap(&mut core, t, s, g, -libc::ECANCELED) else {
        panic!("the cancelled read must still route as Pump");
    };
    assert_eq!(owner, (5, 9));
    assert_eq!(done.result(), Err(Errno::ECANCELED));
    assert_eq!(Arc::strong_count(&file.fd), 1, "clone released");
}

#[test]
fn a_completion_is_delivered_once() {
    let mut eng = engine();
    let mut core = Core::new(4, 1);
    core.submit_fsync(&mut eng, 1, fd(5), false, 0, 0, chan(8));
    let [(t, s, g)] = inflight(&core)[..] else { panic!("one op in flight") };
    match reap(&mut core, t, s, g, 0) {
        ReapedFs::Reply(to, out) => {
            assert_eq!(to, 8);
            assert_eq!(out.res, Ok(0));
        }
        _ => panic!("the reply must be delivered"),
    }
    assert!(matches!(reap(&mut core, t, s, g, 0), ReapedFs::Nothing));
    // The slot's next use does not hear the last one's completion.
    core.submit_fsync(&mut eng, 1, fd(5), false, 0, 0, chan(9));
    assert!(matches!(reap(&mut core, t, s, g, 0), ReapedFs::Nothing));
    assert_eq!(inflight(&core).len(), 1);
}

#[test]
fn payloads_outlive_what_happens_around_them() {
    let mut eng = engine();
    let mut core = Core::new(4, 1);
    core.submit_rw(&mut eng, TAG_WRITEV, 1, fd(5), vec![vec![1, 2, 3]], 0, 0, chan(1));
    let (t, s, g) = inflight(&core)[0];
    core.submit_fsync(&mut eng, 1, fd(6), false, 0, 0, chan(2));
    let other = inflight(&core).into_iter().find(|f| f.1 != s).expect("a second op");
    reap(&mut core, other.0, other.1, other.2, 0);
    assert_eq!(core.ops[s as usize].state.bufs, vec![vec![1, 2, 3]]);
    let out = reply(reap(&mut core, t, s, g, 3));
    assert_eq!(out.bufs, vec![vec![1, 2, 3]], "the buffers come back");
}

#[test]
fn an_operation_without_an_identity_is_refused() {
    let mut eng = engine();
    let mut core = Core::new(4, 1);
    let how = RawOpenHow { flags: 0, mode: 0, resolve: 0 };
    let r = core.submit_open(&mut eng, 0, anchor(), b"x".to_vec(), how, false, chan(1));
    assert!(matches!(r, ReapedFs::Reply(..)));
    assert!(eng.staged.is_empty());
}

#[test]
fn a_retracted_timer_says_so() {
    let mut eng = engine();
    let mut core = Core::new(4, 1);
    let mut conn: FsConn<u32> = FsConn::new(Some((1, 1)));
    let (_, timer) = conn.timeout(&mut core, &mut eng, 5, 0, 7);
    let timer = timer.expect("armed");
    conn.cancel_timeout(&mut core, &mut eng, timer);
    let [(t, s, g)] = inflight(&core)[..] else { panic!("one op in flight") };
    assert_eq!(t, TAG_TIMEOUT);
    let ReapedFs::Embedded(_, done, _) = reap(&mut core, t, s, g, -libc::ECANCELED) else {
        panic!("a timer reaps embedded");
    };
    assert_eq!(done.result(), Err(Errno::ECANCELED));
    assert!(done.was_refused(), "a retraction is not a teardown");
    // A stale token is inert.
    let staged = eng.staged.len();
    conn.cancel_timeout(&mut core, &mut eng, timer);
    assert_eq!(eng.staged.len(), staged);
    // An expiry is a success.
    let (_, timer) = conn.timeout(&mut core, &mut eng, 5, 0, 7);
    assert!(timer.is_some());
    let [(t, s, g)] = inflight(&core)[..] else { panic!("one op in flight") };
    let ReapedFs::Embedded(_, done, _) = reap(&mut core, t, s, g, -libc::ETIME) else {
        panic!("a timer reaps embedded");
    };
    assert_eq!(done.result(), Ok(0));
}

#[test]
fn a_timer_cap_is_per_owner() {
    let mut eng = engine();
    let mut core = Core::new(8, 1);
    core.set_timer_cap(1);
    let mut a: FsConn<u32> = FsConn::new(Some((1, 1)));
    let mut b: FsConn<u32> = FsConn::new(Some((2, 1)));
    assert!(a.timeout(&mut core, &mut eng, 1, 0, 1).1.is_some());
    assert!(a.timeout(&mut core, &mut eng, 1, 0, 1).1.is_none(), "one per owner");
    assert!(b.timeout(&mut core, &mut eng, 1, 0, 1).1.is_some());
}

fn me() -> Personality {
    Personality::from_raw(7).expect("a personality")
}

#[test]
fn a_range_of_the_receive_buffer_is_written_in_place() {
    let mut eng = engine();
    let mut core = Core::new(4, 1);
    let lease = RecvWriteLease { base: 0x1000, cap: 100, bid: 9, taken: false };
    let mut conn: FsConn<u32> = FsConn::new(Some((1, 1))).with_recv_lease(Some(lease));
    let src = [7u8; 10];
    let none = RwFlags::empty();
    let r = conn.pwritev2_from(&mut core, &mut eng, me(), fd(5), &src, 0x1005, 0, none, 1);
    assert!(matches!(r, ReapedFs::Nothing));
    assert!(conn.lease.is_some_and(|l| l.taken), "the claim was taken over");
    let (_, slot, _) = inflight(&core)[0];
    let e = &core.ops[slot as usize].state;
    assert_eq!(e.iov, IoVecs::Lease { at: 0x1005, len: 10 });
    assert!(e.bufs.is_empty(), "nothing was copied");
    assert_eq!(e.recv_lease.map(|h| h.bid), Some(9));
    // Outside the claim: written from a copy.
    let r = conn.pwritev2_from(&mut core, &mut eng, me(), fd(5), &src, 0x105e, 0, none, 2);
    assert!(matches!(r, ReapedFs::Nothing));
    let copied = core.ops.iter().find(|e| !e.state.bufs.is_empty()).expect("a copy");
    assert_eq!(copied.state.bufs, vec![src.to_vec()]);
    assert!(copied.state.recv_lease.is_none());
}

#[test]
fn a_refused_submission_reports_to_the_slot_staged_for_it() {
    let mut eng = engine();
    let mut core = Core::new(1, 1);
    assert!(core.has_free_op());
    let mut conn: FsConn<u32> = FsConn::new(None);
    conn.fsync(&mut core, &mut eng, me(), fd(5), 1);
    assert!(!core.has_free_op());
    let slot = Arc::new(3u32);
    let before = conn.stage_fail_sink(Arc::clone(&slot));
    let r = conn.preadv2(&mut core, &mut eng, me(), fd(5), vec![vec![1]], 0, RwFlags::empty(), 2);
    match r {
        ReapedFs::Refused(at, e, bufs) => {
            assert!(Arc::ptr_eq(&at, &slot));
            assert_eq!(e, Errno::EBUSY);
            assert_eq!(bufs, vec![vec![1]]);
        }
        _ => panic!("a refusal"),
    }
    assert!(conn.restore_fail_sink(before), "the submission armed it");
    assert!(conn.fail_sink.is_none());
    conn.carry_fail_sink(Some(Arc::clone(&slot)));
    assert!(conn.fail_sink.is_some());
    // Nothing staged, nobody told.
    let mut quiet: FsConn<u32> = FsConn::new(None);
    let r = quiet.fsync(&mut core, &mut eng, me(), fd(5), 3);
    assert!(matches!(r, ReapedFs::Nothing));
}
