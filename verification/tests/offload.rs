//! Jobs handed to the pool and their way back to the loop.
use std::collections::VecDeque;
use uring_fs::blocking::Blocking;
use uring_fs::conn::FsConn;
use uring_fs::errno::{Errno, Error};
use uring_fs::file::{Anchor, File};
use uring_fs::offload::{
    finish_offload, job_result, CompletionSink, OffloadRegistry,
};
use uring_fs::policy::PrivilegedXattrs;
use std::sync::Arc;

/// What a job left behind: its value, or that it unwound.
type Ran<V> = Result<V, ()>;

#[test]
fn offload_delivers_result_on_loop() {
    let conn: FsConn<u32> = FsConn::new(Some((0, 0)));
    let mut reg: OffloadRegistry<&str> = OffloadRegistry::new();
    let mut sink: CompletionSink<Ran<u64>> = CompletionSink::new();
    let token = conn.offload(&mut reg, "continuation");
    finish_offload(&mut sink, token, Ok(6u64 * 7));
    assert!(sink.wake(), "the loop is woken");
    let mut fired = reg.take_pool_completions(&mut sink);
    assert_eq!(fired.len(), 1);
    let d = fired.pop().unwrap();
    assert_eq!(d.owner, Some((0, 0)));
    assert_eq!(d.deliver, "continuation");
    assert_eq!(d.outcome.ok(), Some(42));
}

#[test]
fn offload_delivers_even_when_the_job_panics() {
    let conn: FsConn<u32> = FsConn::new(Some((0, 0)));
    let mut reg: OffloadRegistry<u8> = OffloadRegistry::new();
    let mut sink: CompletionSink<Ran<u64>> = CompletionSink::new();
    let token = conn.offload(&mut reg, 0);
    finish_offload(&mut sink, token, Err(()));
    assert!(sink.wake());
    let fired = reg.take_pool_completions(&mut sink);
    assert_eq!(
        fired.first().map(|d| d.outcome.is_err()),
        Some(true),
        "the continuation must run, carrying the panic"
    );
    assert!(
        reg.reg.is_empty(),
        "a panicked job must not strand its registry entry"
    );
}

#[test]
fn offload_result_maps_a_panicked_job_to_eio() {
    let conn: FsConn<u32> = FsConn::new(Some((0, 0)));
    let mut reg: OffloadRegistry<&str> = OffloadRegistry::new();
    let mut sink: CompletionSink<Ran<Result<u64, Error>>> = CompletionSink::new();
    let ok_token = conn.offload(&mut reg, "ok");
    let bad_token = conn.offload(&mut reg, "bad");
    finish_offload(&mut sink, bad_token, Err(()));
    finish_offload(&mut sink, ok_token, Ok(Ok(41u64)));
    let (mut ok, mut bad) = (None, None);
    assert!(sink.wake());
    for d in reg.take_pool_completions(&mut sink) {
        let r = job_result(d.outcome);
        if d.deliver == "ok" {
            ok = Some(r);
        } else {
            bad = Some(r);
        }
    }
    assert!(
        matches!(ok, Some(Ok(41))),
        "the Ok job's value passes through: {ok:?}"
    );
    assert!(
        matches!(bad, Some(Err(Error::Errno(Errno::EIO)))),
        "a panicked job is exactly EIO: {bad:?}"
    );
    assert!(
        reg.reg.is_empty(),
        "no continuation may be stranded in the registry"
    );
    // A job's own error is passed through as it is.
    assert!(matches!(
        job_result::<u64>(Ok(Err(Error::Errno(Errno::ENOENT)))),
        Err(Error::Errno(Errno::ENOENT))
    ));
}

#[test]
fn wake_drain_fires_every_completion() {
    let conn: FsConn<u32> = FsConn::new(Some((0, 0)));
    let mut reg: OffloadRegistry<usize> = OffloadRegistry::new();
    let mut sink: CompletionSink<Ran<()>> = CompletionSink::new();
    let tokens: Vec<u64> = (0..8).map(|i| conn.offload(&mut reg, i)).collect();
    for t in tokens {
        finish_offload(&mut sink, t, Ok(()));
    }
    let mut count = 0;
    assert!(sink.wake());
    for d in reg.take_pool_completions(&mut sink) {
        assert!(d.outcome.is_ok(), "a unit job never panics");
        assert_eq!(d.deliver, count, "in the order they finished");
        count += 1;
    }
    assert_eq!(count, 8);
}

/// Every order in which the steps of two sequences can interleave.
fn interleavings(a: usize, b: usize) -> Vec<Vec<bool>> {
    if a == 0 {
        return vec![vec![false; b]];
    }
    if b == 0 {
        return vec![vec![true; a]];
    }
    let mut all = Vec::new();
    for mut rest in interleavings(a - 1, b) {
        rest.insert(0, true);
        all.push(rest);
    }
    for mut rest in interleavings(a, b - 1) {
        rest.insert(0, false);
        all.push(rest);
    }
    all
}

#[test]
fn loom_offload_wakeup_loses_nothing() {
    // Two workers, each recording and then poking; the loop waking and
    // draining in between, wherever it gets to run.
    for order in interleavings(2, 2) {
        for at in 0..5 {
            let mut reg: OffloadRegistry<u8> = OffloadRegistry::new();
            let mut sink: CompletionSink<u64> = CompletionSink::new();
            let (mut first, mut second) = (0, 0);
            let mut seen = 0usize;
            let mut look = |sink: &mut CompletionSink<u64>| {
                if sink.wake() {
                    seen += sink.drain().len();
                }
            };
            for (i, is_first) in order.iter().enumerate() {
                if i == at {
                    look(&mut sink);
                }
                let step = if *is_first { &mut first } else { &mut second };
                if *step == 0 {
                    sink.record(if *is_first { 0 } else { 1 }, 7);
                } else {
                    sink.poke();
                }
                *step += 1;
            }
            // The loop's next armed read completes while anything is left.
            while !sink.queue.is_empty() {
                let woken = sink.wake();
                assert!(woken, "a completion was left on the queue");
                seen += sink.drain().len();
            }
            assert_eq!(seen, 2);
            assert!(
                reg.take_pool_completions(&mut sink).is_empty(),
                "an unregistered token produced a delivery"
            );
        }
    }
}

#[test]
fn loom_offload_delivers_each_completion_once() {
    for at in 0..3 {
        let mut reg: OffloadRegistry<u8> = OffloadRegistry::new();
        let mut sink: CompletionSink<()> = CompletionSink::new();
        let token = reg.register_offload(None, 1);
        let mut delivered = 0usize;
        let mut look = |sink: &mut CompletionSink<()>, reg: &mut OffloadRegistry<u8>| {
            if sink.wake() {
                delivered += reg.take_pool_completions(sink).len();
            }
        };
        if at == 0 {
            look(&mut sink, &mut reg);
        }
        sink.record(token, ());
        if at == 1 {
            look(&mut sink, &mut reg);
        }
        sink.poke();
        look(&mut sink, &mut reg);
        assert_eq!(delivered, 1, "the completion was delivered {delivered} times");
        assert!(
            reg.take_pool_completions(&mut sink).is_empty(),
            "the continuation fired twice for one completion"
        );
    }
}

#[test]
fn an_unregistered_token_is_discarded() {
    let mut reg: OffloadRegistry<u8> = OffloadRegistry::new();
    let mut sink: CompletionSink<u64> = CompletionSink::new();
    let token = reg.register_offload(None, 5);
    finish_offload(&mut sink, token.wrapping_add(1), 1);
    finish_offload(&mut sink, token, 2);
    let fired = reg.take_pool_completions(&mut sink);
    assert_eq!(fired.len(), 1);
    assert_eq!((fired[0].deliver, fired[0].outcome), (5, 2));
    assert_eq!(sink.queue, VecDeque::new());
}

struct Fd;

fn fd(raw: i32) -> File<Fd> {
    File::new(raw, Arc::new(Fd))
}

#[test]
fn a_blocking_call_takes_its_descriptor_along() {
    let conn: FsConn<u32> = FsConn::new(None);
    let mut reg: OffloadRegistry<u8> = OffloadRegistry::new();
    let f = fd(5);
    let (_, job) = conn.flistxattr::<Fd, u32, u8>(&mut reg, f.another(), 1);
    assert!(matches!(job, Blocking::ListXattr(g) if g.raw == 5));
    let (_, job) = conn.fstatfs::<Fd, u32, u8>(&mut reg, f.another(), 1);
    assert!(matches!(job, Blocking::StatFs(g) if g.raw == 5));
    let a = Anchor::from_shared(&f);
    let (_, job) = conn.fstatfs_anchor::<Fd, u32, u8>(&mut reg, &a, 1);
    assert!(matches!(job, Blocking::StatFsAnchor(g) if g.raw == 5));
    let (_, job) = conn.fget_zfs_attrs::<Fd, u32, u8>(&mut reg, f.another(), 1);
    assert!(matches!(job, Blocking::GetAttrs(g) if g.raw == 5));
    let (_, job) = conn.fset_zfs_attrs::<Fd, u32, u8>(&mut reg, f.another(), 77, 1);
    assert!(matches!(job, Blocking::SetAttrs(g, 77) if g.raw == 5));
    let (_, job) =
        conn.copy_file_range::<Fd, u32, u8>(&mut reg, f.another(), fd(6), 1, 2, 3, 1);
    match job {
        Blocking::Copy { src, dst, range } => {
            assert_eq!((src.raw, dst.raw), (5, 6));
            assert_eq!((range.off_src, range.off_dst, range.len), (1, 2, 3));
        }
        _ => panic!("a copy"),
    }
    assert_eq!(reg.reg.len(), 6, "each has a continuation of its own");
}

#[test]
fn an_attribute_is_removed_only_under_a_policy() {
    let conn: FsConn<u32> = FsConn::new(None);
    let mut reg: OffloadRegistry<u8> = OffloadRegistry::new();
    let policy = PrivilegedXattrs::new().allow_prefix(b"trusted.mine_").expect("prefix");
    let (_, job) =
        conn.fremovexattr::<Fd, u32, u8>(&mut reg, &policy, fd(5), b"trusted.mine_x".to_vec(), 1);
    assert!(matches!(job, Blocking::RemoveXattr { name, .. } if name == b"trusted.mine_x"));
    let (_, job) =
        conn.fremovexattr::<Fd, u32, u8>(&mut reg, &policy, fd(5), b"security.x".to_vec(), 1);
    assert!(matches!(job, Blocking::Refuse(Error::Errno(Errno::EPERM))));
}
