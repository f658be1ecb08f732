//! The handle other threads use, and the loop it talks to.
use std::sync::mpsc;
use std::sync::Arc;
use uring_fs::engine::Engine;
use uring_fs::errno::{Errno, Error};
use uring_fs::file::{Anchor, File, Statx};
use uring_fs::handle::{mkdir_path_how, FsHandle, FsInject, MkdirPath, MkdirStep};
use uring_fs::host::{
    abandon, drain_teardown, Dispatched, FsConfig, Routed, ShutdownHandle, UringFs,
};
use uring_fs::names::{Advice, Leaf, Personality, RwFlags};
use uring_fs::offload_pool::OffloadBounds;
use uring_fs::pending::FsPending;
use uring_fs::policy::{AtFlags, PrivilegedXattrs, RawOpenHow};
use uring_fs::sys::{
    pack_raw, AT_REMOVEDIR, AT_SYMLINK_NOFOLLOW, CONFINED_RESOLVE, IORING_CQE_F_MORE, O_CREAT,
    O_DIRECTORY, O_PATH, RESOLVE_BENEATH, RESOLVE_NO_SYMLINKS, TAG_CANCEL, TAG_FADVISE,
    TAG_FGETXATTR, TAG_FSETXATTR, TAG_MKDIRAT, TAG_OPEN, TAG_READV, TAG_STATX, TAG_UNLINKAT,
    TAG_WAKE, TAG_WRITEV,
};
use uring_fs::table::{FsOpState, FsOutcome, ReapedFs, XattrRemoval};

struct Fd;

type Handle<R> = FsHandle<Fd, R>;
type Host<R> = UringFs<Fd, R, u32, u32>;

fn fd(raw: i32) -> File<Fd> {
    File::new(raw, Arc::new(Fd))
}

fn me() -> Personality {
    Personality::from_raw(7).expect("a personality")
}

fn fsync<R>(reply: R) -> FsInject<Fd, R> {
    FsInject::Fsync { pers: 0, file: fd(2), datasync: false, offset: 0, length: 0, reply }
}

fn config() -> FsConfig {
    FsConfig { entries: 128, ops: 128, ..FsConfig::default() }
}

fn host<R>() -> Host<R> {
    match UringFs::new(config(), 1, Engine::new(64, Errno::EBUSY), true) {
        Ok(h) => h,
        Err(e) => panic!("UringFs::new: {e:?}"),
    }
}

#[test]
fn shutdown_disconnects_a_queued_injects_reply() {
    let mut h: Handle<mpsc::Sender<FsOutcome<Fd>>> = FsHandle::new();
    let (reply_tx, reply_rx) = mpsc::channel();
    assert!(
        h.send(fsync(reply_tx)).is_ok(),
        "the loop has not stopped yet, so this is accepted"
    );
    // The loop goes away with the inject still queued.
    drop(h);
    assert!(
        reply_rx.recv().is_err(),
        "a queued inject's caller was left parked after the loop went away"
    );
}

#[test]
fn loom_inject_after_stop_is_refused() {
    let mut h: Handle<u32> = FsHandle::new();
    ShutdownHandle {}.shutdown(&mut h);
    let refused = h.send(fsync(1)).is_err();
    assert!(refused, "send accepted an inject after stop was set");
    assert!(h.take().is_none(), "a refused inject was queued anyway");
}

#[test]
fn privileged_xattrs_matches_only_listed_prefixes() {
    let empty = PrivilegedXattrs::new();
    assert!(!empty.permits(b"trusted.example_etag"), "an empty policy grants nothing");

    let p = PrivilegedXattrs::new().allow_prefix(b"trusted.example_").expect("valid prefix");
    assert!(p.permits(b"trusted.example_etag"));
    assert!(p.permits(b"trusted.example_"), "the prefix itself");
    // Neighbouring names that merely look similar are not covered.
    assert!(!p.permits(b"trusted.example"), "one byte short");
    assert!(!p.permits(b"trusted.other"));
    assert!(!p.permits(b"security.capability"));
    assert!(!p.permits(b"user.trusted.example_etag"));
    // A prefix match is anchored at the start, never a substring search.
    assert!(!p.permits(b"x.trusted.example_etag"));
}

#[test]
fn privileged_xattrs_accumulates_prefixes() {
    let p = PrivilegedXattrs::new()
        .allow_prefix(b"trusted.a_")
        .and_then(|p| p.allow_prefix(b"trusted.b_"))
        .expect("valid prefixes");
    assert!(p.permits(b"trusted.a_one"));
    assert!(p.permits(b"trusted.b_two"));
    assert!(!p.permits(b"trusted.c_three"));
}

#[test]
fn a_prefix_that_would_grant_everything_is_refused() {
    assert!(PrivilegedXattrs::new().allow_prefix(b"").is_err());
}

/// Complete the one operation in flight as a kernel would that knows only
/// personality 7, with `data` in every file.
fn kernel(afs: &mut Host<u32>, data: &[u8]) -> FsOutcome<Fd> {
    let (slot, tag, g) = afs
        .fs
        .ops
        .iter()
        .enumerate()
        .find_map(|(i, e)| match e.state.state {
            FsOpState::InFlight { tag } => Some((i, tag, e.generation as u32)),
            FsOpState::Free => None,
        })
        .expect("an op in flight");
    let sqe = afs.eng.staged.last().expect("staged");
    let res = if sqe.personality != 7 {
        -libc::EINVAL
    } else if tag == TAG_OPEN {
        55
    } else {
        let buf = &mut afs.fs.ops[slot].state.bufs[0];
        let n = buf.len().min(data.len());
        buf[..n].copy_from_slice(&data[..n]);
        n as i32
    };
    match afs.dispatch(
        pack_raw(tag, slot as u32, g),
        res,
        0,
        false,
        Statx::zeroed(),
        |_, _| Arc::new(Fd),
    ) {
        Dispatched::Reaped(ReapedFs::Reply(_, out)) => out,
        _ => panic!("a reply"),
    }
}

fn turn(afs: &mut Host<u32>, h: &mut Handle<u32>) {
    let msg = h.take().expect("a request");
    assert!(matches!(afs.inject(msg), Routed::Submitted(ReapedFs::Nothing)));
}

#[test]
fn stale_token_and_stale_personality_are_inert() {
    let mut afs: Host<u32> = host();
    let mut h: Handle<u32> = FsHandle::new();
    let anchor = Anchor::from_shared(&fd(3));
    let how = RawOpenHow { flags: 0, mode: 0, resolve: 0 };
    assert!(h.open(me(), &anchor, b"f", how, 1).is_ok());
    turn(&mut afs, &mut h);
    let f = FsPending::resolved(kernel(&mut afs, b"")).wait_file().expect("open");
    assert_eq!(f.as_raw_fd(), 55);

    let sent = h.preadv2(me(), &f, vec![vec![0u8; 4]], 0, RwFlags::empty(), 2);
    assert!(sent.is_ok());
    turn(&mut afs, &mut h);
    let (res, bufs) = FsPending::resolved(kernel(&mut afs, b"data")).wait();
    assert_eq!(res.unwrap(), 4);
    assert_eq!(&bufs[0], b"data");

    // A personality nothing registered: the caller sees EINVAL.
    let bogus = Personality::from_raw(4242).expect("not zero");
    let sent = h.preadv2(bogus, &f, vec![vec![0u8; 4]], 0, RwFlags::empty(), 3);
    assert!(sent.is_ok());
    turn(&mut afs, &mut h);
    let (res, _b) = FsPending::resolved(kernel(&mut afs, b"data")).wait();
    assert!(matches!(res, Err(Error::Errno(Errno::EINVAL))));
    h.close(f).unwrap();
}

#[test]
fn each_request_carries_what_it_was_made_with() {
    let mut h: Handle<u32> = FsHandle::new();
    let f = fd(9);
    let a = Anchor::from_shared(&fd(3));
    let leaf = || Leaf::new(b"x").expect("a leaf");
    let how = RawOpenHow { flags: 0, mode: 0, resolve: 0 };

    h.open(me(), &a, b"d/x", how, 1).unwrap();
    match h.take() {
        Some(FsInject::Open { pers, path, how, reply, .. }) => {
            assert_eq!((pers, reply), (7, 1));
            assert_eq!(path, b"d/x");
            assert_eq!(how.resolve, RESOLVE_BENEATH | RESOLVE_NO_SYMLINKS);
        }
        _ => panic!("an open"),
    }
    // A policy of the caller's own is left alone, but for a confined open.
    let own = RawOpenHow { resolve: RESOLVE_BENEATH, ..how };
    h.open(me(), &a, b"x", own, 1).unwrap();
    assert!(matches!(h.take(), Some(FsInject::Open { how, .. }) if how == own));
    h.open_confined(me(), &a, b"x", own, 1).unwrap();
    assert!(matches!(
        h.take(),
        Some(FsInject::Open { how, .. }) if how.resolve == CONFINED_RESOLVE
    ));
    h.pwritev2(me(), &f, vec![vec![1, 2]], 5, RwFlags::empty(), 2).ok().unwrap();
    assert!(matches!(
        h.take(),
        Some(FsInject::Rw { tag: TAG_WRITEV, pers: 7, off: 5, rw_flags: 0, reply: 2, .. })
    ));
    h.start_preadv2(me(), &f, vec![vec![0; 2]], 6, RwFlags::empty(), 2).unwrap();
    assert!(matches!(h.take(), Some(FsInject::Rw { tag: TAG_READV, off: 6, .. })));
    h.fdatasync(me(), &f, 3).unwrap();
    assert!(matches!(h.take(), Some(FsInject::Fsync { datasync: true, offset: 0, length: 0, .. })));
    h.fsync_range(me(), &f, false, 10, 20, 3).unwrap();
    assert!(matches!(
        h.take(),
        Some(FsInject::Fsync { datasync: false, offset: 10, length: 20, .. })
    ));
    h.fgetxattr(me(), &f, b"user.a".to_vec(), vec![0; 8], 4).ok().unwrap();
    assert!(matches!(h.take(), Some(FsInject::FdMeta { tag: TAG_FGETXATTR, pers: 7, .. })));
    h.fsetxattr(me(), &f, b"user.a".to_vec(), vec![1], 2, 4).ok().unwrap();
    assert!(matches!(h.take(), Some(FsInject::FdMeta { tag: TAG_FSETXATTR, aux32: 2, .. })));
    h.fgetxattr_as_root(&f, b"trusted.a".to_vec(), vec![0; 8], 5).ok().unwrap();
    assert!(matches!(h.take(), Some(FsInject::FdMetaAsRoot { reply: 5, .. })));
    h.fremovexattr(&f, b"trusted.a".to_vec(), 6).unwrap();
    assert!(matches!(h.take(), Some(FsInject::FRemoveXattr { reply: 6, .. })));
    h.ftruncate(me(), &f, 100, 7).unwrap();
    assert!(matches!(h.take(), Some(FsInject::FdMeta { .. })));
    h.fadvise(me(), &f, 1, 2, Advice::WillNeed, 7).unwrap();
    match h.take() {
        Some(FsInject::FdMeta { tag, off, aux32, .. }) => {
            assert_eq!((tag, off, aux32), (TAG_FADVISE, 1, libc::POSIX_FADV_WILLNEED as u32));
        }
        _ => panic!("an advice"),
    }
    let no_follow = AtFlags { bits: AT_SYMLINK_NOFOLLOW };
    h.statx(me(), &a, leaf(), no_follow, 0x7ff, 8).unwrap();
    match h.take() {
        Some(FsInject::PathOp { tag, n1, flags, len_arg, .. }) => {
            assert_eq!((tag, flags, len_arg), (TAG_STATX, AT_SYMLINK_NOFOLLOW, 0x7ff));
            assert_eq!(n1, b"x");
        }
        _ => panic!("a statx"),
    }
    h.mkdirat(me(), &a, leaf(), 0o755, 9).unwrap();
    assert!(matches!(h.take(), Some(FsInject::PathOp { tag: TAG_MKDIRAT, len_arg: 0o755, .. })));
    h.rmdirat(me(), &a, leaf(), 9).unwrap();
    assert!(matches!(
        h.take(),
        Some(FsInject::PathOp { tag: TAG_UNLINKAT, flags: AT_REMOVEDIR, .. })
    ));
    h.unlinkat(me(), &a, leaf(), 9).unwrap();
    assert!(matches!(h.take(), Some(FsInject::PathOp { tag: TAG_UNLINKAT, flags: 0, .. })));
    h.linkat_file(me(), &f, &a, leaf(), 9).unwrap();
    assert!(matches!(h.take(), Some(FsInject::LinkatFile { pers: 7, .. })));
    assert!(h.take().is_none());
}

#[test]
fn a_refused_argument_reaches_no_queue() {
    let mut h: Handle<u32> = FsHandle::new();
    let a = Anchor::from_shared(&fd(3));
    let how = RawOpenHow { flags: 0, mode: 0, resolve: 0 };
    assert!(matches!(h.open(me(), &a, b"", how, 1), Err(Error::Validation(_))));
    assert!(matches!(h.open_confined(me(), &a, b"", how, 1), Err(Error::Validation(_))));
    let leaf = Leaf::new(b"l").expect("a leaf");
    assert!(h.symlinkat(me(), b"", &a, leaf, 1).is_err());
    // Nor does a path that would end early.
    let nul = b"a\0b";
    let why = |r: Result<(), Error>| match r {
        Err(Error::Validation(why)) => why,
        _ => panic!("a refusal"),
    };
    assert_eq!(why(h.open(me(), &a, nul, how, 1)), "path contains NUL");
    assert_eq!(why(h.start_open(me(), &a, nul, how, 1)), "path contains NUL");
    assert_eq!(why(h.open_confined(me(), &a, nul, how, 1)), "path contains NUL");
    let leaf = Leaf::new(b"l").expect("a leaf");
    assert_eq!(why(h.symlinkat(me(), nul, &a, leaf, 1)), "path contains NUL");
    assert!(h.queue.is_empty());
}

#[test]
fn a_stopped_loop_gives_the_buffers_back() {
    let mut h: Handle<u32> = FsHandle::new();
    let f = fd(9);
    h.fsync(me(), &f, 1).unwrap();
    ShutdownHandle {}.shutdown(&mut h);
    match h.preadv2(me(), &f, vec![vec![1, 2, 3]], 0, RwFlags::empty(), 2) {
        Err((Error::Errno(Errno::ECONNABORTED), bufs)) => assert_eq!(bufs, vec![vec![1, 2, 3]]),
        _ => panic!("refused, with its buffers"),
    }
    assert!(matches!(h.fsync(me(), &f, 3), Err(Error::Errno(Errno::ECONNABORTED))));
    // What was accepted before the stop is answered.
    let answered = drain_teardown(&mut h);
    assert_eq!(answered.len(), 1);
    assert_eq!(answered[0].0, 1);
    assert_eq!(answered[0].1.res, Err(Errno::ECONNABORTED));
    assert!(h.queue.is_empty());
}

#[test]
fn what_is_abandoned_gives_its_buffers_back() {
    let msg = FsInject::Rw {
        tag: TAG_WRITEV,
        pers: 7,
        file: fd(9),
        bufs: vec![vec![4, 5]],
        off: 0,
        rw_flags: 0,
        reply: 3u32,
    };
    let (reply, out) = abandon(msg);
    assert_eq!(reply, 3);
    assert_eq!(out.res, Err(Errno::ECONNABORTED));
    assert_eq!(out.bufs, vec![vec![4, 5]]);
}

#[test]
fn completions_are_told_apart_by_their_tag() {
    let mut afs: Host<u32> = host();
    let mut go = |ud, flags, stopping| {
        afs.dispatch(ud, 0, flags, stopping, Statx::zeroed(), |_, _| Arc::new(Fd))
    };
    assert!(matches!(
        go(pack_raw(TAG_WAKE, 0, 0), IORING_CQE_F_MORE, false),
        Dispatched::Wake { rearm: true }
    ));
    assert!(matches!(go(pack_raw(TAG_WAKE, 0, 0), 0, false), Dispatched::Wake { rearm: true }));
    assert!(matches!(go(pack_raw(TAG_WAKE, 0, 0), 0, true), Dispatched::Wake { rearm: false }));
    assert!(matches!(go(pack_raw(TAG_CANCEL, 0, 0), 0, false), Dispatched::Cancel));
    assert!(matches!(go(pack_raw(0x01, 0, 0), 0, false), Dispatched::Foreign));
    assert!(matches!(
        go(pack_raw(TAG_READV, 3, 9), 0, false),
        Dispatched::Reaped(ReapedFs::Nothing)
    ));
}

#[test]
fn a_torn_down_completion_is_counted_off() {
    let mut afs: Host<u32> = host();
    let mut h: Handle<u32> = FsHandle::new();
    let f = fd(9);
    assert!(h.preadv2(me(), &f, vec![vec![0u8; 4]], 0, RwFlags::empty(), 2).is_ok());
    turn(&mut afs, &mut h);
    let ud = afs.take_staged()[0].user_data;
    assert_eq!(afs.inflight, 1);
    // Only an open's number is ever owned.
    let unowned = |_, _| -> Arc<Fd> { panic!("not an open") };
    let r = afs.drain(ud, 4, IORING_CQE_F_MORE, Statx::zeroed(), unowned);
    assert!(matches!(r, ReapedFs::Reply(2, out) if out.res == Ok(4)));
    assert_eq!(afs.inflight, 1, "more of it follow");
    let r = afs.drain(ud, 4, 0, Statx::zeroed(), unowned);
    assert!(matches!(r, ReapedFs::Nothing));
    assert_eq!(afs.inflight, 0);
}

#[test]
fn only_an_opens_number_is_owned() {
    let mut afs: Host<u32> = host();
    let mut h: Handle<u32> = FsHandle::new();
    let f = fd(9);
    let unowned = |_, _| -> Arc<Fd> { panic!("not a successful open") };
    assert!(h.preadv2(me(), &f, vec![vec![0u8; 4]], 0, RwFlags::empty(), 2).is_ok());
    turn(&mut afs, &mut h);
    let ud = afs.take_staged()[0].user_data;
    assert!(matches!(
        afs.dispatch(ud, 4, 0, false, Statx::zeroed(), unowned),
        Dispatched::Reaped(ReapedFs::Reply(2, _))
    ));
    let how = RawOpenHow { flags: 0, mode: 0, resolve: 0 };
    assert!(h.open(me(), &Anchor::from_shared(&f), b"f", how, 3).is_ok());
    turn(&mut afs, &mut h);
    let ud = afs.take_staged()[0].user_data;
    assert!(matches!(
        afs.dispatch(ud, -libc::ENOENT, 0, false, Statx::zeroed(), unowned),
        Dispatched::Reaped(ReapedFs::Reply(3, _))
    ));
    // Nor is that of a completion nobody waits for.
    assert!(matches!(
        afs.dispatch(ud, 7, 0, false, Statx::zeroed(), unowned),
        Dispatched::Reaped(ReapedFs::Nothing)
    ));
}

#[test]
fn a_privileged_removal_is_checked_on_the_loop() {
    let mut afs: Host<u32> = host();
    let remove = |name: &[u8]| FsInject::FRemoveXattr {
        file: fd(9),
        name: name.to_vec(),
        reply: 4u32,
    };
    match afs.inject(remove(b"trusted.mine_a")) {
        Routed::Removal(XattrRemoval::Refused(4, out)) => {
            assert_eq!(out.res, Err(Errno::EPERM));
        }
        _ => panic!("no policy, no removal"),
    }
    afs.set_privileged_xattrs(
        PrivilegedXattrs::new().allow_prefix(b"trusted.mine_").expect("a prefix"),
    );
    assert!(matches!(
        afs.inject(remove(b"trusted.mine_a")),
        Routed::Removal(XattrRemoval::Run { reply: 4, .. })
    ));
}

#[test]
fn only_a_server_owned_attribute_is_written_without_an_identity() {
    let mut afs: Host<u32> = host();
    afs.set_privileged_xattrs(
        PrivilegedXattrs::new().allow_prefix(b"trusted.mine_").expect("a prefix"),
    );
    let mut h: Handle<u32> = FsHandle::new();
    let f = fd(9);
    for (name, personality) in [
        (&b"user.note"[..], 7),
        (&b"trusted.other"[..], 7),
        (&b"trusted.mine_a"[..], 0),
    ] {
        assert!(h.fsetxattr(me(), &f, name.to_vec(), vec![1], 0, 1).is_ok());
        turn(&mut afs, &mut h);
        assert_eq!(afs.eng.staged.last().expect("staged").personality, personality);
    }
    // A read of the same name stays under its caller's identity.
    assert!(h.fgetxattr(me(), &f, b"trusted.mine_a".to_vec(), vec![0; 4], 1).is_ok());
    turn(&mut afs, &mut h);
    assert_eq!(afs.eng.staged.last().expect("staged").personality, 7);
}

#[test]
fn a_loop_runs_until_told_to_stop_or_nothing_is_to_come() {
    let mut afs: Host<u32> = host();
    assert!(!afs.runs_on(false), "nothing to come: it would wait for ever");
    let mut h: Handle<u32> = FsHandle::new();
    h.fsync(me(), &fd(9), 1).unwrap();
    h.fdatasync(me(), &fd(9), 2).unwrap();
    let routed = afs.drain_injects(&mut h);
    assert_eq!(routed.len(), 2);
    assert!(routed.iter().all(|r| matches!(r, Routed::Submitted(ReapedFs::Nothing))));
    let sqes = afs.take_staged();
    assert_eq!(sqes.len(), 2);
    assert!(afs.eng.staged.is_empty());
    assert_eq!(afs.inflight, 2);
    assert!(afs.runs_on(false) && !afs.runs_on(true));
    for (i, sqe) in sqes.iter().enumerate() {
        match afs.dispatch(sqe.user_data, 0, 0, false, Statx::zeroed(), |_, _| Arc::new(Fd)) {
            Dispatched::Reaped(ReapedFs::Reply(to, out)) => {
                assert_eq!(to, i as u32 + 1);
                assert_eq!(out.res, Ok(0));
            }
            _ => panic!("a reply"),
        }
    }
    assert_eq!(afs.inflight, 0);
    assert!(!afs.runs_on(false));
}

#[test]
fn a_configuration_is_checked() {
    let d = FsConfig::default();
    assert_eq!((d.entries, d.ops), (4096, 32768));
    assert!(d.check().is_ok());
    let engine = || Engine::new(64, Errno::EBUSY);
    for bad in [FsConfig { entries: 0, ..d }, FsConfig { ops: 0, ..d }] {
        assert!(bad.check().is_err());
        assert!(Host::<u32>::new(bad, 1, engine(), true).is_err());
    }
    let mut offload = OffloadBounds::default();
    offload.ceiling = 1_000_000;
    assert!(matches!(FsConfig { offload, ..d }.check(), Err(Error::Validation(_))));
    assert!(matches!(Host::<u32>::new(config(), 1, engine(), false), Err(Error::Validation(_))));
}

#[test]
fn directories_are_made_part_by_part() {
    let mut m = MkdirPath::begin(b"a//b/").expect("a path");
    assert!(matches!(m.missing(), MkdirStep::Make(p) if p == b"a"));
    // One that exists is as good as one that was made.
    assert!(matches!(
        m.made(Err(Error::Errno(Errno::EEXIST))),
        MkdirStep::Enter(p) if p == b"a"
    ));
    assert!(matches!(m.entered(Ok(())), MkdirStep::Make(p) if p == b"b"));
    assert!(matches!(m.made(Ok(())), MkdirStep::Enter(p) if p == b"b"));
    assert!(matches!(m.entered(Ok(())), MkdirStep::Done));
    // Made again, over what the first left, it makes nothing.
    let mut dirs: Vec<Vec<u8>> = vec![b"a".to_vec()];
    for made in [1, 0] {
        let mut m = MkdirPath::begin(b"a/b").expect("a path");
        let (mut at, mut count) = (Vec::new(), 0);
        let mut step = m.missing();
        loop {
            step = match step {
                MkdirStep::Make(p) => {
                    let dir = [&at[..], &p].concat();
                    if dirs.contains(&dir) {
                        m.made(Err(Error::Errno(Errno::EEXIST)))
                    } else {
                        dirs.push(dir);
                        count += 1;
                        m.made(Ok(()))
                    }
                }
                MkdirStep::Enter(p) => {
                    at.extend(p);
                    m.entered(Ok(()))
                }
                MkdirStep::Done => break,
                MkdirStep::Fail(e) => panic!("{e:?}"),
            };
        }
        assert_eq!((at, count), (b"ab".to_vec(), made));
    }
    // A failure ends it.
    let mut m = MkdirPath::begin(b"a").expect("a path");
    m.missing();
    assert!(matches!(
        m.made(Err(Error::Errno(Errno::EACCES))),
        MkdirStep::Fail(Error::Errno(Errno::EACCES))
    ));
    let mut m = MkdirPath::begin(b"a/../b").expect("a path");
    m.missing();
    m.made(Ok(()));
    assert!(matches!(m.entered(Ok(())), MkdirStep::Fail(Error::Validation(_))));
    for bad in [&b""[..], b"/a", b"a\0b", b"/a\0"] {
        assert!(matches!(MkdirPath::begin(bad), Err(Error::Validation(_))));
    }
    let how = mkdir_path_how();
    assert_eq!(how.flags & (O_PATH | O_DIRECTORY), O_PATH | O_DIRECTORY);
    assert_eq!(how.flags & O_CREAT, 0);
}
