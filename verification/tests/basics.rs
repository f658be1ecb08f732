//! Numbers, names and small values.
use std::sync::Arc;
use uring_fs::engine::{Engine, Operand, Sqe};
use uring_fs::errno::{Errno, Error};
use uring_fs::file::{Anchor, File, Statx};
use uring_fs::names::{
    is_dot, is_dot_dot, leaf_to_cstring, relative_defect, relative_parts, Advice, Leaf,
    PathDefect, Personality, RwFlags,
};
use uring_fs::pending::FsPending;
use uring_fs::policy::{
    apply_special_file_guard, confine_resolve, creation_refused, is_step_refused, open_parts,
    statx_at_flags, AtFlags, RawOpenHow, SpecialFiles,
};
use uring_fs::sys;
use uring_fs::table::FsOutcome;
use uring_fs::tally::Tally;
use uring_fs::text::{push_decimal, push_hex32};
use uring_fs::bytes::{bytes_eq, contains_byte, copied, split, starts_with};

struct Fd;

fn fd(raw: i32) -> File<Fd> {
    File::new(raw, Arc::new(Fd))
}

#[test]
fn errnos_have_the_kernels_numbers() {
    for (e, n) in [
        (Errno::EPERM, libc::EPERM),
        (Errno::ENOENT, libc::ENOENT),
        (Errno::EINTR, libc::EINTR),
        (Errno::EIO, libc::EIO),
        (Errno::ENXIO, libc::ENXIO),
        (Errno::E2BIG, libc::E2BIG),
        (Errno::EBADF, libc::EBADF),
        (Errno::EACCES, libc::EACCES),
        (Errno::EBUSY, libc::EBUSY),
        (Errno::EEXIST, libc::EEXIST),
        (Errno::EXDEV, libc::EXDEV),
        (Errno::ENOTDIR, libc::ENOTDIR),
        (Errno::EINVAL, libc::EINVAL),
        (Errno::ERANGE, libc::ERANGE),
        (Errno::ENODATA, libc::ENODATA),
        (Errno::ETIME, libc::ETIME),
        (Errno::EOPNOTSUPP, libc::EOPNOTSUPP),
        (Errno::ECONNABORTED, libc::ECONNABORTED),
        (Errno::ECANCELED, libc::ECANCELED),
    ] {
        assert_eq!(e.raw(), n);
        assert_eq!(Errno::from_raw(n), e);
    }
    assert_eq!(Errno::from_raw(515), Errno::Other(515));
    for n in 1..200 {
        assert_eq!(Errno::from_raw(n).raw(), n);
    }
}

#[test]
fn constants_have_the_kernels_values() {
    assert_eq!(sys::O_CREAT, libc::O_CREAT as u64);
    assert_eq!(sys::O_NONBLOCK, libc::O_NONBLOCK as u64);
    assert_eq!(sys::O_DIRECTORY, libc::O_DIRECTORY as u64);
    assert_eq!(sys::O_NOFOLLOW, libc::O_NOFOLLOW as u64);
    assert_eq!(sys::O_CLOEXEC, libc::O_CLOEXEC as u64);
    assert_eq!(sys::O_PATH, libc::O_PATH as u64);
    assert_eq!(sys::O_TMPFILE_ONLY | sys::O_DIRECTORY, libc::O_TMPFILE as u64);
    assert_eq!(sys::RESOLVE_NO_XDEV, libc::RESOLVE_NO_XDEV);
    assert_eq!(sys::RESOLVE_NO_MAGICLINKS, libc::RESOLVE_NO_MAGICLINKS);
    assert_eq!(sys::RESOLVE_NO_SYMLINKS, libc::RESOLVE_NO_SYMLINKS);
    assert_eq!(sys::RESOLVE_BENEATH, libc::RESOLVE_BENEATH);
    assert_eq!(sys::RESOLVE_IN_ROOT, libc::RESOLVE_IN_ROOT);
    assert_eq!(sys::AT_SYMLINK_NOFOLLOW, libc::AT_SYMLINK_NOFOLLOW as u32);
    assert_eq!(sys::AT_SYMLINK_FOLLOW, libc::AT_SYMLINK_FOLLOW as u32);
    assert_eq!(sys::AT_REMOVEDIR, libc::AT_REMOVEDIR as u32);
    assert_eq!(sys::AT_EMPTY_PATH, libc::AT_EMPTY_PATH as u32);
    assert_eq!(sys::DT_UNKNOWN, libc::DT_UNKNOWN);
    assert_eq!(sys::DT_DIR, libc::DT_DIR);
    assert_eq!(sys::DT_REG, libc::DT_REG);
    assert_eq!(sys::SPLICE_F_MOVE, libc::SPLICE_F_MOVE);
    assert_eq!(uring_fs::listing::STATX_BASIC_STATS, libc::STATX_BASIC_STATS);
    assert_eq!(uring_fs::listing::STATX_TYPE, libc::STATX_TYPE);
    assert_eq!(u32::from(uring_fs::file::S_IFMT), libc::S_IFMT);
    assert_eq!(u32::from(uring_fs::file::S_IFDIR), libc::S_IFDIR);
    assert_eq!(uring_fs::names::RWF_DSYNC, libc::RWF_DSYNC as u32);
    assert_eq!(uring_fs::names::RWF_SYNC, libc::RWF_SYNC as u32);
    assert_eq!(uring_fs::names::RWF_NOWAIT, libc::RWF_NOWAIT as u32);
    assert_eq!(uring_fs::names::RWF_APPEND, libc::RWF_APPEND as u32);
    assert_eq!(uring_fs::names::RWF_HIPRI, libc::RWF_HIPRI as u32);
}

#[test]
fn advice_has_the_kernels_codes() {
    for (a, n) in [
        (Advice::Normal, libc::POSIX_FADV_NORMAL),
        (Advice::Random, libc::POSIX_FADV_RANDOM),
        (Advice::Sequential, libc::POSIX_FADV_SEQUENTIAL),
        (Advice::WillNeed, libc::POSIX_FADV_WILLNEED),
        (Advice::DontNeed, libc::POSIX_FADV_DONTNEED),
        (Advice::NoReuse, libc::POSIX_FADV_NOREUSE),
    ] {
        assert_eq!(a.code(), n as u32);
    }
    assert_eq!(RwFlags::empty().bits, 0);
}

#[test]
fn user_data_comes_apart_as_it_was_put_together() {
    for (t, s, g) in [(0x81u8, 5u32, 9u32), (0x92, 0xff_ffff, u32::MAX), (0, 0, 0)] {
        assert_eq!(sys::unpack_raw(sys::pack_raw(t, s, g)), (t, s, g));
    }
    assert_eq!(sys::gen_low(0x1_0000_0007), 7);
}

#[test]
fn a_personality_is_not_zero() {
    assert!(Personality::from_raw(0).is_none());
    assert_eq!(Personality::from_raw(9).map(|p| p.id()), Some(9));
}

#[test]
fn a_leaf_is_one_name() {
    for bad in [&b""[..], b".", b"..", b"a/b", b"/", b"a\0b"] {
        assert!(matches!(Leaf::new(bad), Err(Error::Validation(_))), "{bad:?}");
    }
    let leaf = Leaf::new(b"name").expect("a leaf");
    assert_eq!(leaf_to_cstring(leaf), b"name");
    assert_eq!(Leaf::new(b"...").expect("a leaf").to_cstring(), b"...");
    assert!(is_dot(b".") && !is_dot(b".."));
    assert!(is_dot_dot(b"..") && !is_dot_dot(b"."));
}

#[test]
fn a_relative_path_has_its_defect_named() {
    assert!(relative_defect(b"a/b").is_none());
    assert!(matches!(relative_defect(b"/a"), Some(PathDefect::EmptyComponent)));
    assert!(matches!(relative_defect(b""), Some(PathDefect::EmptyComponent)));
    assert!(matches!(relative_defect(b"a//b"), Some(PathDefect::EmptyComponent)));
    assert!(matches!(relative_defect(b"a/./b"), Some(PathDefect::Dot)));
    assert!(matches!(relative_defect(b"../a"), Some(PathDefect::DotDot)));
    assert!(matches!(relative_defect(b"a\0"), Some(PathDefect::Nul)));
    let (parts, defect) = relative_parts(b"a/bc");
    assert!(defect.is_none());
    assert_eq!(parts, vec![b"a".to_vec(), b"bc".to_vec()]);
}

#[test]
fn byte_strings() {
    assert!(bytes_eq(b"ab", b"ab") && !bytes_eq(b"ab", b"a"));
    assert!(starts_with(b"abc", b"ab") && !starts_with(b"ab", b"abc"));
    assert!(contains_byte(b"abc", b'b') && !contains_byte(b"abc", b'd'));
    assert_eq!(copied(b"xy"), b"xy");
    assert_eq!(split(b"a//b", b'/'), vec![b"a".to_vec(), b"".to_vec(), b"b".to_vec()]);
}

#[test]
fn an_open_is_confined_and_guarded() {
    assert_eq!(confine_resolve(0), sys::CONFINED_RESOLVE);
    // A scope of the caller's own stands in for the root.
    let rooted = confine_resolve(sys::RESOLVE_IN_ROOT);
    assert_eq!(rooted & sys::RESOLVE_IN_ROOT, sys::RESOLVE_IN_ROOT);
    assert_eq!(rooted & sys::RESOLVE_BENEATH, 0);
    let mut raw = RawOpenHow { flags: 0, mode: 0, resolve: 0 };
    assert!(apply_special_file_guard(&mut raw, SpecialFiles::Guard));
    assert_eq!(raw.flags & sys::O_NONBLOCK, sys::O_NONBLOCK);
    // It was the caller's own, so it is not taken off again.
    assert!(!apply_special_file_guard(&mut raw, SpecialFiles::Guard));
    let mut raw = RawOpenHow { flags: 0, mode: 0, resolve: 0 };
    assert!(!apply_special_file_guard(&mut raw, SpecialFiles::Allow));
    assert_eq!(raw.flags, 0);
    assert!(creation_refused(sys::O_CREAT) && !creation_refused(sys::O_PATH));
    let step = |flags, resolve| is_step_refused(RawOpenHow { flags, mode: 0, resolve });
    assert!(step(0, sys::RESOLVE_IN_ROOT) && step(sys::O_CREAT, 0) && !step(0, 0));
    let (path, how) =
        open_parts(b"a/b", RawOpenHow { flags: 1, mode: 2, resolve: 0 }).expect("a path");
    assert_eq!(path, b"a/b");
    assert_eq!((how.flags, how.mode), (1, 2));
    assert_eq!(how.resolve, sys::RESOLVE_BENEATH | sys::RESOLVE_NO_SYMLINKS);
    match open_parts(b"", how) {
        Err(Error::Validation(text)) => assert_eq!(text, "uring_fs open: empty path"),
        _ => panic!("an empty path"),
    }
    assert_eq!(statx_at_flags(AtFlags::empty()) & sys::AT_EMPTY_PATH, 0);
}

#[test]
fn a_shared_file_is_the_same_descriptor() {
    let f = fd(5);
    let g = f.another();
    assert_eq!(g.as_raw_fd(), 5);
    assert!(Arc::ptr_eq(&f.fd, &g.fd), "shared, not copied");
    assert_eq!(Arc::strong_count(&f.fd), 2);
    let a = Anchor::from_shared(&f);
    assert_eq!(a.raw_fd(), 5);
    assert_eq!(Arc::strong_count(&a.another().fd), 4);
}

#[test]
fn an_anchor_is_a_directory() {
    assert!(Anchor::from_fd(5, Arc::new(Fd), Ok(0o040755)).is_ok());
    assert!(matches!(
        Anchor::from_fd(5, Arc::new(Fd), Ok(0o100644)),
        Err(Error::Validation(_))
    ));
    assert!(matches!(
        Anchor::from_file(&fd(5), Err(Errno::EBADF)),
        Err(Error::Errno(Errno::EBADF))
    ));
    assert!(Statx { mode: 0o040755, ..Statx::zeroed() }.is_dir());
    assert!(!Statx { mode: 0o120777, ..Statx::zeroed() }.is_dir());
}

fn out(res: Result<i32, Errno>) -> FsOutcome<Fd> {
    FsOutcome { res, bufs: vec![vec![1, 2]], file: Some(fd(4)), stat: Some(Statx::zeroed()) }
}

#[test]
fn a_reply_is_read_as_what_was_asked_for() {
    let (n, bufs) = FsPending::resolved(out(Ok(2))).wait();
    assert_eq!((n.unwrap(), bufs), (2, vec![vec![1, 2]]));
    assert!(FsPending::resolved(out(Ok(0))).wait_file().is_ok());
    assert!(FsPending::resolved(out(Ok(0))).wait_statx().is_ok());
    assert!(FsPending::resolved(out(Ok(0))).wait_unit().is_ok());
    assert_eq!(FsPending::resolved(out(Ok(9))).wait_count().unwrap(), 9);
    let (n, buf) = FsPending::resolved(out(Ok(1))).wait_buf();
    assert_eq!((n.unwrap(), buf), (1, vec![1, 2]));
    assert!(FsPending::resolved(out(Ok(0))).statx().is_some());
    assert!(FsPending::resolved(out(Ok(0))).file().is_some());
    assert!(FsPending::resolved(out(Err(Errno::EIO))).file().is_none());
    assert!(matches!(
        FsPending::resolved(out(Err(Errno::EIO))).wait_unit(),
        Err(Error::Errno(Errno::EIO))
    ));
    // A loop that is gone answers for all of them.
    let gone = || FsPending::<Fd>::gone();
    assert!(matches!(gone().wait().0, Err(Error::Errno(Errno::ECONNABORTED))));
    assert!(matches!(gone().wait_file(), Err(Error::Errno(Errno::ECONNABORTED))));
    assert!(matches!(gone().wait_unit(), Err(Error::Errno(Errno::ECONNABORTED))));
    assert!(gone().into_outcome().is_err());
    assert!(gone().statx().is_none());
}

#[test]
fn numbers_are_written_out() {
    let mut s = String::from("n=");
    push_decimal(&mut s, 0);
    push_decimal(&mut s, 18_446_744_073_709_551_615);
    assert_eq!(s, "n=018446744073709551615");
    let mut s = String::new();
    push_hex32(&mut s, 0xdead_beef);
    assert_eq!(s, "0xdeadbeef");
    let mut s = String::new();
    push_hex32(&mut s, 0x2a);
    assert_eq!(s, "0x0000002a");
}

#[test]
fn a_full_queue_refuses() {
    let mut eng = Engine::new(1, Errno::EBUSY);
    assert!(eng.stage(Sqe::zeroed()).is_ok());
    assert_eq!(eng.stage(Sqe::zeroed()), Err(Errno::EBUSY));
    assert_eq!(eng.staged.len(), 1);
    assert_eq!(eng.staged[0].addr, Operand::Value(0));
}

#[test]
fn a_tally_counts_up_and_down() {
    let mut t = Tally::new();
    assert_eq!(t.get(7), 0);
    t.bump(7);
    t.bump(7);
    t.bump(8);
    assert_eq!((t.get(7), t.get(8)), (2, 1));
    assert_eq!(t.release(7), 1);
    assert_eq!(t.release(7), 0);
    assert_eq!((t.get(7), t.get(8)), (0, 1));
}
