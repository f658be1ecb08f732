//! Reading a directory off the loop, one batch at a time.
use std::collections::VecDeque;
use std::sync::Arc;
use uring_fs::conn::FsConn;
use uring_fs::dirwalk::{
    list_how, open_dir_error, BatchReader, Delivered, DirWalk, NameBatch, ReadDir, DIR_BATCH,
};
use uring_fs::engine::Engine;
use uring_fs::errno::{Errno, Error};
use uring_fs::file::{Anchor, File, Statx};
use uring_fs::names::Personality;
use uring_fs::policy::{RawOpenHow, SpecialFiles};
use uring_fs::sys::{O_DIRECTORY, O_NOFOLLOW, TAG_FGETXATTR, TAG_OPEN};
use uring_fs::table::{FsCore, FsDone, FsOpState, ReapedFs};

/// A directory stream that answers with `errno` once its names have run out.
struct Stream {
    names: VecDeque<Vec<u8>>,
    errno: i32,
}

impl Stream {
    fn readdir(&mut self) -> ReadDir {
        match self.names.pop_front() {
            Some(n) => ReadDir::Entry(n),
            None => ReadDir::End(self.errno),
        }
    }
}

fn read_batch(dp: &mut Stream) -> Result<NameBatch, Error> {
    let mut r = BatchReader::new();
    while r.wants_more() {
        let got = dp.readdir();
        r.offer(got);
    }
    r.finish()
}

#[test]
fn a_failed_readdir_is_an_error_not_end_of_directory() {
    let mut walk = DirWalk::new(Stream { names: VecDeque::new(), errno: libc::ENOTDIR });
    let mut dp = walk.next_batch().expect("no batch is in flight");
    let got = read_batch(&mut dp);
    match walk.deliver(Ok((got, dp))) {
        Delivered::Tell(r) => assert!(
            matches!(r, Err(Error::Errno(Errno::ENOTDIR))),
            "readdir failure delivered as Err(ENOTDIR), got {r:?}"
        ),
        Delivered::Discard(_) => panic!("the walk is still held"),
    }
}

#[test]
fn batches_hold_every_entry_once_and_in_order() {
    let names: Vec<Vec<u8>> = (0..600).map(|i| format!("f{i}").into_bytes()).collect();
    let mut read = vec![b".".to_vec(), b"..".to_vec()];
    read.extend(names.clone());
    let mut dp = Stream { names: read.into(), errno: 0 };
    let (mut all, mut sizes) = (Vec::new(), Vec::new());
    loop {
        let b = read_batch(&mut dp).expect("a batch");
        sizes.push(b.names.len());
        all.extend(b.names);
        if b.eod {
            break;
        }
    }
    assert_eq!(all, names);
    assert_eq!(sizes, [DIR_BATCH, DIR_BATCH, 600 - 2 * DIR_BATCH]);
}

#[test]
fn dirwalk_drop_closes_the_dir() {
    let mut walk = DirWalk::new(Stream { names: VecDeque::new(), errno: 0 });
    let to_close = walk.release();
    assert!(to_close.is_some(), "no batch in flight: closed at once");
    assert!(walk.dropped, "walk Drop ran");
    assert!(walk.dp.is_none(), "DIR* closed on drop, not leaked");

    // With a batch in flight the stream is closed when the batch is back.
    let mut walk = DirWalk::new(Stream { names: VecDeque::new(), errno: 0 });
    let mut dp = walk.next_batch().expect("no batch is in flight");
    assert!(walk.release().is_none());
    let got = read_batch(&mut dp);
    assert!(matches!(walk.deliver(Ok((got, dp))), Delivered::Discard(Some(_))));
}

#[test]
fn one_batch_at_a_time() {
    let mut walk = DirWalk::new(Stream { names: VecDeque::new(), errno: 0 });
    let dp = walk.next_batch().expect("no batch is in flight");
    assert!(matches!(walk.next_batch(), Err(Error::Errno(Errno::EBUSY))));
    assert!(matches!(
        walk.deliver(Ok((Ok(NameBatch { names: Vec::new(), eod: true }), dp))),
        Delivered::Tell(Ok(_))
    ));
    assert!(walk.next_batch().is_ok());
}

#[test]
fn a_batch_is_bounded_and_skips_the_dot_entries() {
    let mut names: VecDeque<Vec<u8>> = VecDeque::new();
    names.push_back(b".".to_vec());
    names.push_back(b"..".to_vec());
    for i in 0..300 {
        names.push_back(format!("n{i}").into_bytes());
    }
    let mut s = Stream { names, errno: 0 };
    let a = read_batch(&mut s).expect("a batch");
    assert_eq!(a.names.len(), DIR_BATCH);
    assert_eq!(DIR_BATCH, 256);
    assert!(!a.eod);
    assert_eq!(a.names[0], b"n0");
    let b = read_batch(&mut s).expect("the rest");
    assert_eq!(b.names.len(), 300 - 256);
    assert!(b.eod);
}

#[test]
fn a_directory_that_does_not_open_says_why() {
    assert!(matches!(open_dir_error(Err(Errno::EACCES)), Error::Errno(Errno::EACCES)));
    assert!(matches!(open_dir_error(Ok(0)), Error::Errno(_)));
    assert_eq!(list_how().flags & O_DIRECTORY, O_DIRECTORY);
}

struct Fd;

type Core = FsCore<Fd, u32, u32, u32>;

fn complete(core: &mut Core, client: u32, raw: i32, value: &[u8]) -> FsDone<Fd> {
    let (slot, tag, g) = core
        .ops
        .iter()
        .enumerate()
        .find_map(|(i, e)| match (&e.state.state, &e.state.waiter) {
            (
                FsOpState::InFlight { tag },
                Some(uring_fs::table::FsWaiter::Embedded { cb, .. }),
            ) if *cb == client => Some((i, *tag, e.generation as u32)),
            _ => None,
        })
        .expect("the client's op is in flight");
    let res = if tag == TAG_OPEN {
        raw
    } else {
        assert_eq!(tag, TAG_FGETXATTR);
        // The kernel writes the value into the operation's buffer.
        core.ops[slot].state.bufs[0][..value.len()].copy_from_slice(value);
        value.len() as i32
    };
    match core.on_cqe(tag, slot as u32, g, res, Statx::zeroed(), |_, _| Arc::new(Fd)) {
        ReapedFs::Embedded(cb, done, _) => {
            assert_eq!(cb, client, "each completion reaches its own continuation");
            done
        }
        _ => panic!("an on-loop operation reaps embedded"),
    }
}

struct Client {
    walk: DirWalk<Stream>,
    pending: VecDeque<Vec<u8>>,
    eod: bool,
    seen: usize,
    sum: u64,
}

#[test]
fn hybrid_listing_enriches_every_entry() {
    let n = 40usize;
    const CLIENTS: u32 = 3;
    let me = Personality::from_raw(1).expect("a personality");
    let mut core = Core::new(64, 1);
    let mut eng = Engine::new(4096, Errno::EBUSY);
    let anchor = Anchor::from_shared(&File::new(3, Arc::new(Fd)));
    let names: Vec<Vec<u8>> = (0..n).map(|i| format!("f{i}").into_bytes()).collect();
    const XVAL: &[u8] = b"val";
    let xsum = n as u64 * XVAL.iter().map(|&b| b as u64).sum::<u64>();

    let mut clients: Vec<Client> = (0..CLIENTS)
        .map(|_| Client {
            walk: DirWalk::new(Stream { names: names.iter().cloned().collect(), errno: 0 }),
            pending: VecDeque::new(),
            eod: false,
            seen: 0,
            sum: 0,
        })
        .collect();
    let mut busy = true;
    while busy {
        busy = false;
        // One entry of each client at a time, so their operations interleave.
        let mut opening: Vec<u32> = Vec::new();
        for (id, c) in clients.iter_mut().enumerate() {
            if c.pending.is_empty() && !c.eod {
                let mut dp = c.walk.next_batch().expect("no batch in flight");
                let got = read_batch(&mut dp);
                match c.walk.deliver(Ok((got, dp))) {
                    Delivered::Tell(Ok(batch)) => {
                        c.pending.extend(batch.names);
                        c.eod = batch.eod;
                    }
                    _ => panic!("batch"),
                }
            }
            if let Some(name) = c.pending.pop_front() {
                busy = true;
                let how = RawOpenHow { flags: O_NOFOLLOW, mode: 0, resolve: 0 };
                let mut conn: FsConn<u32> = FsConn::new(Some((id as u32, 0)));
                conn.open(
                    &mut core,
                    &mut eng,
                    me,
                    &anchor,
                    name,
                    how,
                    SpecialFiles::Guard,
                    id as u32,
                );
                opening.push(id as u32);
            }
        }
        for id in opening.iter().rev() {
            let f = complete(&mut core, *id, 100 + *id as i32, b"").file().expect("opened");
            let mut conn: FsConn<u32> = FsConn::new(Some((*id, 0)));
            conn.fgetxattr(&mut core, &mut eng, me, f, b"user.bench".to_vec(), vec![0u8; 64], *id);
            let done = complete(&mut core, *id, 0, XVAL);
            let nb = done.result().expect("read") as usize;
            let bufs = done.into_bufs();
            let c = &mut clients[*id as usize];
            c.seen += 1;
            for &x in &bufs[0][..nb] {
                c.sum += u64::from(x);
            }
        }
    }
    for c in &clients {
        assert_eq!(c.seen, n, "every entry enriched");
        assert_eq!(c.sum, xsum, "xattr values correct");
    }
}
