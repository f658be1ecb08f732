//! Walks of one step after another, driven against a directory tree held in
//! memory.
use std::collections::{BTreeMap, HashMap};
use std::sync::Arc;
use uring_fs::conn::FsConn;
use uring_fs::engine::Engine;
use uring_fs::errno::{Errno, Error};
use uring_fs::file::{Anchor, File, Statx};
use uring_fs::names::{Leaf, Personality};
use uring_fs::offload::{finish_offload, CompletionSink, OffloadRegistry};
use uring_fs::policy::{RawOpenHow, SpecialFiles};
use uring_fs::sys::{
    CONFINED_RESOLVE, O_CREAT, O_DIRECTORY, O_NONBLOCK, O_PATH, RESOLVE_IN_ROOT,
};
use uring_fs::table::{FsCore, FsDone, FsOpState, ReapedFs};
use uring_fs::walk::{ChainStep, MkdirNext, OpenStep, StepPath};

struct Fd;

type Core = FsCore<Fd, u32, u32, u32>;
type Derive = Box<dyn Fn(&Anchor<Fd>) -> Result<Vec<u8>, Error>>;

const OWNER0: Option<(u32, u64)> = Some((0, 0));

fn me() -> Personality {
    Personality::from_raw(7).expect("a personality")
}

fn plain() -> RawOpenHow {
    RawOpenHow { flags: 0, mode: 0, resolve: 0 }
}

fn dir_how() -> RawOpenHow {
    RawOpenHow { flags: O_PATH | O_DIRECTORY, mode: 0, resolve: 0 }
}

fn fixed(path: &str, how: RawOpenHow) -> OpenStep<Derive> {
    OpenStep { path: StepPath::Fixed(path.as_bytes().to_vec()), who: me(), how }
}

/// What a path is.
#[derive(Clone, Copy, PartialEq)]
enum Node {
    Dir,
    File,
    Fifo,
}

/// A directory tree, and what its descriptors name.
struct Tree {
    nodes: BTreeMap<String, Node>,
    fds: HashMap<i32, String>,
    next: i32,
}

impl Tree {
    fn new(nodes: &[(&str, Node)]) -> Tree {
        let mut t = Tree { nodes: BTreeMap::new(), fds: HashMap::new(), next: 100 };
        t.nodes.insert(String::new(), Node::Dir);
        for (p, n) in nodes {
            t.nodes.insert(p.to_string(), *n);
        }
        t
    }

    fn root(&mut self) -> Anchor<Fd> {
        let raw = self.grant("");
        Anchor::from_shared(&File::new(raw, Arc::new(Fd)))
    }

    fn grant(&mut self, path: &str) -> i32 {
        self.next += 1;
        self.fds.insert(self.next, path.to_string());
        self.next
    }

    fn resolve(&self, dirfd: i32, path: &str) -> String {
        let base = &self.fds[&dirfd];
        if base.is_empty() { path.to_string() } else { format!("{base}/{path}") }
    }

    /// The kernel's answer to an open.
    fn open(&mut self, dirfd: i32, path: &str, how: RawOpenHow) -> i32 {
        assert_eq!(how.resolve & CONFINED_RESOLVE, CONFINED_RESOLVE, "every open is confined");
        let full = self.resolve(dirfd, path);
        match self.nodes.get(&full).copied() {
            None => -libc::ENOENT,
            Some(n) if how.flags & O_DIRECTORY != 0 && n != Node::Dir => -libc::ENOTDIR,
            Some(Node::Fifo) => {
                assert!(how.flags & O_NONBLOCK != 0, "an unguarded open parks on a FIFO");
                -libc::ENXIO
            }
            Some(_) => self.grant(&full),
        }
    }

    fn mkdir(&mut self, dirfd: i32, name: &str) -> i32 {
        let full = self.resolve(dirfd, name);
        if self.nodes.contains_key(&full) {
            return -libc::EEXIST;
        }
        self.nodes.insert(full, Node::Dir);
        0
    }

    fn is_dir(&self, raw: i32) -> bool {
        self.nodes[&self.fds[&raw]] == Node::Dir
    }
}

/// Complete the one operation in flight with the tree's answer.
fn complete(core: &mut Core, tree: &mut Tree) -> FsDone<Fd> {
    let (slot, tag) = core
        .ops
        .iter()
        .enumerate()
        .find_map(|(i, e)| match e.state.state {
            FsOpState::InFlight { tag } => Some((i, tag)),
            FsOpState::Free => None,
        })
        .expect("an op in flight");
    let e = &core.ops[slot];
    let dirfd = e.state.anchor.as_ref().expect("an anchor").raw;
    let path = String::from_utf8(e.state.path.clone().expect("a path")).expect("utf-8");
    let res = match e.state.how {
        Some(how) => tree.open(dirfd, &path, how),
        None => tree.mkdir(dirfd, &path),
    };
    let g = e.generation as u32;
    match core.on_cqe(tag, slot as u32, g, res, Statx::zeroed(), |_, _| Arc::new(Fd)) {
        ReapedFs::Embedded(_, done, owner) => {
            assert_eq!(owner, OWNER0);
            done
        }
        _ => panic!("an on-loop operation reaps embedded"),
    }
}

/// Walk a chain to its answer.
fn drive(
    core: &mut Core,
    eng: &mut Engine,
    tree: &mut Tree,
    steps: Vec<OpenStep<Derive>>,
) -> FsDone<Fd> {
    let mut conn: FsConn<u32> = FsConn::new(OWNER0);
    let root = tree.root();
    let (mut chain, cb) = match conn.open_chain::<Fd, u32, u32, Derive>(&root, steps, 1) {
        Ok(begun) => begun,
        Err(ReapedFs::Embedded(_, done, _)) => return done,
        Err(_) => panic!("a refusal answers its callback"),
    };
    let mut step = chain.next_step();
    loop {
        step = match step {
            ChainStep::Derive(d, at) => chain.named(d(&at)),
            ChainStep::Open { who, at, name, how, guarded } => {
                conn.open_component(core, eng, who, at, name, how, guarded, cb);
                chain.opened(complete(core, tree))
            }
            ChainStep::Check(f) => chain.checked(&f, tree.is_dir(f.raw)),
            ChainStep::Answer(done) => return done,
        };
    }
}

fn setup() -> (Core, Engine) {
    (Core::new(16, 1), Engine::new(64, Errno::EBUSY))
}

fn nested() -> Tree {
    Tree::new(&[("a", Node::Dir), ("a/b", Node::Dir), ("a/b/leaf", Node::File)])
}

#[test]
fn a_chain_reaches_a_file_two_directories_down() {
    let (mut core, mut eng) = setup();
    let mut tree = nested();
    let done = drive(
        &mut core,
        &mut eng,
        &mut tree,
        vec![fixed("a/b", dir_how()), fixed("leaf", plain())],
    );
    let f = done.file().expect("the leaf must be delivered");
    assert_eq!(tree.fds[&f.raw], "a/b/leaf");
}

#[test]
fn a_chains_last_step_cannot_park_on_a_fifo() {
    let (mut core, mut eng) = setup();
    let mut tree = Tree::new(&[("a", Node::Dir), ("a/pipe", Node::Fifo)]);
    let how = RawOpenHow { flags: 1 | 0x200, mode: 0, resolve: 0 };
    let done = drive(
        &mut core,
        &mut eng,
        &mut tree,
        vec![fixed("a", dir_how()), fixed("pipe", how)],
    );
    assert_eq!(
        done.result(),
        Err(Errno::from_raw(libc::ENXIO)),
        "a FIFO with no reader must answer, not park a worker"
    );
}

#[test]
fn a_derived_step_names_the_next_directory() {
    let (mut core, mut eng) = setup();
    let mut tree = nested();
    let derive: Derive = Box::new(|prev| {
        assert!(prev.raw_fd() > 0, "a real directory");
        Ok(b"b/leaf".to_vec())
    });
    let done = drive(
        &mut core,
        &mut eng,
        &mut tree,
        vec![
            fixed("a", dir_how()),
            OpenStep { path: StepPath::Derived(derive), who: me(), how: plain() },
        ],
    );
    assert!(done.file().is_some(), "the derived name must resolve");
}

#[test]
fn a_chain_from_a_continuation_opens() {
    let (mut core, mut eng) = setup();
    let mut tree = nested();
    // One completion, then a chain from inside it.
    let conn: FsConn<u32> = FsConn::new(OWNER0);
    let mut reg: OffloadRegistry<u8> = OffloadRegistry::new();
    let mut sink: CompletionSink<u64> = CompletionSink::new();
    let token = conn.offload(&mut reg, 1);
    finish_offload(&mut sink, token, 1u64);
    assert!(sink.wake());
    let fired = reg.take_pool_completions(&mut sink);
    assert_eq!(fired.len(), 1);
    let done = drive(&mut core, &mut eng, &mut tree, vec![fixed("a", plain())]);
    assert!(done.file().is_some(), "the chain resolved");
}

#[test]
fn a_mid_chain_screen_refuses_the_way_the_entry_screen_does() {
    let (mut core, mut eng) = setup();
    let mut tree = nested();
    let derive: Derive = Box::new(|_| Ok(b"../escape".to_vec()));
    let mid = drive(
        &mut core,
        &mut eng,
        &mut tree,
        vec![
            fixed("a", dir_how()),
            OpenStep { path: StepPath::Derived(derive), who: me(), how: plain() },
        ],
    );
    assert_eq!(
        mid.result(),
        Err(Errno::EINVAL),
        "the mid-chain screen refuses the same defect"
    );
    assert!(mid.was_refused(), "a mid-chain refusal must not read as the kernel's verdict");
}

fn refused(what: &str, r: ReapedFs<Fd, u32, u32, u32>) {
    match r {
        ReapedFs::Embedded(_, done, _) => {
            assert_eq!(done.result(), Err(Errno::EINVAL), "{what}");
            assert!(done.was_refused(), "{what}");
        }
        _ => panic!("{what}: the refusal was dropped"),
    }
}

#[test]
fn every_entry_screen_answers_instead_of_dropping() {
    let (mut core, mut eng) = setup();
    let mut tree = nested();
    let at = tree.root();
    let mut c: FsConn<u32> = FsConn::new(OWNER0);
    for (what, path) in [("an absolute open", "/etc/hostname"), ("an empty open", "")] {
        let r = c.open(
            &mut core,
            &mut eng,
            me(),
            &at,
            path.as_bytes().to_vec(),
            plain(),
            SpecialFiles::Guard,
            1,
        );
        refused(what, r);
    }
    let creating = RawOpenHow { flags: O_CREAT, mode: 0, resolve: 0 };
    let rooted = RawOpenHow { flags: 0, mode: 0, resolve: RESOLVE_IN_ROOT };
    for (what, path, how) in [
        ("a mkdir_path with ..", "a/../b", plain()),
        ("a creating mkdir_path", "a/b", creating),
        ("a root-scoped mkdir_path", "a/b", rooted),
    ] {
        match c.mkdir_path::<Fd, u32, u32>(me(), &at, path.as_bytes(), 0o755, how, 1) {
            Err(r) => refused(what, r),
            Ok(_) => panic!("{what}: accepted"),
        }
    }
    let leaf = Leaf::new(b"l").expect("leaf");
    let r = c.symlinkat(&mut core, &mut eng, me(), Vec::new(), &at, leaf, 1);
    refused("an empty symlink target", r);
    assert!(eng.staged.is_empty(), "nothing was created");
}

#[test]
fn a_chain_that_cannot_be_walked_is_refused_before_it_starts() {
    let creating = RawOpenHow { flags: O_CREAT, mode: 0, resolve: 0 };
    let rooted = RawOpenHow { flags: 0, mode: 0, resolve: RESOLVE_IN_ROOT };
    let first: Derive = Box::new(|_| Ok(b"a".to_vec()));
    let cases: Vec<(&str, Vec<OpenStep<Derive>>)> = vec![
        ("no steps", Vec::new()),
        (
            "a first step that derives",
            vec![OpenStep { path: StepPath::Derived(first), who: me(), how: plain() }],
        ),
        ("an escaping component", vec![fixed("a", plain()), fixed("../escape", plain())]),
        ("a step scoped to a root", vec![fixed("a", rooted), fixed("a", plain())]),
        ("a creating step", vec![fixed("a", plain()), fixed("made", creating)]),
    ];
    for (what, steps) in cases {
        let c: FsConn<u32> = FsConn::new(OWNER0);
        match c.open_chain::<Fd, u32, u32, Derive>(&nested().root(), steps, 1) {
            Err(r) => refused(what, r),
            Ok(_) => panic!("{what}: the chain was begun"),
        }
    }
}

#[test]
fn a_chain_ends_at_what_is_no_directory() {
    let (mut core, mut eng) = setup();
    let mut tree = nested();
    let done = drive(
        &mut core,
        &mut eng,
        &mut tree,
        vec![fixed("a/b/leaf", plain()), fixed("x", plain())],
    );
    assert_eq!(done.result(), Err(Errno::from_raw(libc::ENOTDIR)));
    assert!(!done.was_refused(), "the kernel's verdict is not marked");
}

/// Make a path's directories; the outcome and how many were tried.
fn make(tree: &mut Tree, path: &str) -> (FsDone<Fd>, usize) {
    let (mut core, mut eng) = setup();
    let mut conn: FsConn<u32> = FsConn::new(OWNER0);
    let root = tree.root();
    let begun =
        conn.mkdir_path::<Fd, u32, u32>(me(), &root, path.as_bytes(), 0o755, dir_how(), 1);
    let (mut w, _) = match begun {
        Ok(begun) => begun,
        Err(_) => panic!("the walk can be made"),
    };
    let mut tried = 0;
    conn.open_component(&mut core, &mut eng, w.who, root, path.into(), w.how, false, 1);
    let mut next = w.probed(complete(&mut core, tree));
    loop {
        next = match next {
            MkdirNext::Make { at, name } => {
                tried += 1;
                let leaf = Leaf::new(&name).expect("a leaf");
                conn.mkdirat(&mut core, &mut eng, w.who, &at, leaf, w.mode, 1);
                w.made(complete(&mut core, tree))
            }
            MkdirNext::Enter { at, name } => {
                conn.open_component(&mut core, &mut eng, w.who, at, name, w.how, false, 1);
                w.entered(complete(&mut core, tree))
            }
            MkdirNext::Check(f) => w.checked(&f, tree.is_dir(f.raw)),
            MkdirNext::Answer(done) => return (done, tried),
        };
    }
}

#[test]
fn a_mkdir_walk_makes_every_missing_directory() {
    let mut tree = Tree::new(&[("x", Node::Dir)]);
    let (done, tried) = make(&mut tree, "x/y/z");
    let f = done.file().expect("the last directory");
    assert_eq!(tree.fds[&f.raw], "x/y/z");
    assert_eq!(tried, 3, "one that exists is tried too");
    // A tree that is there costs one open.
    let (done, tried) = make(&mut tree, "x/y/z");
    assert!(done.file().is_some());
    assert_eq!(tried, 0);
}

#[test]
fn a_mkdir_walk_ends_at_what_is_no_directory() {
    let mut tree = Tree::new(&[("x", Node::File)]);
    let (done, tried) = make(&mut tree, "x/y");
    assert_eq!(done.result(), Err(Errno::from_raw(libc::ENOTDIR)));
    assert_eq!(tried, 1);
}
