//! Walks of a directory tree held in memory.
use std::collections::{BTreeMap, VecDeque};
use uring_fs::cursor::TreeCursor;
use uring_fs::enrich::DirEntry;
use uring_fs::errno::{Errno, Error};
use uring_fs::listing::{arrange, Listed, Order, QueryOptions};
use uring_fs::sys::{DT_DIR, DT_REG, O_DIRECTORY, O_NOFOLLOW};
use uring_fs::tree::{
    frame_how, join, query_tree, OpenLevel, QueryTree, TreeEntry, TreeOptions, TreeStep,
    MAX_DEPTH,
};

/// A directory's entries, and what is read of it at a time.
struct Dir {
    left: VecDeque<Listed>,
}

struct Disk {
    /// Path to whether it is a directory.
    nodes: BTreeMap<String, bool>,
    denied: Option<String>,
}

impl Disk {
    fn new(paths: &[&str]) -> Disk {
        let mut nodes = BTreeMap::new();
        for p in paths {
            match p.strip_suffix('/') {
                Some(d) => nodes.insert(d.to_string(), true),
                None => nodes.insert(p.to_string(), false),
            };
        }
        Disk { nodes, denied: None }
    }

    fn open(&self, path: &[u8], opts: &QueryOptions) -> Result<Dir, Error> {
        let path = std::str::from_utf8(path).unwrap();
        if self.denied.as_deref() == Some(path) {
            return Err(Error::Errno(Errno::EACCES));
        }
        if !path.is_empty() && self.nodes.get(path) != Some(&true) {
            return Err(Error::Errno(Errno::ENOENT));
        }
        let prefix = if path.is_empty() { String::new() } else { format!("{path}/") };
        let all: Vec<Listed> = self
            .nodes
            .iter()
            .filter_map(|(p, d)| {
                let name = p.strip_prefix(&prefix)?;
                if name.contains('/') {
                    return None;
                }
                Some(Listed {
                    name: name.as_bytes().to_vec(),
                    dtype: if *d { DT_DIR } else { DT_REG },
                })
            })
            .rev()
            .collect();
        let left = match opts.order {
            Order::Readdir => all,
            Order::ByName => arrange(all, false, &opts.start_after),
            Order::ByPathBytes => arrange(all, true, &opts.start_after),
        };
        Ok(Dir { left: left.into() })
    }
}

fn read(dir: &mut Dir) -> Option<Result<Vec<DirEntry>, Error>> {
    let mut got = Vec::new();
    while got.len() < 2 {
        match dir.left.pop_front() {
            Some(l) => got.push(DirEntry {
                name: l.name,
                is_dir: l.dtype == DT_DIR,
                statx: None,
                xattrs: Vec::new(),
                acl: None,
                xattrs_incomplete: false,
            }),
            None => break,
        }
    }
    if got.is_empty() { None } else { Some(Ok(got)) }
}

fn options(resume: Option<TreeCursor>) -> TreeOptions {
    TreeOptions {
        entries: QueryOptions { order: Order::ByPathBytes, ..QueryOptions::default() },
        max_depth: MAX_DEPTH,
        resume,
    }
}

fn start(disk: &Disk, opts: TreeOptions) -> Result<QueryTree<Dir>, Error> {
    let mut r = query_tree::<Dir>(opts)?;
    while let Some(level) = r.next() {
        match disk.open(&level.path, &level.opts) {
            Ok(d) => r.opened(level, d),
            Err(e) => return Err(r.failed(level, e)),
        }
    }
    Ok(r.finish())
}

fn next(disk: &Disk, t: &mut QueryTree<Dir>) -> Result<Option<TreeEntry>, Error> {
    loop {
        match t.next() {
            TreeStep::End => return Ok(None),
            TreeStep::Entry(e) => return Ok(Some(e)),
            TreeStep::Open(OpenLevel { path, opts, .. }) => {
                let dir = disk.open(&path, &opts).ok();
                t.descended(path, dir);
            }
            TreeStep::Batch => {
                let top = t.stack.last_mut().expect("a level");
                let got = read(&mut top.dir);
                if let Some(e) = t.batch(got) {
                    return Err(e);
                }
            }
        }
    }
}

fn walk(disk: &Disk, resume: Option<TreeCursor>) -> Vec<String> {
    let mut t = start(disk, options(resume)).expect("the walk can be made");
    let mut all = Vec::new();
    while let Some(e) = next(disk, &mut t).expect("no error") {
        all.push(String::from_utf8(e.key()).unwrap());
    }
    all
}

fn sample() -> Disk {
    Disk::new(&["a/", "a/x", "a/y/", "a/y/z", "a-1", "a.t", "aa", "b/", "b/q", "c"])
}

#[test]
fn a_walk_is_in_path_order() {
    let all = walk(&sample(), None);
    assert_eq!(
        all,
        ["a-1", "a.t", "a/", "a/x", "a/y/", "a/y/z", "aa", "b/", "b/q", "c"]
    );
    let mut sorted = all.clone();
    sorted.sort();
    assert_eq!(all, sorted, "the order of the keys' bytes");
}

#[test]
fn a_resumed_walk_gives_exactly_what_is_left() {
    let disk = sample();
    let all = walk(&disk, None);
    for stop in 0..=all.len() {
        let mut t = start(&disk, options(None)).expect("a walk");
        for _ in 0..stop {
            next(&disk, &mut t).expect("no error");
        }
        let cursor = t.cursor();
        let saved = cursor.to_bytes();
        let back = TreeCursor::from_bytes(&saved).expect("a cursor of ours");
        assert_eq!(walk(&disk, Some(back)), all[stop..].to_vec());
    }
}

#[test]
fn an_empty_cursor_is_the_beginning() {
    let disk = sample();
    assert_eq!(walk(&disk, Some(TreeCursor::default())), walk(&disk, None));
}

#[test]
fn a_cursor_outlives_the_entry_it_names() {
    let mut disk = sample();
    let cursor = TreeCursor::from_key(b"a/x".to_vec());
    disk.nodes.remove("a/x");
    assert_eq!(walk(&disk, Some(cursor)), ["a/y/", "a/y/z", "aa", "b/", "b/q", "c"]);
}

#[test]
fn a_vanished_level_is_named() {
    let mut disk = sample();
    let cursor = TreeCursor::from_key(b"a/y/z".to_vec());
    disk.nodes.remove("a/y");
    match start(&disk, options(Some(cursor))) {
        Err(Error::IteratorRestore { depth, path }) => {
            assert_eq!((depth, path.as_str()), (1, "a/y"));
        }
        _ => panic!("the level is gone"),
    }
}

#[test]
fn a_level_that_is_no_text_is_named_as_far_as_it_is() {
    let disk = Disk::new(&[]);
    let cursor = TreeCursor::from_key(vec![b'a', 0xff, b'/', b'x']);
    let mut r = query_tree::<Dir>(options(Some(cursor))).expect("a plan");
    let root = r.next().expect("the root");
    let dir = disk.open(&root.path, &root.opts).expect("the root opens");
    r.opened(root, dir);
    let level = r.next().expect("the level");
    assert_eq!(level.path, vec![b'a', 0xff]);
    match r.failed(level, Error::Errno(Errno::ENOENT)) {
        Error::IteratorRestore { depth, path } => {
            assert_eq!((depth, path.as_str()), (0, "a\u{fffd}"));
        }
        _ => panic!("the chain is broken"),
    }
}

#[test]
fn an_unreadable_directory_is_passed_over() {
    let mut disk = sample();
    disk.denied = Some("a".to_string());
    assert_eq!(walk(&disk, None), ["a-1", "a.t", "a/", "aa", "b/", "b/q", "c"]);
}

#[test]
fn a_level_that_may_not_be_read_drops_out_and_another_failure_is_told() {
    let disk = sample();
    let failing = |errno: Errno| {
        let mut t = start(&disk, options(None)).expect("a walk");
        let (mut all, mut told) = (Vec::new(), Vec::new());
        loop {
            match t.next() {
                TreeStep::End => return (all, told),
                TreeStep::Entry(e) => all.push(String::from_utf8(e.key()).unwrap()),
                TreeStep::Open(OpenLevel { path, opts, .. }) => {
                    let dir = disk.open(&path, &opts).ok();
                    t.descended(path, dir);
                }
                TreeStep::Batch => {
                    let top = t.stack.last_mut().expect("a level");
                    let got = if top.path == b"a" {
                        Some(Err(Error::Errno(errno)))
                    } else {
                        read(&mut top.dir)
                    };
                    told.extend(t.batch(got));
                }
            }
        }
    };
    let rest = ["a-1", "a.t", "a/", "aa", "b/", "b/q", "c"];
    for errno in [Errno::EACCES, Errno::EPERM, Errno::ENOENT] {
        let (all, told) = failing(errno);
        assert_eq!(all, rest);
        assert!(told.is_empty(), "{errno:?} was told");
    }
    let (all, told) = failing(Errno::EIO);
    assert_eq!(all, rest, "the walk goes on beside it");
    assert!(matches!(told[..], [Error::Errno(Errno::EIO)]));
}

#[test]
fn a_directory_can_be_passed_over() {
    let disk = sample();
    let mut t = start(&disk, options(None)).expect("a walk");
    let mut all = Vec::new();
    while let Some(e) = next(&disk, &mut t).expect("no error") {
        if e.is_dir() {
            t.skip_descent();
        }
        all.push(String::from_utf8(e.path()).unwrap());
    }
    assert_eq!(all, ["a-1", "a.t", "a", "aa", "b", "c"]);
}

#[test]
fn a_walk_stops_at_its_depth() {
    let disk = sample();
    let mut t = start(&disk, TreeOptions { max_depth: 1, ..options(None) }).expect("a walk");
    let mut deep = 0;
    while let Some(e) = next(&disk, &mut t).expect("no error") {
        deep = deep.max(e.depth());
    }
    let mut t = start(&disk, options(None)).expect("a walk");
    let mut deepest = 0;
    while let Some(e) = next(&disk, &mut t).expect("no error") {
        deepest = deepest.max(e.depth());
    }
    assert_eq!((deep, deepest), (0, 2));
}

#[test]
fn a_walk_is_in_path_order_whatever_was_asked_for() {
    let disk = sample();
    for order in [Order::Readdir, Order::ByName, Order::ByPathBytes] {
        let opts = TreeOptions {
            entries: QueryOptions { order, ..QueryOptions::default() },
            ..options(None)
        };
        let mut t = start(&disk, opts).expect("a walk");
        let mut all = Vec::new();
        while let Some(e) = next(&disk, &mut t).expect("no error") {
            all.push(String::from_utf8(e.key()).unwrap());
        }
        assert_eq!(all, walk(&disk, None));
    }
}

#[test]
fn a_depth_out_of_range_is_refused() {
    for max_depth in [0, MAX_DEPTH + 1] {
        match query_tree::<Dir>(TreeOptions { max_depth, ..options(None) }) {
            Err(Error::Validation(text)) => assert_eq!(
                text,
                format!("query_tree: max_depth must be 1..=2048, got {max_depth}")
            ),
            _ => panic!("out of range"),
        }
    }
}

#[test]
fn an_entry_knows_where_it_is() {
    let e = TreeEntry {
        parent: b"a/b".to_vec(),
        entry: DirEntry {
            name: b"c".to_vec(),
            is_dir: true,
            statx: None,
            xattrs: Vec::new(),
            acl: None,
            xattrs_incomplete: false,
        },
    };
    assert_eq!(e.parent(), b"a/b");
    assert_eq!(e.path(), b"a/b/c");
    assert_eq!(e.key(), b"a/b/c/");
    assert_eq!(e.depth(), 2);
    assert_eq!(join(b"", b"x"), b"x");
    assert_eq!(frame_how().flags & (O_DIRECTORY | O_NOFOLLOW), O_DIRECTORY | O_NOFOLLOW);
    assert_eq!(MAX_DEPTH, 2048);
}
