//! A resumable walk of a subtree in path order: one listing per level, the
//! levels on a stack, and a cursor to resume after.
//!
//! Opening and reading directories is the host's; `D` is a level it has open.
use crate::bytes;
use crate::bytes::{copied, split};
use crate::cursor;
use crate::cursor::TreeCursor;
use crate::enrich;
use crate::enrich::{unknown_device_verdict, DirEntry};
use crate::errno::{Errno, Error};
use crate::listing;
use crate::listing::{copied_opt, Order, QueryOptions, STATX_BASIC_STATS};
use crate::names::SLASH;
use crate::order;
use crate::pending::FsPending;
use crate::policy::RawOpenHow;
use crate::sys::{CONFINED_RESOLVE, O_DIRECTORY, O_NOFOLLOW};
use crate::tally;
use crate::text;
use crate::text::{push_decimal, shown};
use crate::xattrs::NS_USER;
use std::collections::VecDeque;
use vstd::prelude::*;
use vstd::string::StringExecFns;

verus! {

/// How deep a walk may go: each level holds a descriptor.
pub const MAX_DEPTH: usize = 2048;

/// What stands before a name in the directory at `parent`.
pub open spec fn dir_prefix(parent: Seq<u8>) -> Seq<u8> {
    if parent.len() == 0 {
        parent
    } else {
        parent.push(SLASH)
    }
}

/// The path of `name` in the directory at `parent`, which is empty for the
/// root.
pub open spec fn joined(parent: Seq<u8>, name: Seq<u8>) -> Seq<u8> {
    dir_prefix(parent) + name
}

/// [`joined`].
pub fn join(parent: &[u8], name: &[u8]) -> (r: Vec<u8>)
    ensures
        r@ == joined(parent@, name@),
{
    let mut p = copied(parent);
    if parent.len() > 0 {
        p.push(SLASH);
    }
    let ghost pre = p@;
    assert(pre =~= dir_prefix(parent@));
    p.extend_from_slice(name);
    assert(p@ =~= pre + name@);
    p
}

/// One entry of a walk, with where it sits.
#[derive(Debug)]
pub struct TreeEntry {
    /// The directory it is in, relative to the walk's root; empty for the root
    /// itself.
    pub parent: Vec<u8>,
    pub entry: DirEntry,
}

impl TreeEntry {
    /// The entry's path.
    pub open spec fn spec_path(&self) -> Seq<u8> {
        joined(self.parent@, self.entry.name@)
    }

    /// The entry's key.
    pub open spec fn spec_key(&self) -> Seq<u8> {
        order::path_key(self.spec_path(), self.entry.is_dir)
    }

    /// The containing directory's path, empty at the top. Never ends in a
    /// separator.
    pub fn parent(&self) -> (r: &[u8])
        ensures
            r@ == self.parent@,
    {
        self.parent.as_slice()
    }

    /// This entry's path relative to the walk's root, with no separator at its
    /// end.
    pub fn path(&self) -> (r: Vec<u8>)
        ensures
            r@ == self.spec_path(),
    {
        join(self.parent.as_slice(), self.entry.name.as_slice())
    }

    /// What the walk orders by and resumes after: the path, with a separator at
    /// its end for a directory.
    pub fn key(&self) -> (r: Vec<u8>)
        ensures
            r@ == self.spec_key(),
    {
        let mut k = self.path();
        if self.entry.is_dir {
            k.push(SLASH);
        }
        k
    }

    /// How far below the root this entry sits; 0 at the top.
    pub fn depth(&self) -> (r: usize)
        requires
            self.parent@.len() < usize::MAX,
        ensures
            r == (if self.parent@.len() == 0 {
                0
            } else {
                tally::count_where(self.parent@, |b: u8| b == SLASH) + 1
            }),
    {
        if self.parent.len() == 0 {
            return 0;
        }
        let ghost is_slash = |b: u8| b == SLASH;
        let mut n: usize = 0;
        let mut i: usize = 0;
        assert(self.parent@.take(0) =~= Seq::<u8>::empty());
        while i < self.parent.len()
            invariant
                0 <= i <= self.parent@.len(),
                is_slash == (|b: u8| b == SLASH),
                n <= i,
                n == tally::count_where(self.parent@.take(i as int), is_slash),
            decreases self.parent@.len() - i,
        {
            proof {
                let t = self.parent@.take(i + 1);
                assert(t.drop_last() =~= self.parent@.take(i as int));
                assert(t.last() == self.parent@[i as int]);
            }
            if self.parent[i] == SLASH {
                n = n + 1;
            }
            i = i + 1;
        }
        assert(self.parent@.take(self.parent@.len() as int) =~= self.parent@);
        n + 1
    }

    /// Whether this entry is a directory, so may be descended into.
    pub fn is_dir(&self) -> (r: bool)
        ensures
            r == self.entry.is_dir,
    {
        self.entry.is_dir
    }
}

/// How to walk a subtree.
#[derive(Debug)]
pub struct TreeOptions {
    /// How each level is listed. Its order is always by path, its place to
    /// start the walk's own, and its prefix is for the root level only.
    pub entries: QueryOptions,
    /// How many levels to list: 1 is the root directory alone.
    pub max_depth: usize,
    /// Resume after this.
    pub resume: Option<TreeCursor>,
}

impl Default for TreeOptions {
    fn default() -> (r: TreeOptions)
        ensures
            r.max_depth == MAX_DEPTH,
            r.resume is None,
            r.entries.spec.bits == 0,
            r.entries.xattr_names@.len() == 0,
            r.entries.xattr_ns.bits == NS_USER,
            r.entries.acl_name@.len() == 0,
            r.entries.clump == 1,
            !r.entries.same_device_only,
            r.entries.statx_mask == STATX_BASIC_STATS,
            r.entries.order == Order::Readdir,
            r.entries.name_prefix is None,
            r.entries.start_after is None,
    {
        TreeOptions { entries: QueryOptions::default(), max_depth: MAX_DEPTH, resume: None }
    }
}

/// One level of the walk.
pub struct Frame<D> {
    /// Its path relative to the root; empty for the root.
    pub path: Vec<u8>,
    /// The level, open: what its entries and its subdirectories are read from.
    pub dir: D,
    /// Entries read and not yet given.
    pub buf: VecDeque<DirEntry>,
}

/// A walk of a subtree.
pub struct QueryTree<D> {
    pub opts: TreeOptions,
    pub stack: Vec<Frame<D>>,
    /// The directory just given, to be descended into unless the caller says
    /// otherwise.
    pub pending: Option<Vec<u8>>,
    /// The key given last.
    pub last_key: Vec<u8>,
}

/// A directory to open: one component, from a level that is open.
#[derive(Debug)]
pub struct OpenLevel {
    /// The component; `None` for the root itself, which is open.
    pub name: Option<Vec<u8>>,
    /// The directory's path relative to the root.
    pub path: Vec<u8>,
    /// How to list it.
    pub opts: QueryOptions,
}

/// How a walk goes on.
#[derive(Debug)]
pub enum TreeStep {
    /// There is nothing more.
    End,
    /// Open that directory from the topmost level, and say with
    /// [`QueryTree::descended`] what came of it.
    Open(OpenLevel),
    /// Read a batch of the topmost level and hand it to [`QueryTree::batch`].
    Batch,
    /// The next entry.
    Entry(TreeEntry),
}

/// How the directory of a level is opened: it alone, no symlink, nothing that
/// leads out of the level or to another filesystem.
pub fn frame_how() -> (r: RawOpenHow)
    ensures
        r.flags == O_DIRECTORY | O_NOFOLLOW,
        r.mode == 0,
        r.resolve == CONFINED_RESOLVE,
        r == (RawOpenHow { flags: 0x3_0000, mode: 0, resolve: 0x0d }),
{
    assert(0x1_0000u64 | 0x2_0000u64 == 0x3_0000u64) by (bit_vector);
    RawOpenHow { flags: O_DIRECTORY | O_NOFOLLOW, mode: 0, resolve: CONFINED_RESOLVE }
}

/// The last component of a path.
pub open spec fn leaf_of(path: Seq<u8>) -> Seq<u8> {
    bytes::split_on(path, SLASH).last()
}

/// How a level below the root is listed.
pub open spec fn lists_level(o: QueryOptions, entries: QueryOptions, after: Option<Seq<u8>>) -> bool {
    &&& o.reads_as(entries)
    &&& o.order == Order::ByPathBytes
    &&& o.name_prefix is None
    &&& listing::opt_bytes(o.start_after) == after
}

/// `after` is `before` with the first entry of its topmost level given.
pub open spec fn yielded<D>(before: QueryTree<D>, after: QueryTree<D>, e: TreeEntry) -> bool {
    let n = before.stack@.len() as int;
    &&& before.stack@.len() > 0
    &&& before.stack@[n - 1].buf@.len() > 0
    &&& e.parent@ == before.stack@[n - 1].path@
    &&& e.entry == before.stack@[n - 1].buf@[0]
    &&& after.opts == before.opts
    &&& after.stack@.len() == n
    &&& forall|i: int| 0 <= i < n - 1 ==> #[trigger] after.stack@[i] == before.stack@[i]
    &&& after.stack@[n - 1].path == before.stack@[n - 1].path
    &&& after.stack@[n - 1].dir == before.stack@[n - 1].dir
    &&& after.stack@[n - 1].buf@ == before.stack@[n - 1].buf@.drop_first()
    &&& after.last_key@ == e.spec_key()
    &&& listing::opt_bytes(after.pending) == (if e.entry.is_dir && n < before.opts.max_depth {
        Some(e.spec_path())
    } else {
        None
    })
}

/// The walk `before` went on to `after`, and that is what is to be done next.
pub open spec fn stepped<D>(before: QueryTree<D>, after: QueryTree<D>, r: TreeStep) -> bool {
    match r {
        TreeStep::Open(o) => {
            &&& before.descends()
            &&& o.name is Some
            &&& o.name->0@ == leaf_of(before.pending->0@)
            &&& o.path == before.pending->0
            &&& lists_level(o.opts, before.opts.entries, None)
            &&& after == before.settled()
        },
        TreeStep::End => {
            &&& !before.descends()
            &&& before.stack@.len() == 0
            &&& after == before.settled()
        },
        TreeStep::Batch => {
            &&& !before.descends()
            &&& before.stack@.len() > 0
            &&& before.stack@.last().buf@.len() == 0
            &&& after == before.settled()
        },
        TreeStep::Entry(e) => {
            &&& !before.descends()
            &&& yielded(before.settled(), after, e)
        },
    }
}

/// The walk `before` once a descent to `path` came to `dir`.
pub open spec fn entered<D>(
    before: QueryTree<D>,
    after: QueryTree<D>,
    path: Vec<u8>,
    dir: Option<D>,
) -> bool {
    &&& after.opts == before.opts
    &&& after.pending == before.pending
    &&& after.last_key == before.last_key
    &&& match dir {
        Some(d) => {
            &&& after.stack@.len() == before.stack@.len() + 1
            &&& after.stack@.drop_last() == before.stack@
            &&& after.stack@.last().path == path
            &&& after.stack@.last().dir == d
            &&& after.stack@.last().buf@.len() == 0
        },
        None => after.stack@ == before.stack@,
    }
}

/// Whether a level that failed with `e` has nothing left that could be listed:
/// the walk's identity may not read it, or it is gone.
pub open spec fn nothing_left(e: Error) -> bool {
    e matches Error::Errno(errno) && enrich::verdict(Some(errno)) is None
}

/// The walk `before` once reading its topmost level on came to `got`.
pub open spec fn took<D>(
    before: QueryTree<D>,
    after: QueryTree<D>,
    got: Option<Result<Vec<DirEntry>, Error>>,
    r: Option<Error>,
) -> bool {
    &&& after.opts == before.opts
    &&& after.pending == before.pending
    &&& after.last_key == before.last_key
    &&& match got {
        None => r is None && after.stack@ == before.stack@.drop_last(),
        Some(Err(e)) => {
            &&& r == (if nothing_left(e) {
                None
            } else {
                Some(e)
            })
            &&& after.stack@ == before.stack@.drop_last()
        },
        Some(Ok(batch)) => {
            &&& r is None
            &&& after.stack@.len() == before.stack@.len()
            &&& after.stack@.drop_last() == before.stack@.drop_last()
            &&& after.stack@.last().path == before.stack@.last().path
            &&& after.stack@.last().dir == before.stack@.last().dir
            &&& after.stack@.last().buf@ == before.stack@.last().buf@ + batch@
        },
    }
}

impl<D> QueryTree<D> {
    /// The walk with no descent pending.
    pub open spec fn settled(self) -> QueryTree<D> {
        QueryTree { pending: None, ..self }
    }

    /// Whether the pending descent goes anywhere.
    pub open spec fn descends(&self) -> bool {
        self.pending is Some && self.stack@.len() > 0 && leaf_of(self.pending->0@).len() > 0
    }

    /// Do not descend into the directory just given.
    pub fn skip_descent(&mut self)
        ensures
            *final(self) == old(self).settled(),
    {
        self.pending = None;
    }

    /// A cursor after the last entry given.
    pub fn cursor(&self) -> (r: TreeCursor)
        ensures
            r.at@ == self.last_key@,
    {
        TreeCursor { at: copied(self.last_key.as_slice()) }
    }

    /// Go on. The directory given last is entered first, unless
    /// [`QueryTree::skip_descent`] was called; a level that has given all it
    /// read is read on; and a directory that may be descended into is noted as
    /// it is given.
    pub fn next(&mut self) -> (r: TreeStep)
        ensures
            stepped(*old(self), *final(self), r),
            r matches TreeStep::Open(o) ==> listing::same_reads(
                o.opts,
                old(self).opts.entries,
            ),
    {
        if let Some(path) = self.pending.take() {
            if self.stack.len() > 0 {
                let mut pieces = split(path.as_slice(), SLASH);
                let name = pieces.pop().unwrap();
                assert(name@ == leaf_of(path@)) by {
                    assert(bytes::views(pieces@.push(name)).last() == name@);
                }
                if name.len() > 0 {
                    let opts = self.opts.entries.at_level(Order::ByPathBytes, None, None);
                    return TreeStep::Open(OpenLevel { name: Some(name), path, opts });
                }
            }
        }
        if self.stack.len() == 0 {
            return TreeStep::End;
        }
        let depth = self.stack.len();
        if self.stack[depth - 1].buf.len() == 0 {
            return TreeStep::Batch;
        }
        let mut frame = self.stack.pop().unwrap();
        let entry = frame.buf.pop_front().unwrap();
        let out = TreeEntry { parent: copied(frame.path.as_slice()), entry };
        self.stack.push(frame);
        self.last_key = out.key();
        if out.is_dir() && depth < self.opts.max_depth {
            self.pending = Some(out.path());
        }
        TreeStep::Entry(out)
    }

    /// What became of a descent: a directory that cannot be entered is left
    /// out, and the walk goes on beside it.
    pub fn descended(&mut self, path: Vec<u8>, dir: Option<D>)
        ensures
            entered(*old(self), *final(self), path, dir),
    {
        if let Some(d) = dir {
            self.stack.push(Frame { path, dir: d, buf: VecDeque::new() });
            assert(self.stack@.drop_last() =~= old(self).stack@);
        }
    }

    /// The topmost level's next batch. `None` is its end, and the walk goes on
    /// above it. So it does after a failure, since what was read of the level
    /// cannot be read again. A level that may not be read, or is gone, drops out
    /// of the walk like one that cannot be opened. Any other failure is handed
    /// back: a partial listing must not read as a complete one.
    pub fn batch(&mut self, got: Option<Result<Vec<DirEntry>, Error>>) -> (r: Option<Error>)
        requires
            old(self).stack@.len() > 0,
        ensures
            took(*old(self), *final(self), got, r),
    {
        let mut frame = self.stack.pop().unwrap();
        match got {
            None => None,
            Some(Err(e)) => {
                let skipped = match &e {
                    Error::Errno(errno) => unknown_device_verdict(Some(*errno)).is_none(),
                    _ => false,
                };
                if skipped {
                    None
                } else {
                    Some(e)
                }
            },
            Some(Ok(batch)) => {
                append_all(&mut frame.buf, batch);
                self.stack.push(frame);
                assert(self.stack@.drop_last() =~= old(self).stack@.drop_last());
                None
            },
        }
    }
}

/// Append a list to a queue.
fn append_all(q: &mut VecDeque<DirEntry>, v: Vec<DirEntry>)
    ensures
        final(q)@ == old(q)@ + v@,
{
    let ghost (q0, all) = (q@, v@);
    let mut rev: Vec<DirEntry> = Vec::new();
    let mut rest = v;
    while rest.len() > 0
        invariant
            rest@.len() + rev@.len() == all.len(),
            forall|i: int| 0 <= i < rest@.len() ==> #[trigger] rest@[i] == all[i],
            forall|i: int| 0 <= i < rev@.len() ==> #[trigger] rev@[i] == all[all.len() - 1 - i],
        decreases rest@.len(),
    {
        let e = rest.pop().unwrap();
        rev.push(e);
    }
    while rev.len() > 0
        invariant
            rev@.len() <= all.len(),
            forall|i: int| 0 <= i < rev@.len() ==> #[trigger] rev@[i] == all[all.len() - 1 - i],
            q@ == q0 + all.take(all.len() - rev@.len()),
        decreases rev@.len(),
    {
        let ghost n = all.len() - rev@.len();
        let e = rev.pop().unwrap();
        assert(e == all[n]);
        q.push_back(e);
        assert(q@ =~= q0 + all.take(n + 1));
    }
    assert(all.take(all.len() as int) =~= all);
}

/// How many levels below the root a resumed walk opens again: down to the
/// directory the cursor names, or to the one its file is in; never deeper than
/// the walk may go.
pub open spec fn descent(comps: Seq<Seq<u8>>, into_dir: bool, max_depth: nat) -> nat {
    let owed = if into_dir {
        comps.len()
    } else if comps.len() > 0 {
        (comps.len() - 1) as nat
    } else {
        0
    };
    if owed < max_depth {
        owed
    } else {
        (max_depth - 1) as nat
    }
}

/// What the level at `depth` of a resumed walk starts after: the directory the
/// walk descends through there, which it gave already; at the deepest level
/// the file it gave last, or nothing where it gave that directory itself last.
pub open spec fn cut(comps: Seq<Seq<u8>>, into_dir: bool, descent: nat, depth: nat) -> Option<
    Seq<u8>,
> {
    if depth >= comps.len() {
        None
    } else {
        Some(order::path_key(comps[depth as int], depth < descent || into_dir || depth + 1 < comps.len()))
    }
}

/// The path of the directory the components lead to from `base`.
pub open spec fn path_below(base: Seq<u8>, comps: Seq<Seq<u8>>) -> Seq<u8>
    decreases comps.len(),
{
    if comps.len() == 0 {
        base
    } else {
        joined(path_below(base, comps.drop_last()), comps.last())
    }
}

/// The path of the directory the components lead to from the root.
pub open spec fn path_of(comps: Seq<Seq<u8>>) -> Seq<u8> {
    path_below(Seq::empty(), comps)
}

/// What is said of a depth a walk cannot have.
pub open spec fn depth_refusal(max_depth: usize) -> Seq<char> {
    "query_tree: max_depth must be 1..=2048, got "@ + text::decimal(max_depth as nat)
}

/// A walk being set up: its levels are opened from the root down to where it
/// resumes.
pub struct Restore<D> {
    pub opts: TreeOptions,
    pub comps: Vec<Vec<u8>>,
    pub into_dir: bool,
    pub descent: usize,
    pub stack: Vec<Frame<D>>,
    pub key: Vec<u8>,
}

/// The key a walk resumes after; empty for one that starts at the beginning.
pub open spec fn resume_key(opts: TreeOptions) -> Seq<u8> {
    match opts.resume {
        Some(c) => c.at@,
        None => Seq::empty(),
    }
}

impl<D> Restore<D> {
    /// The components as sequences.
    pub open spec fn spec_comps(&self) -> Seq<Seq<u8>> {
        bytes::views(self.comps@)
    }

    /// The plan is the one for the key, and the levels that are open are the
    /// first of it.
    pub open spec fn wf(&self) -> bool {
        &&& 1 <= self.opts.max_depth <= MAX_DEPTH
        &&& self.key@ == resume_key(self.opts)
        &&& self.spec_comps() == cursor::components_of(self.key@)
        &&& self.into_dir == cursor::names_dir(self.key@)
        &&& self.descent == descent(self.spec_comps(), self.into_dir, self.opts.max_depth as nat)
        &&& self.stack@.len() <= self.descent + 1
        &&& forall|i: int|
            0 <= i < self.stack@.len() ==> (#[trigger] self.stack@[i]).path@ == path_of(
                self.spec_comps().take(i),
            ) && self.stack@[i].buf@.len() == 0
    }

    /// What the level at `depth` starts after.
    fn cut_for(&self, depth: usize) -> (r: Option<Vec<u8>>)
        requires
            self.wf(),
            depth <= self.descent,
        ensures
            listing::opt_bytes(r) == cut(
                self.spec_comps(),
                self.into_dir,
                self.descent as nat,
                depth as nat,
            ),
    {
        assert(self.spec_comps().len() == self.comps@.len());
        if depth >= self.comps.len() {
            return None;
        }
        let mut k = copied(self.comps[depth].as_slice());
        if depth < self.descent || self.into_dir || depth < self.comps.len() - 1 {
            k.push(SLASH);
        }
        Some(k)
    }

    /// `r` is the next level to open, or none is missing.
    pub open spec fn plans(&self, r: Option<OpenLevel>) -> bool {
        match r {
            None => self.stack@.len() == self.descent + 1,
            Some(o) => {
                let depth = self.stack@.len();
                &&& depth <= self.descent
                &&& listing::opt_bytes(o.name) == (if depth == 0 {
                    None
                } else {
                    Some(self.spec_comps()[depth - 1])
                })
                &&& o.path@ == path_of(self.spec_comps().take(depth as int))
                &&& o.opts.reads_as(self.opts.entries)
                &&& o.opts.order == Order::ByPathBytes
                &&& listing::opt_bytes(o.opts.name_prefix) == (if depth == 0 {
                    listing::opt_bytes(self.opts.entries.name_prefix)
                } else {
                    None
                })
                &&& listing::opt_bytes(o.opts.start_after) == cut(
                    self.spec_comps(),
                    self.into_dir,
                    self.descent as nat,
                    depth,
                )
            },
        }
    }

    /// `self` is `old` with its next level open.
    pub open spec fn went_down(&self, old: Restore<D>, o: OpenLevel, dir: D) -> bool {
        &&& self.wf()
        &&& self.opts == old.opts
        &&& self.key == old.key
        &&& self.stack@.len() == old.stack@.len() + 1
        &&& self.stack@.drop_last() == old.stack@
        &&& self.stack@.last().path == o.path
        &&& self.stack@.last().dir == dir
    }

    /// `t` is the walk whose every level is open.
    pub open spec fn finished(&self, t: QueryTree<D>) -> bool {
        &&& t.opts == self.opts
        &&& t.stack == self.stack
        &&& t.pending is None
        &&& t.last_key == self.key
    }

    /// The next level to open, if one is missing.
    pub fn next(&self) -> (r: Option<OpenLevel>)
        requires
            self.wf(),
        ensures
            self.plans(r),
            r is Some ==> listing::same_reads(r->0.opts, self.opts.entries),
    {
        let depth = self.stack.len();
        if depth > self.descent {
            return None;
        }
        let after = self.cut_for(depth);
        assert(self.spec_comps().len() == self.comps@.len());
        if depth == 0 {
            let prefix = copied_opt(&self.opts.entries.name_prefix);
            assert(self.spec_comps().take(0) =~= Seq::<Seq<u8>>::empty());
            let path: Vec<u8> = Vec::new();
            assert(path@ =~= path_of(self.spec_comps().take(0)));
            return Some(
                OpenLevel {
                    name: None,
                    path,
                    opts: self.opts.entries.at_level(Order::ByPathBytes, prefix, after),
                },
            );
        }
        let comp = copied(self.comps[depth - 1].as_slice());
        let path = join(self.stack[depth - 1].path.as_slice(), comp.as_slice());
        proof {
            let t = self.spec_comps().take(depth as int);
            assert(t.drop_last() =~= self.spec_comps().take(depth - 1));
            assert(t.last() == self.comps@[depth - 1]@);
        }
        Some(
            OpenLevel {
                name: Some(comp),
                path,
                opts: self.opts.entries.at_level(Order::ByPathBytes, None, after),
            },
        )
    }

    /// The level that [`Restore::next`] named is open.
    pub fn opened(&mut self, o: OpenLevel, dir: D)
        requires
            old(self).wf(),
            old(self).stack@.len() <= old(self).descent,
            o.path@ == path_of(old(self).spec_comps().take(old(self).stack@.len() as int)),
        ensures
            final(self).went_down(*old(self), o, dir),
    {
        self.stack.push(Frame { path: o.path, dir, buf: VecDeque::new() });
        assert(self.stack@.drop_last() =~= old(self).stack@);
    }

    /// That level could not be opened, for `e`. The root's failure is its own;
    /// below it, the chain the cursor went through is broken, and the depth
    /// says where.
    pub fn failed(&self, o: OpenLevel, e: Error) -> (r: Error)
        requires
            self.wf(),
        ensures
            if self.stack@.len() == 0 {
                r == e
            } else {
                &&& r is IteratorRestore
                &&& r->depth == self.stack@.len() - 1
                &&& r->path@ == text::lossy_text(o.path@)
            },
    {
        if self.stack.len() == 0 {
            e
        } else {
            Error::IteratorRestore { depth: self.stack.len() - 1, path: shown(o.path.as_slice()) }
        }
    }

    /// Every level is open: the walk.
    pub fn finish(self) -> (r: QueryTree<D>)
        requires
            self.wf(),
        ensures
            self.finished(r),
    {
        QueryTree { opts: self.opts, stack: self.stack, pending: None, last_key: self.key }
    }
}

/// `w` is the plan of a walk none of whose levels is open.
pub open spec fn planned<D>(opts: TreeOptions, w: Restore<D>) -> bool {
    &&& w.wf()
    &&& w.opts == opts
    &&& w.stack@.len() == 0
}

/// Walk a subtree in path order: plan it, to open its levels next. It is
/// refused where its depth is none a walk can have.
pub fn query_tree<D>(opts: TreeOptions) -> (r: Result<Restore<D>, Error>)
    ensures
        match r {
            Ok(w) => 1 <= opts.max_depth <= MAX_DEPTH && planned(opts, w),
            Err(e) => {
                &&& opts.max_depth == 0 || opts.max_depth > MAX_DEPTH
                &&& e is Validation
                &&& e->Validation_0@ == depth_refusal(opts.max_depth)
            },
        },
{
    if opts.max_depth == 0 || opts.max_depth > MAX_DEPTH {
        let mut why = String::from_str("query_tree: max_depth must be 1..=2048, got ");
        push_decimal(&mut why, opts.max_depth as u64);
        return Err(Error::Validation(why));
    }
    let c = match &opts.resume {
        Some(c) => TreeCursor { at: copied(c.at.as_slice()) },
        None => TreeCursor::default(),
    };
    assert(c.at@ =~= resume_key(opts));
    let comps = c.components();
    let into_dir = c.into_dir();
    let owed = if into_dir {
        comps.len()
    } else {
        comps.len().saturating_sub(1)
    };
    let descent = if owed < opts.max_depth {
        owed
    } else {
        opts.max_depth - 1
    };
    assert(bytes::views(comps@).len() == comps@.len());
    Ok(Restore { opts, comps, into_dir, descent, stack: Vec::new(), key: c.at })
}

/// What can happen to a walk.
pub enum Event<D> {
    /// It was asked how to go on.
    Went(TreeStep),
    /// Its topmost level was read on.
    Read(Option<Result<Vec<DirEntry>, Error>>, Option<Error>),
    /// A descent came to this.
    Entered(Vec<u8>, Option<D>),
    /// The directory just given is passed over.
    Skipped,
}

/// That is what happened between `before` and `after`.
pub open spec fn happened<D>(before: QueryTree<D>, after: QueryTree<D>, ev: Event<D>) -> bool {
    match ev {
        Event::Went(step) => stepped(before, after, step),
        Event::Read(got, r) => before.stack@.len() > 0 && took(before, after, got, r),
        Event::Entered(path, dir) => entered(before, after, path, dir),
        Event::Skipped => after == before.settled(),
    }
}

/// A walk through the states `ts`, from one whose levels have read nothing.
pub open spec fn history<D>(ts: Seq<QueryTree<D>>, evs: Seq<Event<D>>) -> bool {
    &&& ts.len() == evs.len() + 1
    &&& forall|i: int| 0 <= i < ts[0].stack@.len() ==> (#[trigger] ts[0].stack@[i]).buf@.len() == 0
    &&& forall|k: int| 0 <= k < evs.len() ==> happened(ts[k], ts[k + 1], #[trigger] evs[k])
}

/// The event at `j` read the entry `e` of the level at `path`.
pub open spec fn read_there<D>(
    ts: Seq<QueryTree<D>>,
    evs: Seq<Event<D>>,
    j: int,
    path: Seq<u8>,
    e: DirEntry,
) -> bool {
    match evs[j] {
        Event::Read(Some(Ok(batch)), _) => ts[j].stack@.last().path@ == path
            && batch@.contains(e),
        _ => false,
    }
}

/// An event before `k` read the entry `e` of the level at `path`.
pub open spec fn was_read<D>(
    ts: Seq<QueryTree<D>>,
    evs: Seq<Event<D>>,
    k: int,
    path: Seq<u8>,
    e: DirEntry,
) -> bool {
    exists|j: int| 0 <= j < k && #[trigger] read_there(ts, evs, j, path, e)
}

proof fn lemma_buffered_was_read<D>(ts: Seq<QueryTree<D>>, evs: Seq<Event<D>>, k: nat)
    requires
        history(ts, evs),
        k <= evs.len(),
    ensures
        ts[k as int].opts == ts[0].opts,
        forall|i: int, m: int|
            0 <= i < ts[k as int].stack@.len() && 0 <= m < ts[k as int].stack@[i].buf@.len()
                ==> was_read(
                ts,
                evs,
                k as int,
                ts[k as int].stack@[i].path@,
                #[trigger] ts[k as int].stack@[i].buf@[m],
            ),
    decreases k,
{
    if k == 0 {
        let a = ts[0];
        assert forall|i: int, m: int|
            0 <= i < a.stack@.len() && 0 <= m < a.stack@[i].buf@.len() implies was_read(
            ts,
            evs,
            k as int,
            a.stack@[i].path@,
            #[trigger] a.stack@[i].buf@[m],
        ) by {
            assert(a.stack@[i].buf@.len() == 0);
        }
    } else {
        let p = (k - 1) as nat;
        lemma_buffered_was_read(ts, evs, p);
        let (b, a) = (ts[p as int], ts[k as int]);
        assert(happened(b, a, evs[p as int]));
        assert forall|i: int, m: int|
            0 <= i < a.stack@.len() && 0 <= m < a.stack@[i].buf@.len() implies was_read(
            ts,
            evs,
            k as int,
            a.stack@[i].path@,
            #[trigger] a.stack@[i].buf@[m],
        ) by {
            let e = a.stack@[i].buf@[m];
            let n = b.stack@.len() as int;
            assert forall|path: Seq<u8>, x: DirEntry| #[trigger]
                was_read(ts, evs, p as int, path, x) implies was_read(
                ts,
                evs,
                k as int,
                path,
                x,
            ) by {}
            match evs[p as int] {
                Event::Went(TreeStep::Entry(_)) => {
                    assert(b.settled().stack == b.stack);
                    assert(a.stack@[i].path == b.stack@[i].path);
                    if i == n - 1 {
                        assert(e == b.stack@[i].buf@[m + 1]);
                    } else {
                        assert(e == b.stack@[i].buf@[m]);
                    }
                },
                Event::Read(Some(Ok(batch)), _) => {
                    if i < n - 1 {
                        assert(a.stack@.drop_last()[i] == b.stack@.drop_last()[i]);
                        assert(e == b.stack@[i].buf@[m]);
                    } else {
                        let old = b.stack@.last().buf@;
                        assert(a.stack@[i].path == b.stack@[i].path);
                        if m < old.len() {
                            assert(e == b.stack@[i].buf@[m]);
                        } else {
                            assert(e == batch@[m - old.len()]);
                            assert(read_there(ts, evs, p as int, a.stack@[i].path@, e));
                        }
                    }
                },
                Event::Read(_, _) => {
                    assert(a.stack@[i] == b.stack@[i]);
                    assert(e == b.stack@[i].buf@[m]);
                },
                Event::Entered(_, Some(_)) => {
                    if i < n {
                        assert(a.stack@.drop_last()[i] == b.stack@[i]);
                        assert(e == b.stack@[i].buf@[m]);
                    }
                },
                _ => {
                    assert(a.stack@ == b.stack@);
                    assert(e == b.stack@[i].buf@[m]);
                },
            }
        }
    }
}

/// A walk gives entries as they were read: each one it gives came, whole, in a
/// batch read earlier of the very directory it is given in.
pub proof fn law_walk_gives_entries_as_read<D>(
    ts: Seq<QueryTree<D>>,
    evs: Seq<Event<D>>,
    k: int,
    e: TreeEntry,
)
    requires
        history(ts, evs),
        0 <= k < evs.len(),
        evs[k] == Event::<D>::Went(TreeStep::Entry(e)),
    ensures
        was_read(ts, evs, k, e.parent@, e.entry),
{
    lemma_buffered_was_read(ts, evs, k as nat);
    assert(happened(ts[k], ts[k + 1], evs[k]));
    let n = ts[k].stack@.len() as int;
    assert(ts[k].settled().stack == ts[k].stack);
    assert(ts[k].stack@[n - 1].buf@[0] == e.entry);
}

/// Every level of a walk is listed as the walk was asked to: each kind of
/// read, each attribute name, each namespace, the access control list's
/// attribute, the metadata fields, the confinement and the batch size are
/// those of the walk's options, whenever in the walk it is opened; it is
/// listed in path order, from its beginning and in full.
pub proof fn law_levels_are_listed_as_asked<D>(
    ts: Seq<QueryTree<D>>,
    evs: Seq<Event<D>>,
    k: int,
    o: OpenLevel,
)
    requires
        history(ts, evs),
        0 <= k < evs.len(),
        evs[k] == Event::<D>::Went(TreeStep::Open(o)),
    ensures
        listing::same_reads(o.opts, ts[0].opts.entries),
        o.opts.order == Order::ByPathBytes,
        o.opts.name_prefix is None,
        o.opts.start_after is None,
{
    lemma_buffered_was_read(ts, evs, k as nat);
    assert(happened(ts[k], ts[k + 1], evs[k]));
    listing::law_reads_as_is_every_part(o.opts, ts[0].opts.entries);
}

/// The levels a walk is set up with are listed as it was asked to, in path
/// order; the prefix is for the root alone.
pub proof fn law_first_levels_are_listed_as_asked<D>(w: Restore<D>, o: OpenLevel)
    requires
        w.wf(),
        w.plans(Some(o)),
    ensures
        listing::same_reads(o.opts, w.opts.entries),
        o.opts.order == Order::ByPathBytes,
        w.stack@.len() == 0 ==> o.name is None && o.path@.len() == 0 && listing::opt_bytes(
            o.opts.name_prefix,
        ) == listing::opt_bytes(w.opts.entries.name_prefix),
        w.stack@.len() > 0 ==> o.name is Some && o.opts.name_prefix is None,
{
    listing::law_reads_as_is_every_part(o.opts, w.opts.entries);
    assert(w.spec_comps().take(0) =~= Seq::<Seq<u8>>::empty());
}

/// A walk that asks for metadata gives it: an entry of a level that was listed
/// as the walk asked, whose metadata was read through its descriptor, is given
/// with just that.
pub proof fn law_walk_gives_the_metadata_asked_for<D, T>(
    asked: TreeOptions,
    opts: QueryOptions,
    dir_dev: Option<(u32, u32)>,
    o: enrich::Opened<T>,
    sent: enrich::Sent<T>,
    p: enrich::Reading<T>,
    s: enrich::Settled<T>,
    grown: Seq<Option<Vec<u8>>>,
    grown_found: Seq<Option<Vec<u8>>>,
    answer: FsPending<T>,
    before: QueryTree<D>,
    after: QueryTree<D>,
    e: TreeEntry,
)
    requires
        listing::same_reads(opts, asked.entries),
        enrich::kept_through(
            opts,
            dir_dev,
            o,
            sent,
            p,
            s,
            grown,
            grown_found,
            before.stack@.last().buf@[0],
        ),
        o.file is Some,
        sent.statx == (if enrich::reads_of(opts.spec, o.file is Some).fstatx {
            Some(answer)
        } else {
            None
        }),
        asked.entries.spec.bits & 0x1 != 0,
        answer.outcome is Some,
        answer.outcome->0.res is Ok,
        answer.outcome->0.stat is Some,
        yielded(before, after, e),
    ensures
        e.entry.statx == answer.outcome->0.stat,
        e.entry.name == o.item.name,
        e.entry.is_dir == (answer.outcome->0.stat->0.mode & 0xf000 == 0x4000),
{
    enrich::law_metadata_asked_for_is_given(
        opts,
        dir_dev,
        o,
        sent,
        p,
        s,
        grown,
        grown_found,
        before.stack@.last().buf@[0],
        answer,
    );
    assert((opts.spec.bits & 0x1 != 0) == (asked.entries.spec.bits & 0x1 != 0));
}

/// A walk that asks for access control lists gives them: an entry of a level
/// that was listed as the walk asked is given with what reading its list
/// brought.
pub proof fn law_walk_gives_the_acl_asked_for<D, T>(
    asked: TreeOptions,
    opts: QueryOptions,
    dir_dev: Option<(u32, u32)>,
    o: enrich::Opened<T>,
    sent: enrich::Sent<T>,
    p: enrich::Reading<T>,
    s: enrich::Settled<T>,
    grown: Seq<Option<Vec<u8>>>,
    grown_found: Seq<Option<Vec<u8>>>,
    answer: FsPending<T>,
    before: QueryTree<D>,
    after: QueryTree<D>,
    e: TreeEntry,
)
    requires
        listing::same_reads(opts, asked.entries),
        enrich::kept_through(
            opts,
            dir_dev,
            o,
            sent,
            p,
            s,
            grown,
            grown_found,
            before.stack@.last().buf@[0],
        ),
        o.file is Some,
        sent.acl == (if enrich::reads_of(opts.spec, o.file is Some).acl {
            Some(answer)
        } else {
            None
        }),
        yielded(before, after, e),
    ensures
        asked.entries.spec.bits & 0x4 != 0 ==> enrich::brought(answer, e.entry.acl),
        asked.entries.spec.bits & 0x4 == 0 ==> e.entry.acl is None,
{
    enrich::law_acl_asked_for_is_given(
        opts,
        dir_dev,
        o,
        sent,
        p,
        s,
        grown,
        grown_found,
        before.stack@.last().buf@[0],
        answer,
    );
    assert((opts.spec.bits & 0x4 != 0) == (asked.entries.spec.bits & 0x4 != 0));
}

/// An entry's path is its directory's, a slash and its name; at the root its
/// name alone. Its key is that, with a slash behind a directory.
pub proof fn law_path_is_the_parent_and_the_name(e: TreeEntry)
    ensures
        e.parent@.len() == 0 ==> e.spec_path() == e.entry.name@,
        e.parent@.len() > 0 ==> e.spec_path() == e.parent@ + seq![0x2fu8] + e.entry.name@,
        e.entry.is_dir ==> e.spec_key() == e.spec_path() + seq![0x2fu8],
        !e.entry.is_dir ==> e.spec_key() == e.spec_path(),
{
    if e.parent@.len() == 0 {
        assert(e.spec_path() =~= e.entry.name@);
    } else {
        assert(e.spec_path() =~= e.parent@ + seq![0x2fu8] + e.entry.name@);
    }
    assert(e.entry.is_dir ==> e.spec_key() =~= e.spec_path() + seq![0x2fu8]);
}

/// A level whose reading fails drops out of the walk; unless it may not be
/// read or is gone, its failure is handed back, so that a partial listing never
/// reads as a whole one. The levels above it are as they were either way.
pub proof fn law_failed_level_is_reported<D>(
    before: QueryTree<D>,
    after: QueryTree<D>,
    e: Error,
    r: Option<Error>,
    i: int,
)
    requires
        before.stack@.len() > 0,
        took(before, after, Some(Err(e)), r),
    ensures
        r is None <==> {
            ||| e == Error::Errno(Errno::EPERM)
            ||| e == Error::Errno(Errno::ENOENT)
            ||| e == Error::Errno(Errno::EACCES)
        },
        r is Some ==> r == Some(e),
        after.stack@.len() == before.stack@.len() - 1,
        0 <= i < after.stack@.len() ==> after.stack@[i] == before.stack@[i],
{
}

} // verus!
