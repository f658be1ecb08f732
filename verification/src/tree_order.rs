//! What a walk of a subtree gives: every key below its root, in path order;
//! and, resumed after any of them, exactly those that follow.
//!
//! A subtree is seen here as what its directories list: `fs` takes a
//! directory's path to its entries, each a name and whether it is a directory.
use crate::bytes;
use crate::cursor;
use crate::enrich::DirEntry;
use crate::errno::Error;
use crate::listing;
use crate::names::SLASH;
use crate::order;
use crate::order::{Rank, SEPARATOR};
use crate::tree;
use crate::tree::{QueryTree, Restore, TreeEntry};
use vstd::prelude::*;

verus! {

/// An entry's key among full paths.
pub open spec fn entry_key(path: Seq<u8>, e: (Seq<u8>, bool)) -> Seq<u8> {
    order::path_key(tree::joined(path, e.0), e.1)
}

/// The keys a walk gives of the directory at `path`, whose entries are
/// `entries`, going `fuel` levels further down: each entry's own, then what is
/// below it.
pub open spec fn walk(
    fs: spec_fn(Seq<u8>) -> Seq<(Seq<u8>, bool)>,
    path: Seq<u8>,
    entries: Seq<(Seq<u8>, bool)>,
    fuel: nat,
) -> Seq<Seq<u8>>
    decreases fuel, entries.len(),
{
    if entries.len() == 0 {
        Seq::empty()
    } else {
        let e = entries[0];
        let sub = tree::joined(path, e.0);
        let below = if e.1 && fuel > 0 {
            walk(fs, sub, fs(sub), (fuel - 1) as nat)
        } else {
            Seq::empty()
        };
        seq![entry_key(path, e)] + below + walk(fs, path, entries.drop_first(), fuel)
    }
}

/// What a directory lists: names, each a component, strictly in path order.
pub open spec fn orderly_listing(entries: Seq<(Seq<u8>, bool)>) -> bool {
    &&& forall|i: int|
        0 <= i < entries.len() ==> (#[trigger] entries[i]).0.len() > 0 && !entries[i].0.contains(
            SEPARATOR,
        )
    &&& forall|i: int, j: int|
        0 <= i < j < entries.len() ==> order::rank(
            order::path_key((#[trigger] entries[i]).0, entries[i].1),
            order::path_key((#[trigger] entries[j]).0, entries[j].1),
        ) == Rank::Before
}

/// Every directory's listing is orderly.
pub open spec fn orderly(fs: spec_fn(Seq<u8>) -> Seq<(Seq<u8>, bool)>) -> bool {
    forall|p: Seq<u8>| orderly_listing(#[trigger] fs(p))
}

/// Keys strictly in order.
pub open spec fn in_order(keys: Seq<Seq<u8>>) -> bool {
    forall|i: int, j: int|
        0 <= i < j < keys.len() ==> order::rank(#[trigger] keys[i], #[trigger] keys[j])
            == Rank::Before
}

/// Whether `k` is the key of `e` in the directory at `path`, or of something
/// below it.
pub open spec fn at_or_below(k: Seq<u8>, path: Seq<u8>, e: (Seq<u8>, bool)) -> bool {
    let own = tree::dir_prefix(path) + order::path_key(e.0, e.1);
    own.is_prefix_of(k) && (e.1 || k.len() == own.len())
}

/// Whether `k` is the key of one of the entries, or of something below one.
pub open spec fn belongs(k: Seq<u8>, path: Seq<u8>, entries: Seq<(Seq<u8>, bool)>) -> bool {
    exists|j: int| 0 <= j < entries.len() && #[trigger] at_or_below(k, path, entries[j])
}

pub proof fn lemma_entry_key(path: Seq<u8>, e: (Seq<u8>, bool))
    requires
        e.0.len() > 0,
    ensures
        entry_key(path, e) == tree::dir_prefix(path) + order::path_key(e.0, e.1),
        e.1 ==> tree::dir_prefix(tree::joined(path, e.0)) == entry_key(path, e),
{
    assert(entry_key(path, e) =~= tree::dir_prefix(path) + order::path_key(e.0, e.1));
}

proof fn lemma_rank_after_prefix(pre: Seq<u8>, a: Seq<u8>, b: Seq<u8>)
    ensures
        order::rank(pre + a, pre + b) == order::rank(a, b),
    decreases pre.len(),
{
    if pre.len() == 0 {
        assert(pre + a =~= a);
        assert(pre + b =~= b);
    } else {
        assert((pre + a).drop_first() =~= pre.drop_first() + a);
        assert((pre + b).drop_first() =~= pre.drop_first() + b);
        lemma_rank_after_prefix(pre.drop_first(), a, b);
    }
}

pub proof fn lemma_rest_is_orderly(entries: Seq<(Seq<u8>, bool)>)
    requires
        orderly_listing(entries),
        entries.len() > 0,
    ensures
        orderly_listing(entries.drop_first()),
{
    let rest = entries.drop_first();
    assert forall|i: int| 0 <= i < rest.len() implies (#[trigger] rest[i]).0.len() > 0
        && !rest[i].0.contains(SEPARATOR) by {
        assert(rest[i] == entries[i + 1]);
    }
    assert forall|i: int, j: int| 0 <= i < j < rest.len() implies order::rank(
        order::path_key((#[trigger] rest[i]).0, rest[i].1),
        order::path_key((#[trigger] rest[j]).0, rest[j].1),
    ) == Rank::Before by {
        assert(rest[i] == entries[i + 1]);
        assert(rest[j] == entries[j + 1]);
    }
}

/// Every key of a walk is that of one of the entries or below one.
pub proof fn lemma_walk_is_at_or_below(
    fs: spec_fn(Seq<u8>) -> Seq<(Seq<u8>, bool)>,
    path: Seq<u8>,
    entries: Seq<(Seq<u8>, bool)>,
    fuel: nat,
)
    requires
        orderly(fs),
        orderly_listing(entries),
    ensures
        forall|i: int|
            0 <= i < walk(fs, path, entries, fuel).len() ==> belongs(
                #[trigger] walk(fs, path, entries, fuel)[i],
                path,
                entries,
            ),
    decreases fuel, entries.len(),
{
    if entries.len() > 0 {
        let e = entries[0];
        let sub = tree::joined(path, e.0);
        let w = walk(fs, path, entries, fuel);
        let below = if e.1 && fuel > 0 {
            walk(fs, sub, fs(sub), (fuel - 1) as nat)
        } else {
            Seq::empty()
        };
        let rest = walk(fs, path, entries.drop_first(), fuel);
        lemma_rest_is_orderly(entries);
        lemma_walk_is_at_or_below(fs, path, entries.drop_first(), fuel);
        lemma_entry_key(path, e);
        if e.1 && fuel > 0 {
            lemma_below_is_below(fs, path, e, (fuel - 1) as nat);
        }
        assert forall|i: int| 0 <= i < w.len() implies belongs(
            #[trigger] w[i],
            path,
            entries,
        ) by {
            if i == 0 {
                let k = entry_key(path, e);
                assert(k.subrange(0, k.len() as int) =~= k);
                assert(at_or_below(w[0], path, entries[0]));
            } else if i <= below.len() {
                assert(w[i] == below[i - 1]);
                assert(at_or_below(w[i], path, entries[0]));
            } else {
                let n = i - 1 - below.len();
                assert(w[i] == rest[n]);
                assert(belongs(rest[n], path, entries.drop_first()));
                let j = choose|j: int|
                    0 <= j < entries.drop_first().len() && #[trigger] at_or_below(
                        rest[n],
                        path,
                        entries.drop_first()[j],
                    );
                assert(entries.drop_first()[j] == entries[j + 1]);
                assert(at_or_below(w[i], path, entries[j + 1]));
            }
        }
    }
}

/// What a walk gives below a directory begins with the directory's own key and
/// goes on.
pub proof fn lemma_below_is_below(
    fs: spec_fn(Seq<u8>) -> Seq<(Seq<u8>, bool)>,
    path: Seq<u8>,
    e: (Seq<u8>, bool),
    fuel: nat,
)
    requires
        orderly(fs),
        e.0.len() > 0,
        e.1,
    ensures
        ({
            let sub = tree::joined(path, e.0);
            let keys = walk(fs, sub, fs(sub), fuel);
            forall|i: int|
                0 <= i < keys.len() ==> {
                    &&& at_or_below(#[trigger] keys[i], path, e)
                    &&& entry_key(path, e).is_prefix_of(keys[i])
                    &&& entry_key(path, e).len() < keys[i].len()
                }
        }),
    decreases fuel, fs(tree::joined(path, e.0)).len(),
{
    let sub = tree::joined(path, e.0);
    let keys = walk(fs, sub, fs(sub), fuel);
    assert(orderly_listing(fs(sub)));
    lemma_entry_key(path, e);
    lemma_keys_extend_prefix(fs, sub, fs(sub), fuel);
    assert forall|i: int| 0 <= i < keys.len() implies {
        &&& at_or_below(#[trigger] keys[i], path, e)
        &&& entry_key(path, e).is_prefix_of(keys[i])
        &&& entry_key(path, e).len() < keys[i].len()
    } by {
        assert(tree::dir_prefix(sub).is_prefix_of(keys[i]));
    }
}

/// Every key of a walk begins with what stands before a name in its directory,
/// and goes on.
pub proof fn lemma_keys_extend_prefix(
    fs: spec_fn(Seq<u8>) -> Seq<(Seq<u8>, bool)>,
    path: Seq<u8>,
    entries: Seq<(Seq<u8>, bool)>,
    fuel: nat,
)
    requires
        orderly(fs),
        orderly_listing(entries),
    ensures
        forall|i: int|
            0 <= i < walk(fs, path, entries, fuel).len() ==> {
                &&& tree::dir_prefix(path).is_prefix_of(#[trigger] walk(fs, path, entries, fuel)[i])
                &&& tree::dir_prefix(path).len() < walk(fs, path, entries, fuel)[i].len()
            },
    decreases fuel, entries.len(),
{
    if entries.len() > 0 {
        let e = entries[0];
        let sub = tree::joined(path, e.0);
        let pre = tree::dir_prefix(path);
        let w = walk(fs, path, entries, fuel);
        let below = if e.1 && fuel > 0 {
            walk(fs, sub, fs(sub), (fuel - 1) as nat)
        } else {
            Seq::empty()
        };
        let rest = walk(fs, path, entries.drop_first(), fuel);
        lemma_rest_is_orderly(entries);
        lemma_entry_key(path, e);
        lemma_keys_extend_prefix(fs, path, entries.drop_first(), fuel);
        if e.1 && fuel > 0 {
            assert(orderly_listing(fs(sub)));
            lemma_keys_extend_prefix(fs, sub, fs(sub), (fuel - 1) as nat);
        }
        assert forall|i: int| 0 <= i < w.len() implies {
            &&& pre.is_prefix_of(#[trigger] w[i])
            &&& pre.len() < w[i].len()
        } by {
            if i == 0 {
                assert(entry_key(path, e).subrange(0, pre.len() as int) =~= pre);
            } else if i <= below.len() {
                assert(w[i] == below[i - 1]);
                let k = tree::dir_prefix(sub);
                assert(k =~= w[i].subrange(0, k.len() as int));
                assert(w[i].subrange(0, pre.len() as int) =~= k.subrange(0, pre.len() as int));
                assert(k.subrange(0, pre.len() as int) =~= pre);
            } else {
                assert(w[i] == rest[i - 1 - below.len()]);
            }
        }
    }
}

/// Two runs of keys in order, all of the first before all of the second, are
/// in order together.
proof fn lemma_in_order_together(a: Seq<Seq<u8>>, b: Seq<Seq<u8>>)
    requires
        in_order(a),
        in_order(b),
        forall|i: int, j: int|
            0 <= i < a.len() && 0 <= j < b.len() ==> order::rank(#[trigger] a[i], #[trigger] b[j])
                == Rank::Before,
    ensures
        in_order(a + b),
{
    let s = a + b;
    assert forall|i: int, j: int| 0 <= i < j < s.len() implies order::rank(
        #[trigger] s[i],
        #[trigger] s[j],
    ) == Rank::Before by {
        if j < a.len() {
            assert(s[i] == a[i] && s[j] == a[j]);
        } else if i >= a.len() {
            assert(s[i] == b[i - a.len()] && s[j] == b[j - a.len()]);
        } else {
            assert(s[i] == a[i] && s[j] == b[j - a.len()]);
        }
    }
}

/// What is at or below an entry is before what is at or below a later one.
pub proof fn lemma_subtrees_in_order(
    path: Seq<u8>,
    a: (Seq<u8>, bool),
    b: (Seq<u8>, bool),
    x: Seq<u8>,
    y: Seq<u8>,
)
    requires
        !a.0.contains(SEPARATOR),
        !b.0.contains(SEPARATOR),
        order::rank(order::path_key(a.0, a.1), order::path_key(b.0, b.1)) == Rank::Before,
        at_or_below(x, path, a),
        at_or_below(y, path, b),
    ensures
        order::rank(x, y) == Rank::Before,
{
    let pre = tree::dir_prefix(path);
    let (ka, kb) = (order::path_key(a.0, a.1), order::path_key(b.0, b.1));
    let (oa, ob) = (pre + ka, pre + kb);
    let s = x.subrange(oa.len() as int, x.len() as int);
    let t = y.subrange(ob.len() as int, y.len() as int);
    assert(oa =~= x.subrange(0, oa.len() as int));
    assert(ob =~= y.subrange(0, ob.len() as int));
    assert(x =~= pre + (ka + s)) by {
        assert(x =~= x.subrange(0, oa.len() as int) + s);
    }
    assert(y =~= pre + (kb + t)) by {
        assert(y =~= y.subrange(0, ob.len() as int) + t);
    }
    order::law_directory_order_composes(a, b, s, t);
    lemma_rank_after_prefix(pre, ka + s, kb + t);
}

/// A walk gives its keys in path order, each once: every directory's entries
/// listed in path order, descending into each as it is given makes a subtree
/// that is in path order as a whole.
pub proof fn law_walk_is_in_path_order(
    fs: spec_fn(Seq<u8>) -> Seq<(Seq<u8>, bool)>,
    path: Seq<u8>,
    entries: Seq<(Seq<u8>, bool)>,
    fuel: nat,
)
    requires
        orderly(fs),
        orderly_listing(entries),
    ensures
        in_order(walk(fs, path, entries, fuel)),
    decreases fuel, entries.len(),
{
    if entries.len() > 0 {
        let e = entries[0];
        let sub = tree::joined(path, e.0);
        let own = seq![entry_key(path, e)];
        let below = if e.1 && fuel > 0 {
            walk(fs, sub, fs(sub), (fuel - 1) as nat)
        } else {
            Seq::empty()
        };
        let rest = walk(fs, path, entries.drop_first(), fuel);
        lemma_rest_is_orderly(entries);
        lemma_entry_key(path, e);
        law_walk_is_in_path_order(fs, path, entries.drop_first(), fuel);
        if e.1 && fuel > 0 {
            assert(orderly_listing(fs(sub)));
            law_walk_is_in_path_order(fs, sub, fs(sub), (fuel - 1) as nat);
            lemma_below_is_below(fs, path, e, (fuel - 1) as nat);
        }
        assert forall|i: int, j: int| 0 <= i < own.len() && 0 <= j < below.len() implies order::rank(
            #[trigger] own[i],
            #[trigger] below[j],
        ) == Rank::Before by {
            let k = entry_key(path, e);
            let tail = below[j].subrange(k.len() as int, below[j].len() as int);
            assert(k =~= below[j].subrange(0, k.len() as int));
            assert(below[j] =~= k + tail);
            order::lemma_prefix_is_before(k, tail);
        }
        lemma_in_order_together(own, below);
        let first = own + below;
        lemma_walk_is_at_or_below(fs, path, entries.drop_first(), fuel);
        assert forall|i: int, j: int| 0 <= i < first.len() && 0 <= j < rest.len() implies order::rank(
            #[trigger] first[i],
            #[trigger] rest[j],
        ) == Rank::Before by {
            let k = entry_key(path, e);
            assert(at_or_below(first[i], path, e)) by {
                if i == 0 {
                    assert(k.subrange(0, k.len() as int) =~= k);
                } else {
                    assert(first[i] == below[i - 1]);
                }
            }
            assert(belongs(rest[j], path, entries.drop_first()));
            let m = choose|m: int|
                0 <= m < entries.drop_first().len() && #[trigger] at_or_below(
                    rest[j],
                    path,
                    entries.drop_first()[m],
                );
            let f = entries.drop_first()[m];
            assert(f == entries[m + 1]);
            lemma_subtrees_in_order(path, e, f, first[i], rest[j]);
        }
        lemma_in_order_together(first, rest);
        assert(walk(fs, path, entries, fuel) =~= first + rest);
    }
}

/// A level of a walk: where it is and what it has still to give.
pub struct Level {
    pub path: Seq<u8>,
    pub left: Seq<(Seq<u8>, bool)>,
}

/// The keys a walk with these levels, the root's first, has still to give: the
/// deepest level's, then what is left above it.
pub open spec fn todo(
    fs: spec_fn(Seq<u8>) -> Seq<(Seq<u8>, bool)>,
    levels: Seq<Level>,
    max_depth: nat,
) -> Seq<Seq<u8>>
    decreases levels.len(),
{
    if levels.len() == 0 {
        Seq::empty()
    } else {
        let top = levels.last();
        walk(fs, top.path, top.left, (max_depth - levels.len()) as nat) + todo(
            fs,
            levels.drop_last(),
            max_depth,
        )
    }
}

/// What of a listing is past the place a level starts at.
pub open spec fn past_cut(entries: Seq<(Seq<u8>, bool)>, cut: Option<Seq<u8>>) -> Seq<
    (Seq<u8>, bool),
> {
    entries.filter(|e: (Seq<u8>, bool)| listing::past(order::path_key(e.0, e.1), cut))
}

/// The levels of a walk below `base`, resumed after the key these components
/// are of.
pub open spec fn resumed(
    fs: spec_fn(Seq<u8>) -> Seq<(Seq<u8>, bool)>,
    base: Seq<u8>,
    comps: Seq<Seq<u8>>,
    into_dir: bool,
    max_depth: nat,
) -> Seq<Level> {
    let descent = tree::descent(comps, into_dir, max_depth);
    Seq::new(
        descent + 1,
        |d: int|
            Level {
                path: tree::path_below(base, comps.take(d)),
                left: past_cut(
                    fs(tree::path_below(base, comps.take(d))),
                    tree::cut(comps, into_dir, descent, d as nat),
                ),
            },
    )
}

proof fn lemma_todo_one(
    fs: spec_fn(Seq<u8>) -> Seq<(Seq<u8>, bool)>,
    only: Level,
    max_depth: nat,
)
    ensures
        todo(fs, seq![only], max_depth) == walk(
            fs,
            only.path,
            only.left,
            (max_depth - 1) as nat,
        ),
{
    let one = seq![only];
    assert(one.drop_last() =~= Seq::<Level>::empty());
    assert(todo(fs, one.drop_last(), max_depth) =~= Seq::<Seq<u8>>::empty());
    assert(one.last() == only);
    assert(todo(fs, one, max_depth) =~= walk(
        fs,
        only.path,
        only.left,
        (max_depth - 1) as nat,
    ));
}

proof fn lemma_todo_from_the_root(
    fs: spec_fn(Seq<u8>) -> Seq<(Seq<u8>, bool)>,
    root: Level,
    rest: Seq<Level>,
    max_depth: nat,
)
    requires
        rest.len() < max_depth,
    ensures
        todo(fs, seq![root] + rest, max_depth) == todo(fs, rest, (max_depth - 1) as nat) + walk(
            fs,
            root.path,
            root.left,
            (max_depth - 1) as nat,
        ),
    decreases rest.len(),
{
    let all = seq![root] + rest;
    let own = walk(fs, root.path, root.left, (max_depth - 1) as nat);
    if rest.len() == 0 {
        assert(all =~= seq![root]);
        lemma_todo_one(fs, root, max_depth);
        assert(todo(fs, rest, (max_depth - 1) as nat) + own =~= own);
    } else {
        assert(all.drop_last() =~= seq![root] + rest.drop_last());
        assert(all.last() == rest.last());
        lemma_todo_from_the_root(fs, root, rest.drop_last(), max_depth);
        let top = walk(
            fs,
            rest.last().path,
            rest.last().left,
            (max_depth - 1 - rest.len()) as nat,
        );
        let mid = todo(fs, rest.drop_last(), (max_depth - 1) as nat);
        assert(todo(fs, all, max_depth) =~= top + (mid + own));
        assert(todo(fs, rest, (max_depth - 1) as nat) =~= top + mid);
        assert(top + (mid + own) =~= (top + mid) + own);
    }
}

pub proof fn lemma_path_below_first(base: Seq<u8>, comps: Seq<Seq<u8>>)
    requires
        comps.len() > 0,
    ensures
        tree::path_below(base, comps) == tree::path_below(
            tree::joined(base, comps[0]),
            comps.drop_first(),
        ),
    decreases comps.len(),
{
    let rest = comps.drop_first();
    if comps.len() == 1 {
        assert(comps.drop_last() =~= Seq::<Seq<u8>>::empty());
        assert(tree::path_below(base, comps.drop_last()) == base);
        assert(rest =~= Seq::<Seq<u8>>::empty());
    } else {
        lemma_path_below_first(base, comps.drop_last());
        assert(comps.drop_last().drop_first() =~= rest.drop_last());
        assert(rest.last() == comps.last());
    }
}

/// A resumed walk that goes down has the root's level and, below it, the walk
/// of that directory, resumed.
proof fn lemma_resumed_from_the_root(
    fs: spec_fn(Seq<u8>) -> Seq<(Seq<u8>, bool)>,
    base: Seq<u8>,
    comps: Seq<Seq<u8>>,
    into_dir: bool,
    max_depth: nat,
)
    requires
        max_depth >= 2,
        tree::descent(comps, into_dir, max_depth) >= 1,
    ensures
        resumed(fs, base, comps, into_dir, max_depth) == seq![
            Level {
                path: base,
                left: past_cut(fs(base), Some(order::path_key(comps[0], true))),
            },
        ] + resumed(
            fs,
            tree::joined(base, comps[0]),
            comps.drop_first(),
            into_dir,
            (max_depth - 1) as nat,
        ),
        tree::descent(comps, into_dir, max_depth) == 1 + tree::descent(
            comps.drop_first(),
            into_dir,
            (max_depth - 1) as nat,
        ),
{
    let rest = comps.drop_first();
    let sub = tree::joined(base, comps[0]);
    let d0 = tree::descent(comps, into_dir, max_depth);
    let d1 = tree::descent(rest, into_dir, (max_depth - 1) as nat);
    assert(d0 == d1 + 1);
    let lhs = resumed(fs, base, comps, into_dir, max_depth);
    let below = resumed(fs, sub, rest, into_dir, (max_depth - 1) as nat);
    let root = Level { path: base, left: past_cut(fs(base), Some(order::path_key(comps[0], true))) };
    let rhs = seq![root] + below;
    assert(lhs.len() == rhs.len());
    assert forall|d: int| 0 <= d < lhs.len() implies lhs[d] == rhs[d] by {
        if d == 0 {
            assert(comps.take(0) =~= Seq::<Seq<u8>>::empty());
            assert(tree::path_below(base, comps.take(0)) == base);
            assert(rhs[0] == root);
        } else {
            let t = comps.take(d);
            assert(t.drop_first() =~= rest.take(d - 1));
            lemma_path_below_first(base, t);
            assert(tree::cut(comps, into_dir, d0, d as nat) == tree::cut(
                rest,
                into_dir,
                d1,
                (d - 1) as nat,
            ));
            assert(rhs[d] == below[d - 1]);
        }
    }
    assert(lhs =~= rhs);
}

/// The components of a key that goes through a directory: the directory, and
/// those of what follows it.
proof fn lemma_components_through(c: Seq<u8>, rest: Seq<u8>)
    requires
        c.len() > 0,
        !c.contains(SLASH),
    ensures
        cursor::components_of(c.push(SLASH) + rest) == seq![c] + cursor::components_of(rest),
        cursor::names_dir(c.push(SLASH) + rest) == (rest.len() == 0 || cursor::names_dir(rest)),
{
    bytes::lemma_split_at(c, rest, SLASH);
    bytes::lemma_split_one(c, SLASH);
    cursor::lemma_nonempty_parts(seq![c], bytes::split_on(rest, SLASH));
    cursor::lemma_nonempty_one(c);
    let k = c.push(SLASH) + rest;
    if rest.len() == 0 {
        assert(k =~= c.push(SLASH));
    } else {
        assert(k.last() == rest.last());
    }
}

/// The components of an entry's own key: its name.
proof fn lemma_components_own(c: Seq<u8>, dir: bool)
    requires
        c.len() > 0,
        !c.contains(SLASH),
    ensures
        cursor::components_of(order::path_key(c, dir)) == seq![c],
        cursor::names_dir(order::path_key(c, dir)) == dir,
{
    if dir {
        lemma_components_through(c, Seq::empty());
        assert(c.push(SLASH) + Seq::<u8>::empty() =~= order::path_key(c, true));
        bytes::lemma_split_one(Seq::empty(), SLASH);
        cursor::lemma_nonempty_one(Seq::empty());
        assert(seq![c] + Seq::<Seq<u8>>::empty() =~= seq![c]);
    } else {
        bytes::lemma_split_one(c, SLASH);
        cursor::lemma_nonempty_one(c);
        assert(c[c.len() - 1] == c.last());
        assert(c.last() == SLASH ==> c.contains(SLASH));
    }
}

/// Starting nowhere leaves nothing out.
pub proof fn lemma_past_nowhere(entries: Seq<(Seq<u8>, bool)>)
    ensures
        past_cut(entries, None) == entries,
    decreases entries.len(),
{
    reveal(Seq::filter);
    if entries.len() > 0 {
        lemma_past_nowhere(entries.drop_last());
        assert(past_cut(entries, None) =~= past_cut(entries.drop_last(), None).push(
            entries.last(),
        ));
        assert(entries.drop_last().push(entries.last()) =~= entries);
    } else {
        assert(past_cut(entries, None) =~= entries);
    }
}

/// Starting after the entry at `j` leaves those that follow it.
proof fn lemma_past_entry(entries: Seq<(Seq<u8>, bool)>, j: int, n: int)
    requires
        orderly_listing(entries),
        0 <= j < entries.len(),
        0 <= n <= entries.len(),
    ensures
        past_cut(entries.take(n), Some(order::path_key(entries[j].0, entries[j].1))) == (if n <= j {
            Seq::empty()
        } else {
            entries.take(n).skip(j + 1)
        }),
    decreases n,
{
    reveal(Seq::filter);
    let k = order::path_key(entries[j].0, entries[j].1);
    let s = entries.take(n);
    if n == 0 {
        assert(past_cut(s, Some(k)) =~= Seq::<(Seq<u8>, bool)>::empty());
    } else {
        lemma_past_entry(entries, j, n - 1);
        assert(s.drop_last() =~= entries.take(n - 1));
        assert(s.last() == entries[n - 1]);
        let m = order::path_key(entries[n - 1].0, entries[n - 1].1);
        if n - 1 < j {
            assert(order::rank(m, k) == Rank::Before);
            assert(past_cut(s, Some(k)) =~= Seq::<(Seq<u8>, bool)>::empty());
        } else if n - 1 == j {
            order::lemma_rank_same(k, k);
            assert(past_cut(s, Some(k)) =~= Seq::<(Seq<u8>, bool)>::empty());
            assert(s.skip(j + 1) =~= Seq::<(Seq<u8>, bool)>::empty());
        } else {
            assert(order::rank(k, m) == Rank::Before);
            order::lemma_rank_flips(k, m);
            assert(past_cut(s, Some(k)) =~= past_cut(s.drop_last(), Some(k)).push(s.last()));
            assert(s.skip(j + 1) =~= entries.take(n - 1).skip(j + 1).push(s.last()));
        }
    }
}

/// Resumed after one of its keys, the walk of a directory gives those that
/// follow: by induction over the entries from the one at `j` on, and down.
proof fn lemma_resume(
    fs: spec_fn(Seq<u8>) -> Seq<(Seq<u8>, bool)>,
    path: Seq<u8>,
    max_depth: nat,
    j: int,
    i: int,
)
    requires
        orderly(fs),
        max_depth >= 1,
        0 <= j <= fs(path).len(),
        0 <= i < walk(fs, path, fs(path).skip(j), (max_depth - 1) as nat).len(),
    ensures
        ({
            let w = walk(fs, path, fs(path).skip(j), (max_depth - 1) as nat);
            let rel = w[i].skip(tree::dir_prefix(path).len() as int);
            todo(
                fs,
                resumed(
                    fs,
                    path,
                    cursor::components_of(rel),
                    cursor::names_dir(rel),
                    max_depth,
                ),
                max_depth,
            ) == w.skip(i + 1)
        }),
    decreases max_depth, fs(path).len() - j,
{
    let fuel = (max_depth - 1) as nat;
    let all = fs(path);
    let s = all.skip(j);
    let w = walk(fs, path, s, fuel);
    let pre = tree::dir_prefix(path);
    let rel = w[i].skip(pre.len() as int);
    assert(orderly_listing(all));
    assert(s.len() > 0);
    let e = s[0];
    assert(e == all[j]);
    let sub = tree::joined(path, e.0);
    let own = entry_key(path, e);
    let below = if e.1 && fuel > 0 {
        walk(fs, sub, fs(sub), (fuel - 1) as nat)
    } else {
        Seq::empty()
    };
    assert(s.drop_first() =~= all.skip(j + 1));
    let rest = walk(fs, path, all.skip(j + 1), fuel);
    assert(w =~= seq![own] + below + rest);
    lemma_entry_key(path, e);
    lemma_past_entry(all, j, all.len() as int);
    assert(all.take(all.len() as int) =~= all);
    let root = Level { path, left: all.skip(j + 1) };
    let comps = cursor::components_of(rel);
    let into_dir = cursor::names_dir(rel);
    if i == 0 {
        assert(rel =~= order::path_key(e.0, e.1));
        lemma_components_own(e.0, e.1);
        assert(comps == seq![e.0]);
        if e.1 && fuel > 0 {
            lemma_resumed_from_the_root(fs, path, comps, into_dir, max_depth);
            let none = comps.drop_first();
            assert(none =~= Seq::<Seq<u8>>::empty());
            let deep = resumed(fs, sub, none, into_dir, (max_depth - 1) as nat);
            assert(none.take(0) =~= Seq::<Seq<u8>>::empty());
            lemma_past_nowhere(fs(sub));
            assert(deep =~= seq![Level { path: sub, left: fs(sub) }]);
            lemma_todo_from_the_root(fs, root, deep, max_depth);
            lemma_todo_one(fs, Level { path: sub, left: fs(sub) }, (max_depth - 1) as nat);
        } else {
            let levels = resumed(fs, path, comps, into_dir, max_depth);
            assert(tree::descent(comps, into_dir, max_depth) == 0);
            assert(comps.take(0) =~= Seq::<Seq<u8>>::empty());
            assert(tree::path_below(path, comps.take(0)) == path);
            assert(levels =~= seq![root]);
            lemma_todo_one(fs, root, max_depth);
            assert(below + rest =~= rest);
        }
        assert(w.skip(1) =~= below + rest);
    } else if i <= below.len() {
        assert(fs(sub).skip(0) =~= fs(sub));
        assert(w[i] == below[i - 1]);
        lemma_resume(fs, sub, (max_depth - 1) as nat, 0, i - 1);
        lemma_keys_extend_prefix(fs, sub, fs(sub), (fuel - 1) as nat);
        assert(orderly_listing(fs(sub)));
        let pre2 = tree::dir_prefix(sub);
        let rel2 = w[i].skip(pre2.len() as int);
        assert(pre2 =~= w[i].subrange(0, pre2.len() as int));
        assert(pre2 == pre + order::path_key(e.0, true));
        assert(rel =~= e.0.push(SLASH) + rel2) by {
            assert(w[i] =~= pre2 + rel2);
        }
        lemma_components_through(e.0, rel2);
        let deeper = cursor::components_of(rel2);
        lemma_walk_is_at_or_below(fs, sub, fs(sub), (fuel - 1) as nat);
        lemma_has_component(fs, sub, fs(sub), w[i]);
        assert(comps.drop_first() =~= deeper);
        assert(comps[0] == e.0);
        lemma_resumed_from_the_root(fs, path, comps, into_dir, max_depth);
        let deep = resumed(fs, sub, deeper, into_dir, (max_depth - 1) as nat);
        lemma_todo_from_the_root(fs, root, deep, max_depth);
        assert(below.skip(i) + rest =~= w.skip(i + 1));
    } else {
        let n = i - 1 - below.len();
        assert(w[i] == rest[n]);
        lemma_resume(fs, path, max_depth, j + 1, n);
        assert(rest.skip(n + 1) =~= w.skip(i + 1));
    }
}

/// A key of a walk has a component below the walk's directory.
proof fn lemma_has_component(
    fs: spec_fn(Seq<u8>) -> Seq<(Seq<u8>, bool)>,
    path: Seq<u8>,
    entries: Seq<(Seq<u8>, bool)>,
    k: Seq<u8>,
)
    requires
        orderly_listing(entries),
        belongs(k, path, entries),
    ensures
        cursor::components_of(k.skip(tree::dir_prefix(path).len() as int)).len() >= 1,
        k.len() > tree::dir_prefix(path).len(),
{
    let pre = tree::dir_prefix(path);
    let j = choose|j: int| 0 <= j < entries.len() && #[trigger] at_or_below(k, path, entries[j]);
    let e = entries[j];
    let own = pre + order::path_key(e.0, e.1);
    assert(own =~= k.subrange(0, own.len() as int));
    let rel = k.skip(pre.len() as int);
    let tail = k.skip(own.len() as int);
    if e.1 {
        assert(rel =~= e.0.push(SLASH) + tail) by {
            assert(k =~= own + tail);
        }
        lemma_components_through(e.0, tail);
    } else {
        assert(k =~= own);
        assert(rel =~= e.0);
        lemma_components_own(e.0, false);
    }
}

/// Resuming is exact: a walk resumed after any key that the whole walk gave
/// gives exactly the keys the whole walk gave after it. Nothing is repeated and
/// nothing is left out.
pub proof fn law_resume_is_exact(
    fs: spec_fn(Seq<u8>) -> Seq<(Seq<u8>, bool)>,
    max_depth: nat,
    i: int,
)
    requires
        orderly(fs),
        max_depth >= 1,
        0 <= i < walk(fs, Seq::empty(), fs(Seq::empty()), (max_depth - 1) as nat).len(),
    ensures
        ({
            let whole = walk(fs, Seq::empty(), fs(Seq::empty()), (max_depth - 1) as nat);
            let key = whole[i];
            todo(
                fs,
                resumed(
                    fs,
                    Seq::empty(),
                    cursor::components_of(key),
                    cursor::names_dir(key),
                    max_depth,
                ),
                max_depth,
            ) == whole.skip(i + 1)
        }),
{
    let root = Seq::<u8>::empty();
    assert(fs(root).skip(0) =~= fs(root));
    lemma_resume(fs, root, max_depth, 0, i);
    let key = walk(fs, root, fs(root), (max_depth - 1) as nat)[i];
    assert(key.skip(0) =~= key);
}

/// A walk that resumes after nothing is the whole walk.
pub proof fn law_empty_cursor_is_the_beginning(
    fs: spec_fn(Seq<u8>) -> Seq<(Seq<u8>, bool)>,
    max_depth: nat,
)
    requires
        max_depth >= 1,
    ensures
        todo(
            fs,
            resumed(
                fs,
                Seq::empty(),
                cursor::components_of(Seq::empty()),
                cursor::names_dir(Seq::empty()),
                max_depth,
            ),
            max_depth,
        ) == walk(fs, Seq::empty(), fs(Seq::empty()), (max_depth - 1) as nat),
{
    let root = Seq::<u8>::empty();
    bytes::lemma_split_one(root, SLASH);
    cursor::lemma_nonempty_one(root);
    let none = cursor::components_of(root);
    assert(none =~= Seq::<Seq<u8>>::empty());
    let levels = resumed(fs, root, none, false, max_depth);
    assert(none.take(0) =~= Seq::<Seq<u8>>::empty());
    lemma_past_nowhere(fs(root));
    assert(levels =~= seq![Level { path: root, left: fs(root) }]);
    lemma_todo_one(fs, Level { path: root, left: fs(root) }, max_depth);
}

/// The names and types of entries.
pub open spec fn listed_as(entries: Seq<DirEntry>) -> Seq<(Seq<u8>, bool)> {
    entries.map_values(|e: DirEntry| (e.name@, e.is_dir))
}

/// The levels of a walk under way, where each level's directory has still
/// `more` to list beyond what was read of it.
pub open spec fn levels_of<D>(t: QueryTree<D>, more: Seq<Seq<(Seq<u8>, bool)>>) -> Seq<Level> {
    Seq::new(
        t.stack@.len(),
        |i: int|
            Level { path: t.stack@[i].path@, left: listed_as(t.stack@[i].buf@) + more[i] },
    )
}

/// The keys a walk under way has still to give: what is below the directory it
/// gave last, then what its levels have left.
pub open spec fn remaining<D>(
    t: QueryTree<D>,
    fs: spec_fn(Seq<u8>) -> Seq<(Seq<u8>, bool)>,
    more: Seq<Seq<(Seq<u8>, bool)>>,
) -> Seq<Seq<u8>> {
    let below = match t.pending {
        Some(p) => walk(fs, p@, fs(p@), (t.opts.max_depth - t.stack@.len() - 1) as nat),
        None => Seq::empty(),
    };
    below + todo(fs, levels_of(t, more), t.opts.max_depth as nat)
}

/// The entry a walk gives is the next of what remained: [`tree::yielded`] is
/// what [`QueryTree::next`] ensures of one.
pub proof fn law_walk_gives_what_is_next<D>(
    before: QueryTree<D>,
    after: QueryTree<D>,
    e: TreeEntry,
    fs: spec_fn(Seq<u8>) -> Seq<(Seq<u8>, bool)>,
    more: Seq<Seq<(Seq<u8>, bool)>>,
)
    requires
        before.pending is None,
        before.stack@.len() <= before.opts.max_depth,
        more.len() == before.stack@.len(),
        tree::yielded(before, after, e),
    ensures
        remaining(before, fs, more) == seq![e.spec_key()] + remaining(after, fs, more),
{
    let n = before.stack@.len() as int;
    let m = before.opts.max_depth as nat;
    let (lb, la) = (levels_of(before, more), levels_of(after, more));
    let buf = before.stack@[n - 1].buf@;
    assert(lb.drop_last() =~= la.drop_last()) by {
        assert forall|i: int| 0 <= i < n - 1 implies lb[i] == la[i] by {
            assert(after.stack@[i] == before.stack@[i]);
        }
    }
    let left = lb.last().left;
    let x = (e.entry.name@, e.entry.is_dir);
    assert(left[0] == x) by {
        assert(listed_as(buf)[0] == x);
    }
    assert(left.drop_first() =~= la.last().left);
    let fuel = (m - n) as nat;
    let path = before.stack@[n - 1].path@;
    let p = tree::joined(path, x.0);
    let below = if x.1 && fuel > 0 {
        walk(fs, p, fs(p), (fuel - 1) as nat)
    } else {
        Seq::empty()
    };
    let rest = walk(fs, path, la.last().left, fuel);
    let above = todo(fs, lb.drop_last(), m);
    assert(walk(fs, path, left, fuel) == seq![e.spec_key()] + below + rest);
    assert(remaining(before, fs, more) =~= (seq![e.spec_key()] + below + rest) + above);
    assert(remaining(after, fs, more) =~= below + (rest + above));
}

/// Descending changes nothing of what remains: the directory's level takes the
/// place of the descent that was pending.
pub proof fn law_descent_keeps_what_remains<D>(
    before: QueryTree<D>,
    after: QueryTree<D>,
    fs: spec_fn(Seq<u8>) -> Seq<(Seq<u8>, bool)>,
    more: Seq<Seq<(Seq<u8>, bool)>>,
)
    requires
        before.pending is Some,
        more.len() == before.stack@.len(),
        after.opts == before.opts,
        after.pending is None,
        after.stack@.len() == before.stack@.len() + 1,
        after.stack@.drop_last() == before.stack@,
        after.stack@.last().path == before.pending->0,
        after.stack@.last().buf@.len() == 0,
    ensures
        remaining(after, fs, more.push(fs(before.pending->0@))) == remaining(before, fs, more),
{
    let p = before.pending->0@;
    let more2 = more.push(fs(p));
    let (lb, la) = (levels_of(before, more), levels_of(after, more2));
    assert(la.drop_last() =~= lb) by {
        assert forall|i: int| 0 <= i < lb.len() implies la[i] == lb[i] by {
            assert(after.stack@.drop_last()[i] == before.stack@[i]);
        }
    }
    assert(la.last().left =~= fs(p));
    assert(remaining(after, fs, more2) =~= remaining(before, fs, more));
}

/// Reading on changes nothing of what remains: what was still to be listed is
/// now read.
pub proof fn law_reading_keeps_what_remains<D>(
    before: QueryTree<D>,
    after: QueryTree<D>,
    batch: Seq<DirEntry>,
    fs: spec_fn(Seq<u8>) -> Seq<(Seq<u8>, bool)>,
    more: Seq<Seq<(Seq<u8>, bool)>>,
)
    requires
        before.stack@.len() > 0,
        more.len() == before.stack@.len(),
        after.opts == before.opts,
        after.pending == before.pending,
        after.stack@.len() == before.stack@.len(),
        after.stack@.drop_last() == before.stack@.drop_last(),
        after.stack@.last().path == before.stack@.last().path,
        after.stack@.last().buf@ == before.stack@.last().buf@ + batch,
        more.last().len() >= batch.len(),
        more.last().take(batch.len() as int) == listed_as(batch),
    ensures
        remaining(
            after,
            fs,
            more.drop_last().push(more.last().skip(batch.len() as int)),
        ) == remaining(before, fs, more),
{
    let more2 = more.drop_last().push(more.last().skip(batch.len() as int));
    let (lb, la) = (levels_of(before, more), levels_of(after, more2));
    let n = before.stack@.len() as int;
    let whole = more.last();
    assert(listed_as(before.stack@.last().buf@ + batch) =~= listed_as(before.stack@.last().buf@)
        + listed_as(batch));
    assert(whole =~= whole.take(batch.len() as int) + whole.skip(batch.len() as int));
    assert(la[n - 1].left =~= lb[n - 1].left);
    assert(la[n - 1] == lb[n - 1]);
    assert forall|i: int| 0 <= i < n - 1 implies la[i] == lb[i] by {
        assert(after.stack@.drop_last()[i] == after.stack@[i]);
        assert(before.stack@.drop_last()[i] == before.stack@[i]);
        assert(more2[i] == more[i]);
    }
    assert(la =~= lb);
}

/// Leaving a level that has nothing left changes nothing of what remains.
pub proof fn law_ascent_keeps_what_remains<D>(
    before: QueryTree<D>,
    after: QueryTree<D>,
    fs: spec_fn(Seq<u8>) -> Seq<(Seq<u8>, bool)>,
    more: Seq<Seq<(Seq<u8>, bool)>>,
)
    requires
        before.pending is None,
        after.pending is None,
        before.stack@.len() > 0,
        more.len() == before.stack@.len(),
        before.stack@.last().buf@.len() == 0,
        more.last().len() == 0,
        after.opts == before.opts,
        after.stack@ == before.stack@.drop_last(),
    ensures
        remaining(after, fs, more.drop_last()) == remaining(before, fs, more),
{
    let (lb, la) = (levels_of(before, more), levels_of(after, more.drop_last()));
    assert(lb.drop_last() =~= la);
    assert(lb.last().left =~= Seq::<(Seq<u8>, bool)>::empty());
    assert(remaining(after, fs, more.drop_last()) =~= remaining(before, fs, more));
}

/// A directory that cannot be entered costs exactly what is below it.
pub proof fn law_unopened_directory_costs_its_subtree<D>(
    before: QueryTree<D>,
    after: QueryTree<D>,
    path: Vec<u8>,
    fs: spec_fn(Seq<u8>) -> Seq<(Seq<u8>, bool)>,
    more: Seq<Seq<(Seq<u8>, bool)>>,
)
    requires
        before.pending == Some(path),
        tree::entered(before.settled(), after, path, None),
    ensures
        remaining(before, fs, more) == walk(
            fs,
            path@,
            fs(path@),
            (before.opts.max_depth - before.stack@.len() - 1) as nat,
        ) + remaining(after, fs, more),
{
    assert(levels_of(before, more) =~= levels_of(after, more));
    assert(remaining(after, fs, more) =~= todo(
        fs,
        levels_of(before, more),
        before.opts.max_depth as nat,
    ));
}

/// A level whose reading fails costs exactly what it had left, and the walk goes
/// on above it; it tells of the failure unless the level may not be read or is
/// gone.
pub proof fn law_failed_level_costs_what_it_had_left<D>(
    before: QueryTree<D>,
    after: QueryTree<D>,
    e: Error,
    told: Option<Error>,
    fs: spec_fn(Seq<u8>) -> Seq<(Seq<u8>, bool)>,
    more: Seq<Seq<(Seq<u8>, bool)>>,
)
    requires
        before.pending is None,
        before.stack@.len() > 0,
        more.len() == before.stack@.len(),
        tree::took(before, after, Some(Err(e)), told),
    ensures
        remaining(before, fs, more) == walk(
            fs,
            before.stack@.last().path@,
            listed_as(before.stack@.last().buf@) + more.last(),
            (before.opts.max_depth - before.stack@.len()) as nat,
        ) + remaining(after, fs, more.drop_last()),
        told is None <==> tree::nothing_left(e),
{
    let (lb, la) = (levels_of(before, more), levels_of(after, more.drop_last()));
    assert(lb.drop_last() =~= la);
    assert(remaining(after, fs, more.drop_last()) =~= todo(
        fs,
        la,
        before.opts.max_depth as nat,
    ));
    assert(remaining(before, fs, more) =~= todo(fs, lb, before.opts.max_depth as nat));
}

/// What the levels of a walk being resumed list, each past its cut.
pub open spec fn cut_listings<D>(
    w: Restore<D>,
    fs: spec_fn(Seq<u8>) -> Seq<(Seq<u8>, bool)>,
) -> Seq<Seq<(Seq<u8>, bool)>> {
    Seq::new(
        w.stack@.len(),
        |d: int|
            past_cut(
                fs(w.stack@[d].path@),
                tree::cut(w.spec_comps(), w.into_dir, w.descent as nat, d as nat),
            ),
    )
}

/// The levels of a walk that was set up are those its cursor calls for.
pub proof fn lemma_restored_levels<D>(
    w: Restore<D>,
    t: QueryTree<D>,
    fs: spec_fn(Seq<u8>) -> Seq<(Seq<u8>, bool)>,
)
    requires
        w.wf(),
        w.stack@.len() == w.descent + 1,
        t.stack == w.stack,
    ensures
        levels_of(t, cut_listings(w, fs)) == resumed(
            fs,
            Seq::empty(),
            w.spec_comps(),
            w.into_dir,
            w.opts.max_depth as nat,
        ),
{
    let more = cut_listings(w, fs);
    let levels = levels_of(t, more);
    let planned = resumed(
        fs,
        Seq::empty(),
        w.spec_comps(),
        w.into_dir,
        w.opts.max_depth as nat,
    );
    assert forall|d: int| 0 <= d < levels.len() implies levels[d] == planned[d] by {
        assert(w.stack@[d].path@ == tree::path_of(w.spec_comps().take(d)));
        assert(listed_as(w.stack@[d].buf@) =~= Seq::<(Seq<u8>, bool)>::empty());
        assert(levels[d].left =~= more[d]);
    }
    assert(levels =~= planned);
}

/// A walk set up to resume after a key of the whole walk has exactly the keys
/// after it to give: `t` is what [`Restore::finish`] makes of `w` once every
/// level is open.
pub proof fn law_restored_walk_resumes_exactly<D>(
    w: Restore<D>,
    t: QueryTree<D>,
    fs: spec_fn(Seq<u8>) -> Seq<(Seq<u8>, bool)>,
    i: int,
)
    requires
        orderly(fs),
        w.wf(),
        w.stack@.len() == w.descent + 1,
        t.opts == w.opts,
        t.stack == w.stack,
        t.pending is None,
        0 <= i < walk(fs, Seq::empty(), fs(Seq::empty()), (w.opts.max_depth - 1) as nat).len(),
        w.key@ == walk(fs, Seq::empty(), fs(Seq::empty()), (w.opts.max_depth - 1) as nat)[i],
    ensures
        remaining(t, fs, cut_listings(w, fs)) == walk(
            fs,
            Seq::empty(),
            fs(Seq::empty()),
            (w.opts.max_depth - 1) as nat,
        ).skip(i + 1),
{
    let m = w.opts.max_depth as nat;
    law_resume_is_exact(fs, m, i);
    let more = cut_listings(w, fs);
    lemma_restored_levels(w, t, fs);
    let whole = walk(fs, Seq::empty(), fs(Seq::empty()), (m - 1) as nat);
    assert(remaining(t, fs, more) =~= whole.skip(i + 1));
}

} // verus!
