//! A walk of a subtree as a whole, from its plan to its end: what it gives of
//! what the directories hold, and what it gives when it is resumed, or when a
//! directory is passed over.
//!
//! `disk` takes a directory's path to the entries its stream has, in any order,
//! their types known; `fs` takes it to what its listing gives of them.
use crate::bytes;
use crate::cursor;
use crate::enrich::DirEntry;
use crate::listing;
use crate::listing::{Listed, QueryOptions};
use crate::names::SLASH;
use crate::order;
use crate::order::Rank;
use crate::sort;
use crate::sort::Keyed;
use crate::tree;
use crate::tree::{OpenLevel, QueryTree, Restore, TreeEntry, TreeOptions, TreeStep};
use crate::tree_order;
use crate::tree_order::Level;
use vstd::prelude::*;

verus! {

/// The names and types of what a stream has.
pub open spec fn kinds(s: Seq<Listed>) -> Seq<(Seq<u8>, bool)> {
    s.map_values(|e: Listed| (e.name@, e.is_dir()))
}

/// What a directory's stream has: components, each once.
pub open spec fn proper(s: Seq<Listed>) -> bool {
    &&& forall|i: int|
        0 <= i < s.len() ==> (#[trigger] s[i]).name@.len() > 0 && !s[i].name@.contains(SLASH)
    &&& forall|i: int, j: int|
        0 <= i < j < s.len() ==> (#[trigger] s[i]).name@ != (#[trigger] s[j]).name@
}

/// `l` is what of `all` is past `after`, in path order.
pub open spec fn listed_past(
    l: Seq<(Seq<u8>, bool)>,
    all: Seq<Listed>,
    after: Option<Seq<u8>>,
) -> bool {
    exists|r: Seq<Listed>| #[trigger] listing::arranged(r, all, true, after) && l == kinds(r)
}

/// Names without a separator that have the same key are the same, and so are
/// their types.
proof fn lemma_same_key(a: (Seq<u8>, bool), b: (Seq<u8>, bool))
    requires
        !a.0.contains(SLASH),
        !b.0.contains(SLASH),
        order::path_key(a.0, a.1) == order::path_key(b.0, b.1),
    ensures
        a == b,
{
    let (ka, kb) = (order::path_key(a.0, a.1), order::path_key(b.0, b.1));
    if a.1 && b.1 {
        assert(a.0 =~= ka.drop_last());
        assert(b.0 =~= kb.drop_last());
    } else if a.1 {
        assert(b.0[b.0.len() - 1] == SLASH);
    } else if b.1 {
        assert(a.0[a.0.len() - 1] == SLASH);
    }
}

/// A sorted listing of a directory is in path order, each entry once, and holds
/// exactly what of the directory is past the place it starts at.
pub proof fn law_sorted_listing_is_orderly(
    l: Seq<(Seq<u8>, bool)>,
    all: Seq<Listed>,
    after: Option<Seq<u8>>,
)
    requires
        proper(all),
        listed_past(l, all, after),
    ensures
        tree_order::orderly_listing(l),
        forall|x: (Seq<u8>, bool)| #[trigger]
            l.contains(x) == (kinds(all).contains(x) && listing::past(
                order::path_key(x.0, x.1),
                after,
            )),
{
    let r = choose|r: Seq<Listed>| #[trigger]
        listing::arranged(r, all, true, after) && l == kinds(r);
    assert forall|i: int, j: int| 0 <= i < j < all.len() implies (#[trigger] all[i]).key(true) != (
    #[trigger] all[j]).key(true) by {
        if all[i].key(true) == all[j].key(true) {
            lemma_same_key((all[i].name@, all[i].is_dir()), (all[j].name@, all[j].is_dir()));
        }
    }
    assert forall|e: Listed| #[trigger] r.contains(e) == (all.contains(e) && listing::past(
        e.key(true),
        after,
    )) by {
        sort::lemma_among_its_key(r, true, e);
        sort::lemma_among_its_key(all, true, e);
        assert(sort::with_key(r, true, e.key(true)) == (if listing::past(e.key(true), after) {
            sort::with_key(all, true, e.key(true))
        } else {
            Seq::empty()
        }));
    }
    assert forall|x: (Seq<u8>, bool)| #[trigger] l.contains(x) == (kinds(all).contains(x)
        && listing::past(order::path_key(x.0, x.1), after)) by {
        if l.contains(x) {
            let i = choose|i: int| 0 <= i < l.len() && l[i] == x;
            assert(r.contains(r[i]));
            let j = choose|j: int| 0 <= j < all.len() && all[j] == r[i];
            assert(kinds(all)[j] == x);
        }
        if kinds(all).contains(x) && listing::past(order::path_key(x.0, x.1), after) {
            let j = choose|j: int| 0 <= j < kinds(all).len() && kinds(all)[j] == x;
            assert(all.contains(all[j]));
            assert(r.contains(all[j]));
            let i = choose|i: int| 0 <= i < r.len() && r[i] == all[j];
            assert(l[i] == x);
        }
    }
    assert forall|i: int| 0 <= i < l.len() implies (#[trigger] l[i]).0.len() > 0
        && !l[i].0.contains(order::SEPARATOR) by {
        assert(r.contains(r[i]));
        let j = choose|j: int| 0 <= j < all.len() && all[j] == r[i];
        assert(all[j].name@.len() > 0);
    }
    assert forall|i: int, j: int| 0 <= i < j < l.len() implies order::rank(
        order::path_key((#[trigger] l[i]).0, l[i].1),
        order::path_key((#[trigger] l[j]).0, l[j].1),
    ) == Rank::Before by {
        let (x, y) = (r[i].key(true), r[j].key(true));
        assert(order::rank(x, y) != Rank::After);
        order::lemma_rank_same(x, y);
        if x == y {
            sort::lemma_two_with_key(r, true, x, i, j);
            sort::lemma_one_with_key(all, true, x);
            assert(sort::with_key(r, true, x) == (if listing::past(x, after) {
                sort::with_key(all, true, x)
            } else {
                Seq::empty()
            }));
        }
    }
}

/// Two orderly listings of the same entries are the same.
proof fn lemma_orderly_is_unique(a: Seq<(Seq<u8>, bool)>, b: Seq<(Seq<u8>, bool)>)
    requires
        tree_order::orderly_listing(a),
        tree_order::orderly_listing(b),
        forall|x: (Seq<u8>, bool)| #[trigger] a.contains(x) == b.contains(x),
    ensures
        a == b,
    decreases a.len(),
{
    if a.len() == 0 {
        if b.len() > 0 {
            assert(b.contains(b[0]));
            assert(a.contains(b[0]));
        }
        assert(a =~= b);
    } else {
        assert(a.contains(a[0]));
        assert(b.contains(a[0]));
        let j = choose|j: int| 0 <= j < b.len() && b[j] == a[0];
        assert(b.contains(b[0]));
        assert(a.contains(b[0]));
        let i = choose|i: int| 0 <= i < a.len() && a[i] == b[0];
        let (ka, kb) = (order::path_key(a[0].0, a[0].1), order::path_key(b[0].0, b[0].1));
        if i > 0 && j > 0 {
            assert(order::rank(ka, kb) == Rank::Before);
            assert(order::rank(kb, ka) == Rank::Before);
            order::lemma_rank_flips(ka, kb);
        }
        assert(a[0] == b[0]);
        let (ra, rb) = (a.drop_first(), b.drop_first());
        tree_order::lemma_rest_is_orderly(a);
        tree_order::lemma_rest_is_orderly(b);
        assert forall|x: (Seq<u8>, bool)| #[trigger] ra.contains(x) == rb.contains(x) by {
            lemma_rest_has(a, x);
            lemma_rest_has(b, x);
            assert(a.contains(x) == b.contains(x));
        }
        lemma_orderly_is_unique(ra, rb);
        assert(a =~= seq![a[0]] + ra);
        assert(b =~= seq![b[0]] + rb);
    }
}

/// What an orderly listing has after its first entry.
proof fn lemma_rest_has(a: Seq<(Seq<u8>, bool)>, x: (Seq<u8>, bool))
    requires
        tree_order::orderly_listing(a),
        a.len() > 0,
    ensures
        a.drop_first().contains(x) == (a.contains(x) && x != a[0]),
{
    let r = a.drop_first();
    if r.contains(x) {
        let i = choose|i: int| 0 <= i < r.len() && r[i] == x;
        assert(a[i + 1] == x);
        let k = order::path_key(a[0].0, a[0].1);
        assert(order::rank(k, order::path_key(a[i + 1].0, a[i + 1].1)) == Rank::Before);
        order::lemma_rank_same(k, k);
    }
    if a.contains(x) && x != a[0] {
        let i = choose|i: int| 0 <= i < a.len() && a[i] == x;
        assert(r[i - 1] == x);
    }
}

/// What of an orderly listing is past a place is orderly.
proof fn lemma_past_is_orderly(l: Seq<(Seq<u8>, bool)>, after: Option<Seq<u8>>)
    requires
        tree_order::orderly_listing(l),
    ensures
        tree_order::orderly_listing(tree_order::past_cut(l, after)),
        forall|x: (Seq<u8>, bool)| #[trigger]
            tree_order::past_cut(l, after).contains(x) == (l.contains(x) && listing::past(
                order::path_key(x.0, x.1),
                after,
            )),
    decreases l.len(),
{
    let p = |e: (Seq<u8>, bool)| listing::past(order::path_key(e.0, e.1), after);
    let r = tree_order::past_cut(l, after);
    assert forall|x: (Seq<u8>, bool)| #[trigger] r.contains(x) == (l.contains(x) && listing::past(
        order::path_key(x.0, x.1),
        after,
    )) by {
        if r.contains(x) {
            l.lemma_filter_contains_rev(p, x);
            let i = choose|i: int| 0 <= i < r.len() && r[i] == x;
            assert(p(r[i]));
        }
        if l.contains(x) && p(x) {
            let i = choose|i: int| 0 <= i < l.len() && l[i] == x;
            assert(p(l[i]));
        }
    }
    if l.len() > 0 {
        let less = l.drop_last();
        assert(tree_order::orderly_listing(less)) by {
            assert forall|i: int, j: int| 0 <= i < j < less.len() implies order::rank(
                order::path_key((#[trigger] less[i]).0, less[i].1),
                order::path_key((#[trigger] less[j]).0, less[j].1),
            ) == Rank::Before by {
                assert(less[i] == l[i] && less[j] == l[j]);
            }
            assert forall|i: int| 0 <= i < less.len() implies (#[trigger] less[i]).0.len() > 0
                && !less[i].0.contains(order::SEPARATOR) by {
                assert(less[i] == l[i]);
            }
        }
        lemma_past_is_orderly(less, after);
        reveal(Seq::filter);
        let f = tree_order::past_cut(less, after);
        if p(l.last()) {
            assert(r =~= f.push(l.last()));
            assert forall|i: int, j: int| 0 <= i < j < r.len() implies order::rank(
                order::path_key((#[trigger] r[i]).0, r[i].1),
                order::path_key((#[trigger] r[j]).0, r[j].1),
            ) == Rank::Before by {
                if j < f.len() {
                    assert(r[i] == f[i] && r[j] == f[j]);
                } else {
                    assert(r[i] == f[i]);
                    assert(f.contains(f[i]));
                    let m = choose|m: int| 0 <= m < less.len() && less[m] == f[i];
                    assert(l[m] == r[i]);
                    assert(l[l.len() - 1] == r[j]);
                }
            }
            assert forall|i: int| 0 <= i < r.len() implies (#[trigger] r[i]).0.len() > 0
                && !r[i].0.contains(order::SEPARATOR) by {
                if i < f.len() {
                    assert(r[i] == f[i]);
                } else {
                    assert(l[l.len() - 1] == r[i]);
                }
            }
        } else {
            assert(r =~= f);
        }
    } else {
        reveal(Seq::filter);
        assert(r =~= l);
    }
}

/// A listing that starts at a place gives what the whole listing has past it.
proof fn lemma_cut_listing(
    whole: Seq<(Seq<u8>, bool)>,
    l: Seq<(Seq<u8>, bool)>,
    all: Seq<Listed>,
    after: Option<Seq<u8>>,
)
    requires
        proper(all),
        listed_past(whole, all, None),
        listed_past(l, all, after),
    ensures
        tree_order::orderly_listing(whole),
        l == tree_order::past_cut(whole, after),
{
    law_sorted_listing_is_orderly(whole, all, None);
    law_sorted_listing_is_orderly(l, all, after);
    lemma_past_is_orderly(whole, after);
    let r = tree_order::past_cut(whole, after);
    assert forall|x: (Seq<u8>, bool)| #[trigger] l.contains(x) == r.contains(x) by {
        assert(whole.contains(x) == kinds(all).contains(x));
    }
    lemma_orderly_is_unique(l, r);
}

/// The prefix of the names listed in the directory at `path`: the root's alone
/// has one.
pub open spec fn prefix_at(path: Seq<u8>, prefix: Option<Seq<u8>>) -> Option<Seq<u8>> {
    if path.len() == 0 {
        prefix
    } else {
        None
    }
}

/// What the listings of a walk give: `fs` has each directory's entries in path
/// order, at the root those with the prefix.
pub open spec fn seen(
    fs: spec_fn(Seq<u8>) -> Seq<(Seq<u8>, bool)>,
    disk: spec_fn(Seq<u8>) -> Seq<Listed>,
    prefix: Option<Seq<u8>>,
) -> bool {
    &&& forall|p: Seq<u8>| proper(#[trigger] disk(p))
    &&& forall|p: Seq<u8>|
        listed_past(#[trigger] fs(p), listing::admits(disk(p), prefix_at(p, prefix)), None)
}

/// `l` is what the listing of the directory at `path`, asked for like that,
/// gives.
pub open spec fn lists(
    disk: spec_fn(Seq<u8>) -> Seq<Listed>,
    path: Seq<u8>,
    opts: QueryOptions,
    l: Seq<(Seq<u8>, bool)>,
) -> bool {
    &&& opts.by_path()
    &&& listed_past(
        l,
        listing::admits(disk(path), listing::opt_bytes(opts.name_prefix)),
        listing::opt_bytes(opts.start_after),
    )
}

/// What is admitted of a directory is as proper as the directory.
proof fn lemma_admitted_is_proper(s: Seq<Listed>, prefix: Option<Seq<u8>>)
    requires
        proper(s),
    ensures
        proper(listing::admits(s, prefix)),
    decreases s.len(),
{
    reveal(Seq::filter);
    let f = listing::admits(s, prefix);
    if s.len() > 0 {
        let less = s.drop_last();
        assert(proper(less)) by {
            assert forall|i: int| 0 <= i < less.len() implies (#[trigger] less[i]).name@.len() > 0
                && !less[i].name@.contains(SLASH) by {
                assert(less[i] == s[i]);
            }
            assert forall|i: int, j: int| 0 <= i < j < less.len() implies (#[trigger] less[i]).name@
                != (#[trigger] less[j]).name@ by {
                assert(less[i] == s[i] && less[j] == s[j]);
            }
        }
        lemma_admitted_is_proper(less, prefix);
        let g = listing::admits(less, prefix);
        let x = s.last();
        assert(x == s[s.len() - 1]);
        if listing::admitted(x.name@, prefix) {
            assert(f =~= g.push(x));
            assert forall|i: int| 0 <= i < f.len() implies (#[trigger] f[i]).name@.len() > 0
                && !f[i].name@.contains(SLASH) by {
                if i < g.len() {
                    assert(f[i] == g[i]);
                }
            }
            assert forall|i: int, j: int| 0 <= i < j < f.len() implies (#[trigger] f[i]).name@ != (
            #[trigger] f[j]).name@ by {
                if j < g.len() {
                    assert(f[i] == g[i] && f[j] == g[j]);
                } else {
                    assert(f[i] == g[i]);
                    assert(g.contains(g[i]));
                    less.lemma_filter_contains_rev(
                        |e: Listed| listing::admitted(e.name@, prefix),
                        g[i],
                    );
                    let m = choose|m: int| 0 <= m < less.len() && less[m] == g[i];
                    assert(s[m] == f[i]);
                }
            }
        } else {
            assert(f =~= g);
        }
    } else {
        assert(f =~= s);
    }
}

/// What a directory's listing gives, as against the whole of it.
proof fn lemma_lists(
    fs: spec_fn(Seq<u8>) -> Seq<(Seq<u8>, bool)>,
    disk: spec_fn(Seq<u8>) -> Seq<Listed>,
    prefix: Option<Seq<u8>>,
    path: Seq<u8>,
    opts: QueryOptions,
    l: Seq<(Seq<u8>, bool)>,
)
    requires
        seen(fs, disk, prefix),
        lists(disk, path, opts, l),
        listing::opt_bytes(opts.name_prefix) == prefix_at(path, prefix),
    ensures
        l == tree_order::past_cut(fs(path), listing::opt_bytes(opts.start_after)),
{
    let all = listing::admits(disk(path), prefix_at(path, prefix));
    assert(proper(disk(path)));
    lemma_admitted_is_proper(disk(path), prefix_at(path, prefix));
    assert(listed_past(fs(path), all, None));
    lemma_cut_listing(fs(path), l, all, listing::opt_bytes(opts.start_after));
}

/// Every directory's listing is orderly.
proof fn lemma_seen_is_orderly(
    fs: spec_fn(Seq<u8>) -> Seq<(Seq<u8>, bool)>,
    disk: spec_fn(Seq<u8>) -> Seq<Listed>,
    prefix: Option<Seq<u8>>,
)
    requires
        seen(fs, disk, prefix),
    ensures
        tree_order::orderly(fs),
{
    assert forall|p: Seq<u8>| tree_order::orderly_listing(#[trigger] fs(p)) by {
        assert(proper(disk(p)));
        lemma_admitted_is_proper(disk(p), prefix_at(p, prefix));
        law_sorted_listing_is_orderly(
            fs(p),
            listing::admits(disk(p), prefix_at(p, prefix)),
            None,
        );
    }
}

/// A walk under way: what each of its levels has still to list beyond what was
/// read of it, and the keys it has given.
pub struct Pos<D> {
    pub t: QueryTree<D>,
    pub more: Seq<Seq<(Seq<u8>, bool)>>,
    pub given: Seq<Seq<u8>>,
}

/// What [`QueryTree::next`] asked for was done, in a tree that can be read and
/// does not change: an entry was given, a directory entered, or a level read on
/// or left.
pub open spec fn answered<D>(
    disk: spec_fn(Seq<u8>) -> Seq<Listed>,
    before: Pos<D>,
    mid: QueryTree<D>,
    r: TreeStep,
    after: Pos<D>,
) -> bool {
    match r {
        TreeStep::End => false,
        TreeStep::Entry(e) => {
            &&& after.t == mid
            &&& after.more == before.more
            &&& after.given == before.given.push(e.spec_key())
        },
        TreeStep::Open(o) => {
            &&& after.given == before.given
            &&& exists|d: D| #[trigger] tree::entered(mid, after.t, o.path, Some(d))
            &&& after.more.len() == before.more.len() + 1
            &&& after.more.drop_last() == before.more
            &&& lists(disk, o.path@, o.opts, after.more.last())
        },
        TreeStep::Batch => {
            let left = before.more.last();
            &&& after.given == before.given
            &&& before.more.len() > 0
            &&& {
                ||| {
                    &&& left.len() == 0
                    &&& after.more == before.more.drop_last()
                    &&& tree::took(mid, after.t, None, None)
                }
                ||| exists|batch: Vec<DirEntry>|
                    {
                        &&& #[trigger] tree::took(mid, after.t, Some(Ok(batch)), None)
                        &&& batch@.len() <= left.len()
                        &&& tree_order::listed_as(batch@) == left.take(batch@.len() as int)
                        &&& after.more == before.more.drop_last().push(
                            left.skip(batch@.len() as int),
                        )
                    }
            }
        },
    }
}

/// One call of [`QueryTree::next`] and what follows from it.
pub open spec fn moves<D>(
    disk: spec_fn(Seq<u8>) -> Seq<Listed>,
    before: Pos<D>,
    after: Pos<D>,
) -> bool {
    exists|mid: QueryTree<D>, r: TreeStep| #[trigger]
        tree::stepped(before.t, mid, r) && answered(disk, before, mid, r, after)
}

/// The walk has no more to give.
pub open spec fn at_end<D>(p: Pos<D>) -> bool {
    exists|mid: QueryTree<D>| #[trigger] tree::stepped(p.t, mid, TreeStep::End)
}

/// A walk from one of its positions to its end.
pub open spec fn run<D>(disk: spec_fn(Seq<u8>) -> Seq<Listed>, ps: Seq<Pos<D>>) -> bool {
    &&& ps.len() > 0
    &&& forall|i: int| 0 <= i < ps.len() - 1 ==> moves(disk, #[trigger] ps[i], ps[i + 1])
    &&& at_end(ps.last())
}

/// Every entry left is after the directory `name`.
pub open spec fn follow(name: Seq<u8>, left: Seq<(Seq<u8>, bool)>) -> bool {
    forall|j: int|
        0 <= j < left.len() ==> order::rank(
            order::path_key(name, true),
            order::path_key((#[trigger] left[j]).0, left[j].1),
        ) == Rank::Before
}

/// `below` is a directory of the level `above`, which has what follows it left.
pub open spec fn leads_to(above: Level, below: Seq<u8>) -> bool {
    let name = tree::leaf_of(below);
    &&& name.len() > 0
    &&& below == tree::joined(above.path, name)
    &&& follow(name, above.left)
}

/// A walk's levels lie one in the other, none deeper than it may go, and each
/// has in path order what follows the directory it was left for.
pub open spec fn sound<D>(p: Pos<D>) -> bool {
    let levels = tree_order::levels_of(p.t, p.more);
    &&& p.more.len() == p.t.stack@.len()
    &&& p.t.stack@.len() <= p.t.opts.max_depth
    &&& forall|i: int|
        0 <= i < levels.len() ==> tree_order::orderly_listing((#[trigger] levels[i]).left)
    &&& forall|i: int|
        0 <= i < levels.len() - 1 ==> leads_to(#[trigger] levels[i], levels[i + 1].path)
    &&& p.t.pending is Some ==> {
        &&& 0 < levels.len() < p.t.opts.max_depth
        &&& leads_to(levels.last(), p.t.pending->0@)
    }
}

/// The keys a walk has still to give.
pub open spec fn left_of<D>(fs: spec_fn(Seq<u8>) -> Seq<(Seq<u8>, bool)>, p: Pos<D>) -> Seq<
    Seq<u8>,
> {
    tree_order::remaining(p.t, fs, p.more)
}

/// The last component of a name in a directory is the name.
proof fn lemma_leaf_of_joined(path: Seq<u8>, name: Seq<u8>)
    requires
        !name.contains(SLASH),
    ensures
        tree::leaf_of(tree::joined(path, name)) == name,
{
    bytes::lemma_split_one(name, SLASH);
    if path.len() > 0 {
        bytes::lemma_split_at(path, name, SLASH);
    } else {
        assert(tree::joined(path, name) =~= name);
    }
}

/// An entry was given: the walk stays sound, and what it has given and has
/// still to give is, together, what it was.
#[verifier::rlimit(40)]
proof fn lemma_entry_given<D>(
    fs: spec_fn(Seq<u8>) -> Seq<(Seq<u8>, bool)>,
    a: Pos<D>,
    b: Pos<D>,
    e: TreeEntry,
)
    requires
        sound(a),
        tree::stepped(a.t, b.t, TreeStep::Entry(e)),
        b.more == a.more,
        b.given == a.given.push(e.spec_key()),
    ensures
        sound(b),
        a.t.pending is None,
        left_of(fs, a) == seq![e.spec_key()] + left_of(fs, b),
        b.given + left_of(fs, b) == a.given + left_of(fs, a),
        b.t.opts == a.t.opts,
        b.t.last_key@ == b.given.last(),
{
    assert(a.t.settled() == a.t);
    let n = a.t.stack@.len() as int;
    let (la, lb) = (tree_order::levels_of(a.t, a.more), tree_order::levels_of(b.t, b.more));
    tree_order::law_walk_gives_what_is_next(a.t, b.t, e, fs, a.more);
    let own = seq![e.spec_key()];
    assert(b.given + left_of(fs, b) =~= a.given + (own + left_of(fs, b)));
    let x = (e.entry.name@, e.entry.is_dir);
    let left = la[n - 1].left;
    assert(tree_order::listed_as(a.t.stack@[n - 1].buf@)[0] == x);
    assert(left[0] == x);
    assert(lb[n - 1].left =~= left.drop_first());
    tree_order::lemma_rest_is_orderly(left);
    assert forall|i: int| 0 <= i < n - 1 implies #[trigger] lb[i] == la[i] by {
        assert(b.t.stack@[i] == a.t.stack@[i]);
    }
    assert forall|i: int| 0 <= i < lb.len() implies tree_order::orderly_listing(
        (#[trigger] lb[i]).left,
    ) by {
        assert(tree_order::orderly_listing(la[i].left));
    }
    assert forall|i: int| 0 <= i < lb.len() - 1 implies leads_to(
        #[trigger] lb[i],
        lb[i + 1].path,
    ) by {
        assert(leads_to(la[i], la[i + 1].path));
        assert(lb[i + 1].path == la[i + 1].path);
    }
    if b.t.pending is Some {
        lemma_leaf_of_joined(la[n - 1].path, x.0);
        assert(left[0].0.len() > 0);
        assert forall|j: int| 0 <= j < lb[n - 1].left.len() implies order::rank(
            order::path_key(x.0, true),
            order::path_key((#[trigger] lb[n - 1].left[j]).0, lb[n - 1].left[j].1),
        ) == Rank::Before by {
            assert(lb[n - 1].left[j] == left[j + 1]);
            assert(order::rank(
                order::path_key(left[0].0, left[0].1),
                order::path_key(left[j + 1].0, left[j + 1].1),
            ) == Rank::Before);
        }
        assert(leads_to(lb.last(), b.t.pending->0@));
    }
}

/// Any move keeps the walk sound, and what it has given and has still to give
/// is, together, what it was.
#[verifier::rlimit(40)]
proof fn lemma_move<D>(
    fs: spec_fn(Seq<u8>) -> Seq<(Seq<u8>, bool)>,
    disk: spec_fn(Seq<u8>) -> Seq<Listed>,
    prefix: Option<Seq<u8>>,
    a: Pos<D>,
    b: Pos<D>,
)
    requires
        seen(fs, disk, prefix),
        sound(a),
        moves(disk, a, b),
    ensures
        sound(b),
        b.given + left_of(fs, b) == a.given + left_of(fs, a),
        b.t.opts == a.t.opts,
        a.given.is_prefix_of(b.given),
        if b.given == a.given {
            b.t.last_key == a.t.last_key
        } else {
            b.given.len() > 0 && b.t.last_key@ == b.given.last()
        },
{
    let (mid, r) = choose|mid: QueryTree<D>, r: TreeStep| #[trigger]
        tree::stepped(a.t, mid, r) && answered(disk, a, mid, r, b);
    let (la, lb) = (tree_order::levels_of(a.t, a.more), tree_order::levels_of(b.t, b.more));
    let n = a.t.stack@.len() as int;
    lemma_seen_is_orderly(fs, disk, prefix);
    match r {
        TreeStep::End => {},
        TreeStep::Entry(e) => {
            lemma_entry_given(fs, a, b, e);
            assert(b.given.len() == a.given.len() + 1);
            assert(a.given =~= b.given.subrange(0, a.given.len() as int));
        },
        TreeStep::Open(o) => {
            let d = choose|d: D| #[trigger] tree::entered(mid, b.t, o.path, Some(d));
            let p = o.path@;
            assert(p.len() > 0);
            lemma_lists(fs, disk, prefix, p, o.opts, b.more.last());
            tree_order::lemma_past_nowhere(fs(p));
            assert(b.more.last() == fs(p));
            assert(b.more =~= a.more.push(fs(p)));
            tree_order::law_descent_keeps_what_remains(a.t, b.t, fs, a.more);
            assert forall|i: int| 0 <= i < n implies #[trigger] lb[i] == la[i] by {
                assert(b.t.stack@.drop_last()[i] == a.t.stack@[i]);
                assert(b.more[i] == a.more[i]);
            }
            assert(lb[n].path == p);
            assert(lb[n].left =~= fs(p));
            assert forall|i: int| 0 <= i < lb.len() implies tree_order::orderly_listing(
                (#[trigger] lb[i]).left,
            ) by {
                if i < n {
                    assert(tree_order::orderly_listing(la[i].left));
                } else {
                    assert(tree_order::orderly_listing(fs(p)));
                }
            }
            assert forall|i: int| 0 <= i < lb.len() - 1 implies leads_to(
                #[trigger] lb[i],
                lb[i + 1].path,
            ) by {
                if i < n - 1 {
                    assert(leads_to(la[i], la[i + 1].path));
                    assert(lb[i + 1] == la[i + 1]);
                } else {
                    assert(leads_to(la.last(), p));
                }
            }
        },
        TreeStep::Batch => {
            assert(a.t.pending is None);
            assert(a.t.settled() == a.t);
            if tree::took(mid, b.t, None, None) && a.more.last().len() == 0 && b.more
                == a.more.drop_last() {
                tree_order::law_ascent_keeps_what_remains(a.t, b.t, fs, a.more);
                assert forall|i: int| 0 <= i < n - 1 implies #[trigger] lb[i] == la[i] by {
                    assert(b.t.stack@[i] == a.t.stack@[i]);
                    assert(b.more[i] == a.more[i]);
                }
                assert forall|i: int| 0 <= i < lb.len() implies tree_order::orderly_listing(
                    (#[trigger] lb[i]).left,
                ) by {
                    assert(tree_order::orderly_listing(la[i].left));
                }
                assert forall|i: int| 0 <= i < lb.len() - 1 implies leads_to(
                    #[trigger] lb[i],
                    lb[i + 1].path,
                ) by {
                    assert(leads_to(la[i], la[i + 1].path));
                    assert(lb[i + 1] == la[i + 1]);
                }
            } else {
                let left = a.more.last();
                let batch = choose|batch: Vec<DirEntry>|
                    {
                        &&& #[trigger] tree::took(mid, b.t, Some(Ok(batch)), None)
                        &&& batch@.len() <= left.len()
                        &&& tree_order::listed_as(batch@) == left.take(batch@.len() as int)
                        &&& b.more == a.more.drop_last().push(left.skip(batch@.len() as int))
                    };
                tree_order::law_reading_keeps_what_remains(a.t, b.t, batch@, fs, a.more);
                lemma_levels_read(a, b, batch@);
            }
        },
    }
}

/// Reading on leaves a walk's levels as they are.
proof fn lemma_levels_read<D>(a: Pos<D>, b: Pos<D>, batch: Seq<DirEntry>)
    requires
        a.t.stack@.len() > 0,
        a.more.len() == a.t.stack@.len(),
        b.t.stack@.len() == a.t.stack@.len(),
        b.t.stack@.drop_last() == a.t.stack@.drop_last(),
        b.t.stack@.last().path == a.t.stack@.last().path,
        b.t.stack@.last().buf@ == a.t.stack@.last().buf@ + batch,
        batch.len() <= a.more.last().len(),
        tree_order::listed_as(batch) == a.more.last().take(batch.len() as int),
        b.more == a.more.drop_last().push(a.more.last().skip(batch.len() as int)),
    ensures
        tree_order::levels_of(b.t, b.more) == tree_order::levels_of(a.t, a.more),
{
    let (la, lb) = (tree_order::levels_of(a.t, a.more), tree_order::levels_of(b.t, b.more));
    let n = a.t.stack@.len() as int;
    let (left, k) = (a.more.last(), batch.len() as int);
    let buf = a.t.stack@.last().buf@;
    assert(tree_order::listed_as(buf + batch) =~= tree_order::listed_as(buf)
        + tree_order::listed_as(batch));
    assert(left =~= left.take(k) + left.skip(k));
    assert(lb[n - 1].left =~= la[n - 1].left);
    assert(lb[n - 1] == la[n - 1]);
    assert forall|i: int| 0 <= i < n - 1 implies lb[i] == la[i] by {
        assert(b.t.stack@.drop_last()[i] == b.t.stack@[i]);
        assert(a.t.stack@.drop_last()[i] == a.t.stack@[i]);
        assert(b.more[i] == a.more[i]);
    }
    assert(lb =~= la);
}

/// After any number of moves.
proof fn lemma_moves<D>(
    fs: spec_fn(Seq<u8>) -> Seq<(Seq<u8>, bool)>,
    disk: spec_fn(Seq<u8>) -> Seq<Listed>,
    prefix: Option<Seq<u8>>,
    ps: Seq<Pos<D>>,
    i: int,
)
    requires
        seen(fs, disk, prefix),
        run(disk, ps),
        sound(ps[0]),
        0 <= i < ps.len(),
    ensures
        sound(ps[i]),
        ps[i].given + left_of(fs, ps[i]) == ps[0].given + left_of(fs, ps[0]),
        ps[i].t.opts == ps[0].t.opts,
        ps[0].given.len() == 0 && ps[i].given.len() > 0 ==> ps[i].t.last_key@ == ps[i].given.last(),
    decreases i,
{
    if i > 0 {
        lemma_moves(fs, disk, prefix, ps, i - 1);
        assert(moves(disk, ps[i - 1], ps[i]));
        lemma_move(fs, disk, prefix, ps[i - 1], ps[i]);
    }
}

/// A run gives exactly what the walk had to give, in its order.
pub proof fn law_run_gives_what_was_left<D>(
    fs: spec_fn(Seq<u8>) -> Seq<(Seq<u8>, bool)>,
    disk: spec_fn(Seq<u8>) -> Seq<Listed>,
    prefix: Option<Seq<u8>>,
    ps: Seq<Pos<D>>,
)
    requires
        seen(fs, disk, prefix),
        run(disk, ps),
        sound(ps[0]),
    ensures
        ps.last().given == ps[0].given + left_of(fs, ps[0]),
{
    let last = ps.last();
    lemma_moves(fs, disk, prefix, ps, ps.len() - 1);
    assert(last.t.pending is None);
    assert(tree_order::levels_of(last.t, last.more).len() == 0);
    assert(left_of(fs, last) =~= Seq::<Seq<u8>>::empty());
    assert(last.given + left_of(fs, last) =~= last.given);
}

/// A walk was planned, its levels opened one after the other, in a tree that
/// can be read and does not change, and it stands at `p`, its beginning. `ws`
/// are the plan before, between and after them, `os` the levels it asked for.
pub open spec fn set_up<D>(
    disk: spec_fn(Seq<u8>) -> Seq<Listed>,
    opts: TreeOptions,
    ws: Seq<Restore<D>>,
    os: Seq<OpenLevel>,
    p: Pos<D>,
) -> bool {
    &&& ws.len() == os.len() + 1
    &&& tree::planned(opts, ws[0])
    &&& forall|i: int|
        0 <= i < os.len() ==> {
            &&& ws[i].plans(Some(#[trigger] os[i]))
            &&& exists|d: D| #[trigger] ws[i + 1].went_down(ws[i], os[i], d)
            &&& lists(disk, os[i].path@, os[i].opts, p.more[i])
        }
    &&& ws.last().plans(None)
    &&& ws.last().finished(p.t)
    &&& p.more.len() == os.len()
    &&& p.given.len() == 0
}

/// Each state of a plan has its levels so far open.
proof fn lemma_plan<D>(
    disk: spec_fn(Seq<u8>) -> Seq<Listed>,
    opts: TreeOptions,
    ws: Seq<Restore<D>>,
    os: Seq<OpenLevel>,
    p: Pos<D>,
    i: int,
)
    requires
        set_up(disk, opts, ws, os, p),
        0 <= i < ws.len(),
    ensures
        ws[i].wf(),
        ws[i].opts == opts,
        ws[i].stack@.len() == i,
        ws[i].spec_comps() == cursor::components_of(tree::resume_key(opts)),
        ws[i].into_dir == cursor::names_dir(tree::resume_key(opts)),
        ws[i].descent == ws[0].descent,
    decreases i,
{
    if i > 0 {
        lemma_plan(disk, opts, ws, os, p, i - 1);
        assert(ws[i - 1].plans(Some(os[i - 1])));
        let d = choose|d: D| #[trigger] ws[i - 1 + 1].went_down(ws[i - 1], os[i - 1], d);
        assert(ws[i].went_down(ws[i - 1], os[i - 1], d));
    }
}

proof fn lemma_components_are_names(key: Seq<u8>, i: int)
    requires
        0 <= i < cursor::components_of(key).len(),
    ensures
        cursor::components_of(key)[i].len() > 0,
        !cursor::components_of(key)[i].contains(SLASH),
{
    let pieces = bytes::split_on(key, SLASH);
    let p = |x: Seq<u8>| x.len() > 0;
    let c = cursor::components_of(key);
    assert(c == pieces.filter(p));
    assert(c.contains(c[i]));
    pieces.lemma_filter_contains_rev(p, c[i]);
    assert(p(pieces.filter(p)[i]));
    bytes::lemma_split_pieces(key, SLASH);
    let j = choose|j: int| 0 <= j < pieces.len() && pieces[j] == c[i];
    assert(!pieces[j].contains(SLASH));
}

/// A walk that was set up is sound, and has to give what its cursor calls for.
#[verifier::rlimit(40)]
proof fn lemma_set_up<D>(
    fs: spec_fn(Seq<u8>) -> Seq<(Seq<u8>, bool)>,
    disk: spec_fn(Seq<u8>) -> Seq<Listed>,
    opts: TreeOptions,
    ws: Seq<Restore<D>>,
    os: Seq<OpenLevel>,
    p: Pos<D>,
)
    requires
        seen(fs, disk, listing::opt_bytes(opts.entries.name_prefix)),
        set_up(disk, opts, ws, os, p),
    ensures
        sound(p),
        p.t.opts == opts,
        opts.max_depth >= 1,
        p.t.last_key@ == tree::resume_key(opts),
        left_of(fs, p) == tree_order::todo(
            fs,
            tree_order::resumed(
                fs,
                Seq::empty(),
                cursor::components_of(tree::resume_key(opts)),
                cursor::names_dir(tree::resume_key(opts)),
                opts.max_depth as nat,
            ),
            opts.max_depth as nat,
        ),
{
    let prefix = listing::opt_bytes(opts.entries.name_prefix);
    let n = os.len() as int;
    let w = ws[n];
    let comps = w.spec_comps();
    lemma_seen_is_orderly(fs, disk, prefix);
    lemma_plan(disk, opts, ws, os, p, n);
    assert(n == w.descent + 1);
    let more = tree_order::cut_listings(w, fs);
    assert forall|d: int| 0 <= d < n implies #[trigger] p.more[d] == more[d] by {
        lemma_plan(disk, opts, ws, os, p, d);
        assert(ws[d].plans(Some(os[d])));
        assert(lists(disk, os[d].path@, os[d].opts, p.more[d]));
        let path = tree::path_of(comps.take(d));
        assert(w.stack@[d].path@ == path);
        if d > 0 {
            lemma_components_are_names(tree::resume_key(opts), d - 1);
            assert(comps.take(d).last() == comps[d - 1]);
            assert(path.len() > 0);
        } else {
            assert(comps.take(0) =~= Seq::<Seq<u8>>::empty());
            assert(path.len() == 0);
        }
        lemma_lists(fs, disk, prefix, path, os[d].opts, p.more[d]);
    }
    assert(p.more =~= more);
    tree_order::lemma_restored_levels(w, p.t, fs);
    let levels = tree_order::levels_of(p.t, p.more);
    assert(left_of(fs, p) =~= tree_order::todo(fs, levels, opts.max_depth as nat));
    assert forall|i: int| 0 <= i < levels.len() implies tree_order::orderly_listing(
        (#[trigger] levels[i]).left,
    ) by {
        let path = tree::path_below(Seq::empty(), comps.take(i));
        assert(tree_order::orderly_listing(fs(path)));
        lemma_past_is_orderly(
            fs(path),
            tree::cut(comps, w.into_dir, w.descent as nat, i as nat),
        );
    }
    assert forall|i: int| 0 <= i < levels.len() - 1 implies leads_to(
        #[trigger] levels[i],
        levels[i + 1].path,
    ) by {
        let path = tree::path_below(Seq::empty(), comps.take(i));
        lemma_components_are_names(tree::resume_key(opts), i);
        let t = comps.take(i + 1);
        assert(t.drop_last() =~= comps.take(i));
        assert(t.last() == comps[i]);
        lemma_leaf_of_joined(path, comps[i]);
        let cut = order::path_key(comps[i], true);
        assert(tree::cut(comps, w.into_dir, w.descent as nat, i as nat) == Some(cut));
        assert(tree_order::orderly_listing(fs(path)));
        lemma_past_is_orderly(fs(path), Some(cut));
        let left = levels[i].left;
        assert(left == tree_order::past_cut(fs(path), Some(cut)));
        assert forall|j: int| 0 <= j < left.len() implies order::rank(
            cut,
            order::path_key((#[trigger] left[j]).0, left[j].1),
        ) == Rank::Before by {
            assert(left.contains(left[j]));
            order::lemma_rank_flips(cut, order::path_key(left[j].0, left[j].1));
        }
    }
}

/// What there is below the root, by its components: each of them is in the
/// directory that those before it lead to, as a directory itself where another
/// follows; the first has the prefix; and there are no more than `max_depth`.
pub open spec fn object(
    disk: spec_fn(Seq<u8>) -> Seq<Listed>,
    prefix: Option<Seq<u8>>,
    comps: Seq<Seq<u8>>,
    dir: bool,
    max_depth: nat,
) -> bool {
    &&& 1 <= comps.len() <= max_depth
    &&& forall|i: int|
        0 <= i < comps.len() ==> kinds(
            listing::admits(
                disk(tree::path_of(comps.take(i))),
                if i == 0 {
                    prefix
                } else {
                    None
                },
            ),
        ).contains((#[trigger] comps[i], i + 1 < comps.len() || dir))
}

/// The components lead from the directory at `path`, with these entries, to
/// something a walk that goes `fuel` levels further down comes to.
spec fn leads(
    fs: spec_fn(Seq<u8>) -> Seq<(Seq<u8>, bool)>,
    path: Seq<u8>,
    entries: Seq<(Seq<u8>, bool)>,
    comps: Seq<Seq<u8>>,
    dir: bool,
    fuel: nat,
) -> bool {
    &&& 1 <= comps.len() <= fuel + 1
    &&& entries.contains((comps[0], comps.len() > 1 || dir))
    &&& forall|i: int|
        1 <= i < comps.len() ==> fs(tree::path_below(path, comps.take(i))).contains(
            (#[trigger] comps[i], i + 1 < comps.len() || dir),
        )
}

/// The key of what the components lead to.
pub open spec fn key_below(path: Seq<u8>, comps: Seq<Seq<u8>>, dir: bool) -> Seq<u8> {
    order::path_key(tree::path_below(path, comps), dir)
}

/// `k` is the key of something there is below the root.
pub open spec fn is_key(
    disk: spec_fn(Seq<u8>) -> Seq<Listed>,
    prefix: Option<Seq<u8>>,
    max_depth: nat,
    k: Seq<u8>,
) -> bool {
    exists|comps: Seq<Seq<u8>>, dir: bool| #[trigger]
        object(disk, prefix, comps, dir, max_depth) && k == key_below(Seq::empty(), comps, dir)
}

/// Leading on from a directory, and from the entry in it.
proof fn lemma_leads_on(
    fs: spec_fn(Seq<u8>) -> Seq<(Seq<u8>, bool)>,
    path: Seq<u8>,
    entries: Seq<(Seq<u8>, bool)>,
    comps: Seq<Seq<u8>>,
    dir: bool,
    fuel: nat,
)
    requires
        comps.len() > 1,
        fuel > 0,
    ensures
        leads(fs, path, entries, comps, dir, fuel) == (entries.contains((comps[0], true)) && leads(
            fs,
            tree::joined(path, comps[0]),
            fs(tree::joined(path, comps[0])),
            comps.drop_first(),
            dir,
            (fuel - 1) as nat,
        )),
        key_below(path, comps, dir) == key_below(
            tree::joined(path, comps[0]),
            comps.drop_first(),
            dir,
        ),
{
    let sub = tree::joined(path, comps[0]);
    let rest = comps.drop_first();
    tree_order::lemma_path_below_first(path, comps);
    assert forall|i: int| 1 <= i < comps.len() implies #[trigger] tree::path_below(
        path,
        comps.take(i),
    ) == tree::path_below(sub, rest.take(i - 1)) by {
        tree_order::lemma_path_below_first(path, comps.take(i));
        assert(comps.take(i).drop_first() =~= rest.take(i - 1));
    }
    assert(rest.take(0) =~= Seq::<Seq<u8>>::empty());
    assert(tree::path_below(sub, rest.take(0)) == sub);
    let whole = leads(fs, path, entries, comps, dir, fuel);
    let below = leads(fs, sub, fs(sub), rest, dir, (fuel - 1) as nat);
    if whole {
        assert(fs(tree::path_below(path, comps.take(1))).contains(
            (comps[1], 2 < comps.len() || dir),
        ));
        assert(rest[0] == comps[1]);
        assert forall|i: int| 1 <= i < rest.len() implies fs(
            tree::path_below(sub, rest.take(i)),
        ).contains((#[trigger] rest[i], i + 1 < rest.len() || dir)) by {
            assert(rest[i] == comps[i + 1]);
            assert(tree::path_below(path, comps.take(i + 1)) == tree::path_below(
                sub,
                rest.take(i),
            ));
        }
    }
    if entries.contains((comps[0], true)) && below {
        assert forall|i: int| 1 <= i < comps.len() implies fs(
            tree::path_below(path, comps.take(i)),
        ).contains((#[trigger] comps[i], i + 1 < comps.len() || dir)) by {
            assert(comps[i] == rest[i - 1]);
            assert(tree::path_below(path, comps.take(i)) == tree::path_below(
                sub,
                rest.take(i - 1),
            ));
        }
    }
}

/// What a walk comes to has its key among those it gives.
proof fn lemma_leads_to_key(
    fs: spec_fn(Seq<u8>) -> Seq<(Seq<u8>, bool)>,
    path: Seq<u8>,
    entries: Seq<(Seq<u8>, bool)>,
    comps: Seq<Seq<u8>>,
    dir: bool,
    fuel: nat,
)
    requires
        leads(fs, path, entries, comps, dir, fuel),
    ensures
        tree_order::walk(fs, path, entries, fuel).contains(key_below(path, comps, dir)),
    decreases fuel, entries.len(),
{
    let k = key_below(path, comps, dir);
    let first = (comps[0], comps.len() > 1 || dir);
    let j = choose|j: int| 0 <= j < entries.len() && entries[j] == first;
    let e = entries[0];
    let sub = tree::joined(path, e.0);
    let w = tree_order::walk(fs, path, entries, fuel);
    let below = if e.1 && fuel > 0 {
        tree_order::walk(fs, sub, fs(sub), (fuel - 1) as nat)
    } else {
        Seq::empty()
    };
    let rest = tree_order::walk(fs, path, entries.drop_first(), fuel);
    if j == 0 {
        if comps.len() == 1 {
            tree_order::lemma_path_below_first(path, comps);
            assert(comps.drop_first() =~= Seq::<Seq<u8>>::empty());
            assert(w[0] == k);
        } else {
            lemma_leads_on(fs, path, entries, comps, dir, fuel);
            lemma_leads_to_key(fs, sub, fs(sub), comps.drop_first(), dir, (fuel - 1) as nat);
            let m = choose|m: int| 0 <= m < below.len() && below[m] == k;
            assert(w[m + 1] == k);
        }
    } else {
        assert(entries.drop_first()[j - 1] == first);
        lemma_leads_to_key(fs, path, entries.drop_first(), comps, dir, fuel);
        let m = choose|m: int| 0 <= m < rest.len() && rest[m] == k;
        assert(w[1 + below.len() + m] == k);
    }
}

/// What a walk gives is the key of something it comes to.
proof fn lemma_key_leads_back(
    fs: spec_fn(Seq<u8>) -> Seq<(Seq<u8>, bool)>,
    path: Seq<u8>,
    entries: Seq<(Seq<u8>, bool)>,
    fuel: nat,
    i: int,
) -> (r: (Seq<Seq<u8>>, bool))
    requires
        0 <= i < tree_order::walk(fs, path, entries, fuel).len(),
    ensures
        leads(fs, path, entries, r.0, r.1, fuel),
        tree_order::walk(fs, path, entries, fuel)[i] == key_below(path, r.0, r.1),
    decreases fuel, entries.len(),
{
    let e = entries[0];
    let sub = tree::joined(path, e.0);
    let w = tree_order::walk(fs, path, entries, fuel);
    let below = if e.1 && fuel > 0 {
        tree_order::walk(fs, sub, fs(sub), (fuel - 1) as nat)
    } else {
        Seq::empty()
    };
    let rest = tree_order::walk(fs, path, entries.drop_first(), fuel);
    if i == 0 {
        let comps = seq![e.0];
        tree_order::lemma_path_below_first(path, comps);
        assert(comps.drop_first() =~= Seq::<Seq<u8>>::empty());
        assert(entries.contains(entries[0]));
        (comps, e.1)
    } else if i <= below.len() {
        assert(w[i] == below[i - 1]);
        let (more, dir) = lemma_key_leads_back(fs, sub, fs(sub), (fuel - 1) as nat, i - 1);
        let comps = seq![e.0] + more;
        assert(comps.drop_first() =~= more);
        assert(entries.contains(entries[0]));
        lemma_leads_on(fs, path, entries, comps, dir, fuel);
        (comps, dir)
    } else {
        let m = i - 1 - below.len();
        assert(w[i] == rest[m]);
        let (comps, dir) = lemma_key_leads_back(fs, path, entries.drop_first(), fuel, m);
        let first = (comps[0], comps.len() > 1 || dir);
        let j = choose|j: int|
            0 <= j < entries.drop_first().len() && entries.drop_first()[j] == first;
        assert(entries[j + 1] == first);
        (comps, dir)
    }
}

/// What there is below the root is what a walk comes to.
proof fn lemma_objects_are_led_to(
    fs: spec_fn(Seq<u8>) -> Seq<(Seq<u8>, bool)>,
    disk: spec_fn(Seq<u8>) -> Seq<Listed>,
    prefix: Option<Seq<u8>>,
    comps: Seq<Seq<u8>>,
    dir: bool,
    max_depth: nat,
)
    requires
        seen(fs, disk, prefix),
        max_depth >= 1,
    ensures
        object(disk, prefix, comps, dir, max_depth) == leads(
            fs,
            Seq::empty(),
            fs(Seq::empty()),
            comps,
            dir,
            (max_depth - 1) as nat,
        ),
{
    let root = Seq::<u8>::empty();
    let (a, b) = (
        object(disk, prefix, comps, dir, max_depth),
        leads(fs, root, fs(root), comps, dir, (max_depth - 1) as nat),
    );
    assert(comps.take(0) =~= Seq::<Seq<u8>>::empty());
    assert(tree::path_of(comps.take(0)) == root);
    if a {
        assert forall|i: int| 0 <= i < comps.len() implies fs(
            tree::path_of(comps.take(i)),
        ).contains((#[trigger] comps[i], i + 1 < comps.len() || dir)) by {
            lemma_object_step(fs, disk, prefix, comps, dir, max_depth, i);
        }
        assert(fs(root).contains((comps[0], 1 < comps.len() || dir)));
    }
    if b {
        assert forall|i: int| 0 <= i < comps.len() implies kinds(
            listing::admits(
                disk(tree::path_of(comps.take(i))),
                if i == 0 {
                    prefix
                } else {
                    None
                },
            ),
        ).contains((#[trigger] comps[i], i + 1 < comps.len() || dir)) by {
            let path = tree::path_of(comps.take(i));
            if i > 0 {
                lemma_led_path_is_not_the_root(fs, disk, prefix, comps, dir, max_depth, i);
            }
            lemma_listed_is_held(fs, disk, prefix, path, (comps[i], i + 1 < comps.len() || dir));
        }
    }
}

/// A directory's listing has exactly what is admitted of it.
proof fn lemma_listed_is_held(
    fs: spec_fn(Seq<u8>) -> Seq<(Seq<u8>, bool)>,
    disk: spec_fn(Seq<u8>) -> Seq<Listed>,
    prefix: Option<Seq<u8>>,
    path: Seq<u8>,
    x: (Seq<u8>, bool),
)
    requires
        seen(fs, disk, prefix),
    ensures
        fs(path).contains(x) == kinds(
            listing::admits(disk(path), prefix_at(path, prefix)),
        ).contains(x),
        fs(path).contains(x) ==> x.0.len() > 0,
{
    let all = listing::admits(disk(path), prefix_at(path, prefix));
    assert(proper(disk(path)));
    lemma_admitted_is_proper(disk(path), prefix_at(path, prefix));
    assert(listed_past(fs(path), all, None));
    law_sorted_listing_is_orderly(fs(path), all, None);
    if fs(path).contains(x) {
        let l = fs(path);
        let i = choose|i: int| 0 <= i < l.len() && l[i] == x;
        assert(l[i].0.len() > 0);
    }
}

/// What one component of something below the root says.
proof fn lemma_object_step(
    fs: spec_fn(Seq<u8>) -> Seq<(Seq<u8>, bool)>,
    disk: spec_fn(Seq<u8>) -> Seq<Listed>,
    prefix: Option<Seq<u8>>,
    comps: Seq<Seq<u8>>,
    dir: bool,
    max_depth: nat,
    i: int,
)
    requires
        seen(fs, disk, prefix),
        object(disk, prefix, comps, dir, max_depth),
        0 <= i < comps.len(),
    ensures
        fs(tree::path_of(comps.take(i))).contains((comps[i], i + 1 < comps.len() || dir)),
        comps[i].len() > 0,
    decreases i,
{
    let path = tree::path_of(comps.take(i));
    let x = (comps[i], i + 1 < comps.len() || dir);
    if i > 0 {
        lemma_object_step(fs, disk, prefix, comps, dir, max_depth, i - 1);
        assert(comps.take(i).last() == comps[i - 1]);
        assert(path.len() > 0);
    } else {
        assert(comps.take(0) =~= Seq::<Seq<u8>>::empty());
        assert(path.len() == 0);
    }
    lemma_listed_is_held(fs, disk, prefix, path, x);
}

/// What components lead to below the root is not the root.
proof fn lemma_led_path_is_not_the_root(
    fs: spec_fn(Seq<u8>) -> Seq<(Seq<u8>, bool)>,
    disk: spec_fn(Seq<u8>) -> Seq<Listed>,
    prefix: Option<Seq<u8>>,
    comps: Seq<Seq<u8>>,
    dir: bool,
    max_depth: nat,
    i: int,
)
    requires
        seen(fs, disk, prefix),
        max_depth >= 1,
        leads(fs, Seq::empty(), fs(Seq::empty()), comps, dir, (max_depth - 1) as nat),
        0 < i < comps.len(),
    ensures
        tree::path_of(comps.take(i)).len() > 0,
{
    let above = tree::path_of(comps.take(i - 1));
    assert(comps.take(0) =~= Seq::<Seq<u8>>::empty());
    assert(fs(above).contains((comps[i - 1], i < comps.len() || dir)));
    lemma_listed_is_held(fs, disk, prefix, above, (comps[i - 1], i < comps.len() || dir));
    assert(comps.take(i).last() == comps[i - 1]);
}

/// A walk gives the key of everything there is below the root, down to where it
/// may go, and of nothing else, each once and in path order.
pub proof fn law_walk_gives_every_key_once<D>(
    fs: spec_fn(Seq<u8>) -> Seq<(Seq<u8>, bool)>,
    disk: spec_fn(Seq<u8>) -> Seq<Listed>,
    opts: TreeOptions,
    ws: Seq<Restore<D>>,
    os: Seq<OpenLevel>,
    ps: Seq<Pos<D>>,
)
    requires
        seen(fs, disk, listing::opt_bytes(opts.entries.name_prefix)),
        opts.resume is None,
        set_up(disk, opts, ws, os, ps[0]),
        run(disk, ps),
    ensures
        ps.last().given == tree_order::walk(
            fs,
            Seq::empty(),
            fs(Seq::empty()),
            (opts.max_depth - 1) as nat,
        ),
        tree_order::in_order(ps.last().given),
        forall|k: Seq<u8>| #[trigger]
            ps.last().given.contains(k) == is_key(
                disk,
                listing::opt_bytes(opts.entries.name_prefix),
                opts.max_depth as nat,
                k,
            ),
{
    let prefix = listing::opt_bytes(opts.entries.name_prefix);
    let m = opts.max_depth as nat;
    let root = Seq::<u8>::empty();
    let fuel = (m - 1) as nat;
    let whole = tree_order::walk(fs, root, fs(root), fuel);
    lemma_set_up(fs, disk, opts, ws, os, ps[0]);
    law_run_gives_what_was_left(fs, disk, prefix, ps);
    assert(tree::resume_key(opts) =~= root);
    tree_order::law_empty_cursor_is_the_beginning(fs, m);
    let given = ps.last().given;
    assert(given =~= whole);
    lemma_seen_is_orderly(fs, disk, prefix);
    assert(tree_order::orderly_listing(fs(root)));
    tree_order::law_walk_is_in_path_order(fs, root, fs(root), fuel);
    assert forall|k: Seq<u8>| #[trigger] given.contains(k) == is_key(disk, prefix, m, k) by {
        if is_key(disk, prefix, m, k) {
            let (comps, dir) = choose|comps: Seq<Seq<u8>>, dir: bool| #[trigger]
                object(disk, prefix, comps, dir, m) && k == key_below(root, comps, dir);
            lemma_objects_are_led_to(fs, disk, prefix, comps, dir, m);
            lemma_leads_to_key(fs, root, fs(root), comps, dir, fuel);
        }
        if given.contains(k) {
            let i = choose|i: int| 0 <= i < given.len() && given[i] == k;
            let (comps, dir) = lemma_key_leads_back(fs, root, fs(root), fuel, i);
            lemma_objects_are_led_to(fs, disk, prefix, comps, dir, m);
            assert(object(disk, prefix, comps, dir, m));
        }
    }
}

/// Resuming is exact: a walk that is resumed where another, over the same tree
/// and from its beginning, was stopped after some of its keys gives exactly
/// those that the other gives after them, in their order. `ps` is that other
/// walk, `k` where its cursor was taken, and `qs` the one resumed there.
pub proof fn law_resumed_walk_gives_the_rest<D>(
    fs: spec_fn(Seq<u8>) -> Seq<(Seq<u8>, bool)>,
    disk: spec_fn(Seq<u8>) -> Seq<Listed>,
    opts: TreeOptions,
    ws: Seq<Restore<D>>,
    os: Seq<OpenLevel>,
    ps: Seq<Pos<D>>,
    k: int,
    opts2: TreeOptions,
    ws2: Seq<Restore<D>>,
    os2: Seq<OpenLevel>,
    qs: Seq<Pos<D>>,
)
    requires
        seen(fs, disk, listing::opt_bytes(opts.entries.name_prefix)),
        opts.resume is None,
        set_up(disk, opts, ws, os, ps[0]),
        run(disk, ps),
        0 <= k < ps.len(),
        ps[k].given.len() > 0,
        listing::opt_bytes(opts2.entries.name_prefix) == listing::opt_bytes(
            opts.entries.name_prefix,
        ),
        opts2.max_depth == opts.max_depth,
        opts2.resume is Some,
        opts2.resume->0.at@ == ps[k].t.last_key@,
        set_up(disk, opts2, ws2, os2, qs[0]),
        run(disk, qs),
    ensures
        qs.last().given == ps.last().given.skip(ps[k].given.len() as int),
{
    let prefix = listing::opt_bytes(opts.entries.name_prefix);
    let m = opts.max_depth as nat;
    let root = Seq::<u8>::empty();
    let whole = tree_order::walk(fs, root, fs(root), (m - 1) as nat);
    lemma_set_up(fs, disk, opts, ws, os, ps[0]);
    lemma_set_up(fs, disk, opts2, ws2, os2, qs[0]);
    law_run_gives_what_was_left(fs, disk, prefix, ps);
    law_run_gives_what_was_left(fs, disk, prefix, qs);
    assert(tree::resume_key(opts) =~= root);
    tree_order::law_empty_cursor_is_the_beginning(fs, m);
    assert(ps[0].given + left_of(fs, ps[0]) =~= whole);
    lemma_moves(fs, disk, prefix, ps, k);
    let i = ps[k].given.len() - 1;
    assert(whole == ps[k].given + left_of(fs, ps[k]));
    assert(whole[i] == ps[k].given.last());
    lemma_seen_is_orderly(fs, disk, prefix);
    tree_order::law_resume_is_exact(fs, m, i);
    assert(qs[0].given + left_of(fs, qs[0]) =~= whole.skip(i + 1));
}

/// No key that a level above has left is below a directory that its levels lead
/// to.
#[verifier::rlimit(40)]
proof fn lemma_left_is_elsewhere(
    fs: spec_fn(Seq<u8>) -> Seq<(Seq<u8>, bool)>,
    levels: Seq<Level>,
    own: Seq<u8>,
    max_depth: nat,
)
    requires
        tree_order::orderly(fs),
        forall|i: int|
            0 <= i < levels.len() ==> tree_order::orderly_listing((#[trigger] levels[i]).left),
        forall|i: int|
            0 <= i < levels.len() - 1 ==> leads_to(#[trigger] levels[i], levels[i + 1].path),
        levels.len() > 0 ==> exists|name: Seq<u8>|
            {
                &&& name.len() > 0
                &&& !name.contains(SLASH)
                &&& #[trigger] follow(name, levels.last().left)
                &&& tree::dir_prefix(tree::joined(levels.last().path, name)).is_prefix_of(own)
            },
    ensures
        forall|j: int|
            0 <= j < tree_order::todo(fs, levels, max_depth).len() ==> !own.is_prefix_of(
                #[trigger] tree_order::todo(fs, levels, max_depth)[j],
            ),
    decreases levels.len(),
{
    if levels.len() > 0 {
        let n = levels.len() - 1;
        let top = levels.last();
        let name = choose|name: Seq<u8>|
            {
                &&& name.len() > 0
                &&& !name.contains(SLASH)
                &&& #[trigger] follow(name, top.left)
                &&& tree::dir_prefix(tree::joined(top.path, name)).is_prefix_of(own)
            };
        let above = levels.drop_last();
        let fuel = (max_depth - levels.len()) as nat;
        let keys = tree_order::walk(fs, top.path, top.left, fuel);
        let rest = tree_order::todo(fs, above, max_depth);
        let pre = tree::dir_prefix(tree::joined(top.path, name));
        let e = (name, true);
        tree_order::lemma_entry_key(top.path, e);
        if n > 0 {
            assert(leads_to(levels[n - 1], levels[n].path));
            let up = tree::leaf_of(top.path);
            assert(follow(up, above.last().left));
            bytes::lemma_split_nonempty(top.path, SLASH);
            bytes::lemma_split_pieces(top.path, SLASH);
            let pieces = bytes::split_on(top.path, SLASH);
            assert(!pieces[pieces.len() - 1].contains(SLASH));
            let pre2 = tree::dir_prefix(top.path);
            assert(top.path.len() > 0);
            assert(pre =~= pre2 + name.push(SLASH));
            assert(pre2.is_prefix_of(own)) by {
                assert(pre =~= own.subrange(0, pre.len() as int));
                assert(own.subrange(0, pre2.len() as int) =~= pre.subrange(0, pre2.len() as int));
                assert(pre.subrange(0, pre2.len() as int) =~= pre2);
            }
        }
        assert forall|i: int| 0 <= i < above.len() implies tree_order::orderly_listing(
            (#[trigger] above[i]).left,
        ) by {
            assert(above[i] == levels[i]);
        }
        assert forall|i: int| 0 <= i < above.len() - 1 implies leads_to(
            #[trigger] above[i],
            above[i + 1].path,
        ) by {
            assert(above[i] == levels[i] && above[i + 1] == levels[i + 1]);
        }
        lemma_left_is_elsewhere(fs, above, own, max_depth);
        assert(tree_order::orderly_listing(levels[n].left));
        tree_order::lemma_walk_is_at_or_below(fs, top.path, top.left, fuel);
        let all = tree_order::todo(fs, levels, max_depth);
        assert forall|j: int| 0 <= j < all.len() implies !own.is_prefix_of(#[trigger] all[j]) by {
            if j < keys.len() {
                let k = keys[j];
                assert(all[j] == k);
                assert(tree_order::belongs(k, top.path, top.left));
                let m = choose|m: int|
                    0 <= m < top.left.len() && #[trigger] tree_order::at_or_below(
                        k,
                        top.path,
                        top.left[m],
                    );
                if own.is_prefix_of(k) {
                    assert(pre =~= own.subrange(0, pre.len() as int));
                    assert(own =~= k.subrange(0, own.len() as int));
                    assert(k.subrange(0, pre.len() as int) =~= pre);
                    assert(tree_order::at_or_below(k, top.path, e));
                    tree_order::lemma_subtrees_in_order(top.path, e, top.left[m], k, k);
                    order::lemma_rank_same(k, k);
                }
            } else {
                assert(all[j] == rest[j - keys.len()]);
            }
        }
    }
}

/// The entry that was given is a name, and what its level has left follows it.
proof fn lemma_given_entry<D>(before: Pos<D>, p: Pos<D>, e: TreeEntry)
    requires
        sound(before),
        tree::stepped(before.t, p.t, TreeStep::Entry(e)),
        p.more == before.more,
    ensures
        tree_order::levels_of(p.t, p.more).len() > 0,
        e.entry.name@.len() > 0,
        !e.entry.name@.contains(SLASH),
        e.parent@ == tree_order::levels_of(p.t, p.more).last().path,
        e.entry.is_dir ==> follow(
            e.entry.name@,
            tree_order::levels_of(p.t, p.more).last().left,
        ),
{
    let d = before.t.stack@.len() as int;
    let lb = tree_order::levels_of(before.t, before.more);
    let lp = tree_order::levels_of(p.t, p.more);
    let (left, rest) = (lb[d - 1].left, lp[d - 1].left);
    let x = (e.entry.name@, e.entry.is_dir);
    assert(tree_order::listed_as(before.t.stack@[d - 1].buf@)[0] == x);
    assert(left[0] == x);
    assert(rest =~= left.drop_first());
    assert(tree_order::orderly_listing(left));
    assert(left[0].0.len() > 0 && !left[0].0.contains(order::SEPARATOR));
    if x.1 {
        assert forall|j: int| 0 <= j < rest.len() implies order::rank(
            order::path_key(x.0, true),
            order::path_key((#[trigger] rest[j]).0, rest[j].1),
        ) == Rank::Before by {
            assert(rest[j] == left[j + 1]);
            assert(order::rank(
                order::path_key(left[0].0, left[0].1),
                order::path_key(left[j + 1].0, left[j + 1].1),
            ) == Rank::Before);
        }
    }
}

/// What is below the directory that was given last.
spec fn below_last<D>(fs: spec_fn(Seq<u8>) -> Seq<(Seq<u8>, bool)>, p: Pos<D>) -> Seq<Seq<u8>> {
    match p.t.pending {
        Some(path) => tree_order::walk(
            fs,
            path@,
            fs(path@),
            (p.t.opts.max_depth - p.t.stack@.len() - 1) as nat,
        ),
        None => Seq::empty(),
    }
}

/// What a walk has left once it gave `e`: first what is below it, then what is
/// not.
#[verifier::rlimit(40)]
proof fn lemma_left_after_entry<D>(
    fs: spec_fn(Seq<u8>) -> Seq<(Seq<u8>, bool)>,
    before: Pos<D>,
    p: Pos<D>,
    e: TreeEntry,
)
    requires
        tree_order::orderly(fs),
        sound(before),
        sound(p),
        tree::stepped(before.t, p.t, TreeStep::Entry(e)),
        p.more == before.more,
    ensures
        ({
            let (below, rest) = (
                below_last(fs, p),
                left_of(fs, Pos { t: p.t.settled(), ..p }),
            );
            &&& left_of(fs, p) == below + rest
            &&& below.len() > 0 ==> e.entry.is_dir
            &&& forall|j: int|
                0 <= j < below.len() ==> e.spec_key().is_prefix_of(#[trigger] below[j])
            &&& forall|j: int|
                0 <= j < rest.len() && e.entry.is_dir ==> !e.spec_key().is_prefix_of(
                    #[trigger] rest[j],
                )
        }),
{
    let q = Pos { t: p.t.settled(), ..p };
    let (lp, lq) = (tree_order::levels_of(p.t, p.more), tree_order::levels_of(q.t, q.more));
    assert(lp =~= lq);
    let m = p.t.opts.max_depth as nat;
    let (below, rest) = (below_last(fs, p), left_of(fs, q));
    assert(rest =~= tree_order::todo(fs, lp, m));
    assert(left_of(fs, p) =~= below + rest);
    lemma_given_entry(before, p, e);
    let x = (e.entry.name@, e.entry.is_dir);
    let own = e.spec_key();
    if x.1 {
        let top = lp.last();
        tree_order::lemma_entry_key(top.path, x);
        assert(own == tree::dir_prefix(tree::joined(top.path, x.0)));
        assert(own.subrange(0, own.len() as int) =~= own);
        assert(follow(x.0, top.left));
        lemma_left_is_elsewhere(fs, lp, own, m);
        if p.t.pending is Some {
            tree_order::lemma_below_is_below(
                fs,
                top.path,
                x,
                (p.t.opts.max_depth - p.t.stack@.len() - 1) as nat,
            );
        }
    }
}

/// A walk gives more and more, and a descent that is pending is into the
/// directory given last.
proof fn lemma_given_grows<D>(
    disk: spec_fn(Seq<u8>) -> Seq<Listed>,
    ps: Seq<Pos<D>>,
    i: int,
    j: int,
)
    requires
        run(disk, ps),
        0 <= i <= j < ps.len(),
        ps[0].t.pending is None,
    ensures
        ps[i].given.is_prefix_of(ps[j].given),
        ps[j].t.pending is Some ==> {
            &&& ps[j].given.len() > ps[0].given.len()
            &&& ps[j].given.last() == order::path_key(ps[j].t.pending->0@, true)
        },
    decreases j,
{
    let b = ps[j];
    assert(b.given =~= b.given.subrange(0, b.given.len() as int));
    if j > 0 {
        let a = ps[j - 1];
        lemma_given_grows(disk, ps, 0, j - 1);
        if i < j {
            lemma_given_grows(disk, ps, i, j - 1);
        }
        assert(moves(disk, a, b));
        let (mid, r) = choose|mid: QueryTree<D>, r: TreeStep| #[trigger]
            tree::stepped(a.t, mid, r) && answered(disk, a, mid, r, b);
        let first = ps[i].given;
        if i < j {
            assert(first =~= a.given.subrange(0, first.len() as int));
            assert(first =~= b.given.subrange(0, first.len() as int));
        }
    }
}

/// Passing a directory over costs exactly what is below it: of the keys that a
/// walk has still to give once it gave `e`, those that begin with `e`'s key are
/// left out where it is a directory, and nothing else changes; and no directory
/// is opened that is `e` or below it.
#[verifier::rlimit(40)]
pub proof fn law_skipped_directory_costs_its_subtree<D>(
    fs: spec_fn(Seq<u8>) -> Seq<(Seq<u8>, bool)>,
    disk: spec_fn(Seq<u8>) -> Seq<Listed>,
    prefix: Option<Seq<u8>>,
    before: Pos<D>,
    e: TreeEntry,
    ps: Seq<Pos<D>>,
    qs: Seq<Pos<D>>,
)
    requires
        seen(fs, disk, prefix),
        sound(before),
        run(disk, ps),
        run(disk, qs),
        tree::stepped(before.t, ps[0].t, TreeStep::Entry(e)),
        ps[0].more == before.more,
        ps[0].given == before.given.push(e.spec_key()),
        qs[0] == (Pos { t: ps[0].t.settled(), ..ps[0] }),
    ensures
        ({
            let n = ps[0].given.len() as int;
            qs.last().given.skip(n) == ps.last().given.skip(n).filter(
                |k: Seq<u8>| !(e.entry.is_dir && e.spec_key().is_prefix_of(k)),
            )
        }),
        forall|i: int, mid: QueryTree<D>, o: OpenLevel|
            0 <= i < qs.len() && e.entry.is_dir && #[trigger] tree::stepped(
                qs[i].t,
                mid,
                TreeStep::Open(o),
            ) ==> !e.spec_key().is_prefix_of(order::path_key(o.path@, true)),
{
    let p = ps[0];
    let q = qs[0];
    let n = p.given.len() as int;
    lemma_seen_is_orderly(fs, disk, prefix);
    lemma_entry_given(fs, before, p, e);
    assert(sound(q)) by {
        assert(tree_order::levels_of(q.t, q.more) =~= tree_order::levels_of(p.t, p.more));
    }
    law_run_gives_what_was_left(fs, disk, prefix, ps);
    law_run_gives_what_was_left(fs, disk, prefix, qs);
    let (below, rest) = (below_last(fs, p), left_of(fs, q));
    assert(ps.last().given.skip(n) =~= left_of(fs, p));
    assert(qs.last().given.skip(n) =~= rest);
    lemma_left_after_entry(fs, before, p, e);
    let keep = |k: Seq<u8>| !(e.entry.is_dir && e.spec_key().is_prefix_of(k));
    lemma_filter_all(rest, keep);
    lemma_filter_none(below, keep);
    Seq::filter_distributes_over_add(below, rest, keep);
    assert(Seq::<Seq<u8>>::empty() + rest =~= rest);
    assert forall|i: int, mid: QueryTree<D>, o: OpenLevel|
        0 <= i < qs.len() && e.entry.is_dir && #[trigger] tree::stepped(
            qs[i].t,
            mid,
            TreeStep::Open(o),
        ) implies !e.spec_key().is_prefix_of(order::path_key(o.path@, true)) by {
        lemma_given_grows(disk, qs, i, i);
        lemma_given_grows(disk, qs, i, qs.len() - 1);
        let (some, all) = (qs[i].given, qs.last().given);
        let k = some.len() - 1;
        assert(some =~= all.subrange(0, some.len() as int));
        assert(all[k] == some[k]);
        assert(rest[k - n] == all[k]);
    }
}

proof fn lemma_filter_all(s: Seq<Seq<u8>>, keep: spec_fn(Seq<u8>) -> bool)
    requires
        forall|i: int| 0 <= i < s.len() ==> keep(#[trigger] s[i]),
    ensures
        s.filter(keep) == s,
    decreases s.len(),
{
    reveal(Seq::filter);
    if s.len() > 0 {
        let less = s.drop_last();
        assert forall|i: int| 0 <= i < less.len() implies keep(#[trigger] less[i]) by {
            assert(less[i] == s[i]);
        }
        lemma_filter_all(less, keep);
        assert(keep(s[s.len() - 1]));
        assert(s =~= less.push(s.last()));
    } else {
        assert(s.filter(keep) =~= s);
    }
}

proof fn lemma_filter_none(s: Seq<Seq<u8>>, keep: spec_fn(Seq<u8>) -> bool)
    requires
        forall|i: int| 0 <= i < s.len() ==> !keep(#[trigger] s[i]),
    ensures
        s.filter(keep) == Seq::<Seq<u8>>::empty(),
    decreases s.len(),
{
    reveal(Seq::filter);
    if s.len() > 0 {
        let less = s.drop_last();
        assert forall|i: int| 0 <= i < less.len() implies !keep(#[trigger] less[i]) by {
            assert(less[i] == s[i]);
        }
        lemma_filter_none(less, keep);
        assert(!keep(s[s.len() - 1]));
    } else {
        assert(s.filter(keep) =~= s);
    }
}

/// Every position that a walk comes to is sound: its beginning is, a move leads
/// from one that is to one that is, and so does passing a directory over.
pub proof fn law_walks_stay_sound<D>(
    fs: spec_fn(Seq<u8>) -> Seq<(Seq<u8>, bool)>,
    disk: spec_fn(Seq<u8>) -> Seq<Listed>,
    opts: TreeOptions,
    ws: Seq<Restore<D>>,
    os: Seq<OpenLevel>,
    p: Pos<D>,
    q: Pos<D>,
)
    requires
        seen(fs, disk, listing::opt_bytes(opts.entries.name_prefix)),
    ensures
        set_up(disk, opts, ws, os, p) ==> sound(p),
        sound(p) && moves(disk, p, q) ==> sound(q),
        sound(p) ==> sound(Pos { t: p.t.settled(), ..p }),
{
    if set_up(disk, opts, ws, os, p) {
        lemma_set_up(fs, disk, opts, ws, os, p);
    }
    if sound(p) {
        if moves(disk, p, q) {
            lemma_move(fs, disk, listing::opt_bytes(opts.entries.name_prefix), p, q);
        }
        let s = Pos { t: p.t.settled(), ..p };
        assert(tree_order::levels_of(s.t, s.more) =~= tree_order::levels_of(p.t, p.more));
    }
}

} // verus!
