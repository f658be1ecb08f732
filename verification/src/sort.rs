//! A stable sort by byte keys, and the cut a listing resumes at.
use crate::order;
use crate::order::{rank_entries, Rank};
use vstd::prelude::*;

verus! {

/// Something with a byte key. `by_path` selects the key that orders full
/// paths over the one that orders names.
pub trait Keyed: Sized {
    spec fn key(&self, by_path: bool) -> Seq<u8>;

    fn rank_with(&self, other: &Self, by_path: bool) -> (r: Rank)
        ensures
            r == order::rank(self.key(by_path), other.key(by_path)),
    ;

    fn rank_against(&self, key: &[u8], by_path: bool) -> (r: Rank)
        ensures
            r == order::rank(self.key(by_path), key@),
    ;
}

impl Keyed for Vec<u8> {
    open spec fn key(&self, by_path: bool) -> Seq<u8> {
        self@
    }

    fn rank_with(&self, other: &Self, by_path: bool) -> (r: Rank) {
        rank_entries(self.as_slice(), false, other.as_slice(), false)
    }

    fn rank_against(&self, key: &[u8], by_path: bool) -> (r: Rank) {
        rank_entries(self.as_slice(), false, key, false)
    }
}

/// No element's key is after a later element's.
pub open spec fn sorted<K: Keyed>(s: Seq<K>, by_path: bool) -> bool {
    forall|i: int, j: int|
        0 <= i < j < s.len() ==> order::rank(
            (#[trigger] s[i]).key(by_path),
            (#[trigger] s[j]).key(by_path),
        ) != Rank::After
}

/// The elements of `s` with the key `k`, in their order.
pub open spec fn with_key<K: Keyed>(s: Seq<K>, by_path: bool, k: Seq<u8>) -> Seq<K> {
    s.filter(|e: K| e.key(by_path) == k)
}

/// `r` is `s` in another order that keeps elements of the same key in theirs.
pub open spec fn rearranges<K: Keyed>(r: Seq<K>, s: Seq<K>, by_path: bool) -> bool {
    forall|k: Seq<u8>| #[trigger] with_key(r, by_path, k) == with_key(s, by_path, k)
}

/// What two lists have with a key, their concatenation has.
pub proof fn lemma_with_key_add<K: Keyed>(a: Seq<K>, b: Seq<K>, by_path: bool, k: Seq<u8>)
    ensures
        with_key(a + b, by_path, k) == with_key(a, by_path, k) + with_key(b, by_path, k),
{
    Seq::filter_distributes_over_add(a, b, |e: K| e.key(by_path) == k);
}

/// What a single element has with a key.
pub proof fn lemma_with_key_one<K: Keyed>(x: K, by_path: bool, k: Seq<u8>)
    ensures
        with_key(seq![x], by_path, k) == (if x.key(by_path) == k {
            seq![x]
        } else {
            Seq::empty()
        }),
{
    reveal(Seq::filter);
    let one = seq![x];
    assert(one.drop_last() =~= Seq::<K>::empty());
    assert(with_key(Seq::<K>::empty(), by_path, k) =~= Seq::<K>::empty());
    assert(one.last() == x);
    if x.key(by_path) == k {
        assert(with_key(one, by_path, k) =~= seq![x]);
    } else {
        assert(with_key(one, by_path, k) =~= Seq::<K>::empty());
    }
}

/// Elements none of which has the key `k` give nothing.
pub proof fn lemma_with_key_none<K: Keyed>(s: Seq<K>, by_path: bool, k: Seq<u8>)
    requires
        forall|i: int| 0 <= i < s.len() ==> (#[trigger] s[i]).key(by_path) != k,
    ensures
        with_key(s, by_path, k) == Seq::<K>::empty(),
    decreases s.len(),
{
    reveal(Seq::filter);
    if s.len() > 0 {
        let rest = s.drop_last();
        assert forall|i: int| 0 <= i < rest.len() implies (#[trigger] rest[i]).key(by_path)
            != k by {
            assert(rest[i] == s[i]);
        }
        lemma_with_key_none(rest, by_path, k);
        assert(s[s.len() - 1].key(by_path) != k);
    }
}

/// Where `s` ends in `x`, so do the elements with `x`'s key.
pub proof fn lemma_with_key_last<K: Keyed>(s: Seq<K>, by_path: bool, k: Seq<u8>)
    requires
        s.len() > 0,
    ensures
        with_key(s, by_path, k) == with_key(s.drop_last(), by_path, k) + with_key(
            seq![s.last()],
            by_path,
            k,
        ),
{
    assert(s =~= s.drop_last() + seq![s.last()]);
    lemma_with_key_add(s.drop_last(), seq![s.last()], by_path, k);
}

/// Two elements with a key are both among those with it.
pub proof fn lemma_two_with_key<K: Keyed>(s: Seq<K>, by_path: bool, k: Seq<u8>, i: int, j: int)
    requires
        0 <= i < j < s.len(),
        s[i].key(by_path) == k,
        s[j].key(by_path) == k,
    ensures
        with_key(s, by_path, k).len() >= 2,
    decreases s.len(),
{
    let less = s.drop_last();
    lemma_with_key_last(s, by_path, k);
    lemma_with_key_one(s.last(), by_path, k);
    if j < less.len() {
        lemma_two_with_key(less, by_path, k, i, j);
    } else {
        assert(less[i] == s[i]);
        lemma_among_its_key(less, by_path, s[i]);
        assert(less.contains(less[i]));
    }
}

/// Where no two elements have the same key, at most one has a given key.
pub proof fn lemma_one_with_key<K: Keyed>(s: Seq<K>, by_path: bool, k: Seq<u8>)
    requires
        forall|i: int, j: int|
            0 <= i < j < s.len() ==> (#[trigger] s[i]).key(by_path) != (#[trigger] s[j]).key(
                by_path,
            ),
    ensures
        with_key(s, by_path, k).len() <= 1,
    decreases s.len(),
{
    if s.len() > 0 {
        let less = s.drop_last();
        lemma_with_key_last(s, by_path, k);
        lemma_with_key_one(s.last(), by_path, k);
        assert forall|i: int, j: int| 0 <= i < j < less.len() implies (#[trigger] less[i]).key(
            by_path,
        ) != (#[trigger] less[j]).key(by_path) by {
            assert(less[i] == s[i] && less[j] == s[j]);
        }
        lemma_one_with_key(less, by_path, k);
        if s.last().key(by_path) == k {
            assert forall|i: int| 0 <= i < less.len() implies (#[trigger] less[i]).key(by_path)
                != k by {
                assert(less[i] == s[i]);
                assert(s[i].key(by_path) != s[s.len() - 1].key(by_path));
            }
            lemma_with_key_none(less, by_path, k);
        }
    } else {
        lemma_with_key_none(s, by_path, k);
    }
}

/// An element is among those with its key.
pub proof fn lemma_among_its_key<K: Keyed>(s: Seq<K>, by_path: bool, e: K)
    ensures
        s.contains(e) == with_key(s, by_path, e.key(by_path)).contains(e),
    decreases s.len(),
{
    let k = e.key(by_path);
    if s.len() > 0 {
        let less = s.drop_last();
        let (w, one) = (with_key(less, by_path, k), with_key(seq![s.last()], by_path, k));
        lemma_with_key_last(s, by_path, k);
        lemma_with_key_one(s.last(), by_path, k);
        lemma_among_its_key(less, by_path, e);
        if s.contains(e) {
            let i = choose|i: int| 0 <= i < s.len() && s[i] == e;
            if i < less.len() {
                assert(less[i] == e);
                let j = choose|j: int| 0 <= j < w.len() && w[j] == e;
                assert((w + one)[j] == e);
            } else {
                assert((w + one)[w.len() as int] == e);
            }
        }
        if (w + one).contains(e) {
            let j = choose|j: int| 0 <= j < (w + one).len() && (w + one)[j] == e;
            if j < w.len() {
                assert(w[j] == e);
                let i = choose|i: int| 0 <= i < less.len() && less[i] == e;
                assert(s[i] == e);
            } else {
                assert(s[s.len() - 1] == e);
            }
        }
    } else {
        lemma_with_key_none(s, by_path, k);
    }
}

/// Moving the last of `a` to the front of `tail`, past a `b` whose keys all
/// differ from it, leaves every key's elements in order.
proof fn lemma_move_last<K: Keyed>(
    a: Seq<K>,
    b: Seq<K>,
    tail: Seq<K>,
    by_path: bool,
    k: Seq<u8>,
)
    requires
        a.len() > 0,
        forall|i: int| 0 <= i < b.len() ==> (#[trigger] b[i]).key(by_path) != a.last().key(by_path),
    ensures
        with_key(a.drop_last(), by_path, k) + with_key(b, by_path, k) + with_key(
            seq![a.last()] + tail,
            by_path,
            k,
        ) == with_key(a, by_path, k) + with_key(b, by_path, k) + with_key(tail, by_path, k),
{
    let x = a.last();
    lemma_with_key_last(a, by_path, k);
    lemma_with_key_add(seq![x], tail, by_path, k);
    lemma_with_key_one(x, by_path, k);
    let (wa, wb, wt) = (
        with_key(a.drop_last(), by_path, k),
        with_key(b, by_path, k),
        with_key(tail, by_path, k),
    );
    if x.key(by_path) == k {
        lemma_with_key_none(b, by_path, k);
        assert(wa + wb + (seq![x] + wt) =~= wa + seq![x] + wb + wt);
    } else {
        assert(wa + wb + (Seq::<K>::empty() + wt) =~= wa + Seq::<K>::empty() + wb + wt);
    }
}

/// Merge two sorted lists; of elements with the same key, those of `a` come
/// first.
fn merge<K: Keyed>(a: Vec<K>, b: Vec<K>, by_path: bool) -> (r: Vec<K>)
    requires
        sorted(a@, by_path),
        sorted(b@, by_path),
    ensures
        sorted(r@, by_path),
        rearranges(r@, a@ + b@, by_path),
{
    let mut x = a;
    let mut y = b;
    let mut rev: Vec<K> = Vec::new();
    let ghost mut tail: Seq<K> = Seq::empty();
    assert forall|k: Seq<u8>|
        with_key(x@, by_path, k) + with_key(y@, by_path, k) + (#[trigger] with_key(
            tail,
            by_path,
            k,
        )) == with_key(a@ + b@, by_path, k) by {
        lemma_with_key_add(a@, b@, by_path, k);
        lemma_with_key_none(tail, by_path, k);
        assert(with_key(a@, by_path, k) + with_key(b@, by_path, k) + Seq::<K>::empty() =~= with_key(
            a@,
            by_path,
            k,
        ) + with_key(b@, by_path, k));
    }
    while x.len() > 0 || y.len() > 0
        invariant
            sorted(x@, by_path),
            sorted(y@, by_path),
            sorted(tail, by_path),
            rev@.len() == tail.len(),
            forall|i: int| 0 <= i < tail.len() ==> rev@[tail.len() - 1 - i] == #[trigger] tail[i],
            forall|i: int, j: int|
                0 <= i < x@.len() && 0 <= j < tail.len() ==> order::rank(
                    (#[trigger] x@[i]).key(by_path),
                    (#[trigger] tail[j]).key(by_path),
                ) != Rank::After,
            forall|i: int, j: int|
                0 <= i < y@.len() && 0 <= j < tail.len() ==> order::rank(
                    (#[trigger] y@[i]).key(by_path),
                    (#[trigger] tail[j]).key(by_path),
                ) != Rank::After,
            forall|k: Seq<u8>|
                with_key(x@, by_path, k) + with_key(y@, by_path, k) + (#[trigger] with_key(
                    tail,
                    by_path,
                    k,
                )) == with_key(a@ + b@, by_path, k),
        decreases x@.len() + y@.len(),
    {
        let from_x = if y.len() == 0 {
            true
        } else if x.len() == 0 {
            false
        } else {
            let xl = &x[x.len() - 1];
            let yl = &y[y.len() - 1];
            match xl.rank_with(yl, by_path) {
                Rank::After => true,
                _ => false,
            }
        };
        let ghost x0 = x@;
        let ghost y0 = y@;
        let ghost t0 = tail;
        if from_x {
            let e = x.pop().unwrap();
            proof {
                tail = seq![e] + tail;
                assert forall|i: int| 0 <= i < y0.len() implies order::rank(
                    (#[trigger] y0[i]).key(by_path),
                    e.key(by_path),
                ) == Rank::Before by {
                    let yl = y0[y0.len() - 1];
                    order::lemma_rank_flips(e.key(by_path), yl.key(by_path));
                    order::lemma_rank_flips(yl.key(by_path), e.key(by_path));
                    if i < y0.len() - 1 {
                        order::lemma_rank_transitive(
                            y0[i].key(by_path),
                            yl.key(by_path),
                            e.key(by_path),
                        );
                    }
                }
                assert forall|i: int| 0 <= i < y0.len() implies (#[trigger] y0[i]).key(by_path)
                    != x0.last().key(by_path) by {
                    order::lemma_rank_same(y0[i].key(by_path), e.key(by_path));
                }
                assert forall|i: int, j: int|
                    0 <= i < x@.len() && 0 <= j < tail.len() implies order::rank(
                    (#[trigger] x@[i]).key(by_path),
                    (#[trigger] tail[j]).key(by_path),
                ) != Rank::After by {
                    assert(x@[i] == x0[i]);
                    if j > 0 {
                        assert(tail[j] == t0[j - 1]);
                    } else {
                        assert(x0[x0.len() - 1] == e);
                    }
                }
                assert forall|i: int, j: int|
                    0 <= i < y@.len() && 0 <= j < tail.len() implies order::rank(
                    (#[trigger] y@[i]).key(by_path),
                    (#[trigger] tail[j]).key(by_path),
                ) != Rank::After by {
                    if j > 0 {
                        assert(tail[j] == t0[j - 1]);
                    }
                }
                assert(sorted(tail, by_path)) by {
                    assert forall|i: int, j: int| 0 <= i < j < tail.len() implies order::rank(
                        (#[trigger] tail[i]).key(by_path),
                        (#[trigger] tail[j]).key(by_path),
                    ) != Rank::After by {
                        assert(tail[j] == t0[j - 1]);
                        if i > 0 {
                            assert(tail[i] == t0[i - 1]);
                        } else {
                            assert(x0[x0.len() - 1] == e);
                        }
                    }
                }
                assert(x@ =~= x0.drop_last());
                assert forall|k: Seq<u8>|
                    with_key(x@, by_path, k) + with_key(y@, by_path, k) + (#[trigger] with_key(
                        tail,
                        by_path,
                        k,
                    )) == with_key(a@ + b@, by_path, k) by {
                    lemma_move_last(x0, y0, t0, by_path, k);
                    assert(with_key(t0, by_path, k) == with_key(t0, by_path, k));
                }
            }
            rev.push(e);
        } else {
            let e = y.pop().unwrap();
            proof {
                tail = seq![e] + tail;
                assert forall|i: int| 0 <= i < x0.len() implies order::rank(
                    (#[trigger] x0[i]).key(by_path),
                    e.key(by_path),
                ) != Rank::After by {
                    let xl = x0[x0.len() - 1];
                    if i < x0.len() - 1 {
                        order::lemma_rank_transitive(
                            x0[i].key(by_path),
                            xl.key(by_path),
                            e.key(by_path),
                        );
                    }
                }
                assert forall|i: int, j: int|
                    0 <= i < y@.len() && 0 <= j < tail.len() implies order::rank(
                    (#[trigger] y@[i]).key(by_path),
                    (#[trigger] tail[j]).key(by_path),
                ) != Rank::After by {
                    assert(y@[i] == y0[i]);
                    if j > 0 {
                        assert(tail[j] == t0[j - 1]);
                    } else {
                        assert(y0[y0.len() - 1] == e);
                    }
                }
                assert forall|i: int, j: int|
                    0 <= i < x@.len() && 0 <= j < tail.len() implies order::rank(
                    (#[trigger] x@[i]).key(by_path),
                    (#[trigger] tail[j]).key(by_path),
                ) != Rank::After by {
                    if j > 0 {
                        assert(tail[j] == t0[j - 1]);
                    }
                }
                assert(sorted(tail, by_path)) by {
                    assert forall|i: int, j: int| 0 <= i < j < tail.len() implies order::rank(
                        (#[trigger] tail[i]).key(by_path),
                        (#[trigger] tail[j]).key(by_path),
                    ) != Rank::After by {
                        assert(tail[j] == t0[j - 1]);
                        if i > 0 {
                            assert(tail[i] == t0[i - 1]);
                        } else {
                            assert(y0[y0.len() - 1] == e);
                        }
                    }
                }
                assert(y@ =~= y0.drop_last());
                assert forall|k: Seq<u8>|
                    with_key(x@, by_path, k) + with_key(y@, by_path, k) + (#[trigger] with_key(
                        tail,
                        by_path,
                        k,
                    )) == with_key(a@ + b@, by_path, k) by {
                    lemma_with_key_last(y0, by_path, k);
                    lemma_with_key_add(seq![e], t0, by_path, k);
                    let (wx, wy, we, wt) = (
                        with_key(x0, by_path, k),
                        with_key(y0.drop_last(), by_path, k),
                        with_key(seq![e], by_path, k),
                        with_key(t0, by_path, k),
                    );
                    assert(wx + wy + (we + wt) =~= wx + (wy + we) + wt);
                }
            }
            rev.push(e);
        }
    }
    let ghost all = tail;
    assert forall|k: Seq<u8>| #[trigger]
        with_key(all, by_path, k) == with_key(a@ + b@, by_path, k) by {
        lemma_with_key_none(x@, by_path, k);
        lemma_with_key_none(y@, by_path, k);
        assert(Seq::<K>::empty() + Seq::<K>::empty() + with_key(all, by_path, k) =~= with_key(
            all,
            by_path,
            k,
        ));
    }
    let mut out: Vec<K> = Vec::new();
    while rev.len() > 0
        invariant
            out@.len() + rev@.len() == all.len(),
            forall|i: int| 0 <= i < out@.len() ==> out@[i] == #[trigger] all[i],
            forall|i: int|
                out@.len() <= i < all.len() ==> rev@[all.len() - 1 - i] == #[trigger] all[i],
        decreases rev@.len(),
    {
        let ghost n = out@.len() as int;
        let ghost r0 = rev@;
        let e = rev.pop().unwrap();
        assert(r0[all.len() - 1 - n] == all[n]);
        out.push(e);
    }
    assert(out@ =~= all);
    out
}

/// Sort by key, keeping elements of the same key in their order.
pub fn sort_by_key<K: Keyed>(v: Vec<K>, by_path: bool) -> (r: Vec<K>)
    ensures
        sorted(r@, by_path),
        rearranges(r@, v@, by_path),
    decreases v@.len(),
{
    if v.len() <= 1 {
        return v;
    }
    let mid: usize = v.len() / 2;
    let ghost all = v@;
    let mut left = v;
    let right = left.split_off(mid);
    let ghost (l, m) = (left@, right@);
    assert(all =~= l + m);
    let left = sort_by_key(left, by_path);
    let right = sort_by_key(right, by_path);
    let ghost (sl, sm) = (left@, right@);
    let r = merge(left, right, by_path);
    assert forall|k: Seq<u8>| #[trigger] with_key(r@, by_path, k) == with_key(all, by_path, k) by {
        lemma_with_key_add(sl, sm, by_path, k);
        lemma_with_key_add(l, m, by_path, k);
        assert(with_key(sl + sm, by_path, k) == with_key(r@, by_path, k));
    }
    r
}

/// How many leading elements of a sorted list are not after `key`.
pub fn cut_point<K: Keyed>(v: &Vec<K>, key: &[u8], by_path: bool) -> (cut: usize)
    requires
        sorted(v@, by_path),
    ensures
        cut <= v@.len(),
        forall|i: int|
            0 <= i < cut ==> order::rank((#[trigger] v@[i]).key(by_path), key@) != Rank::After,
        forall|i: int|
            cut <= i < v@.len() ==> order::rank((#[trigger] v@[i]).key(by_path), key@)
                == Rank::After,
{
    let mut lo: usize = 0;
    let mut hi: usize = v.len();
    while lo < hi
        invariant
            0 <= lo <= hi <= v@.len(),
            sorted(v@, by_path),
            forall|i: int|
                0 <= i < lo ==> order::rank((#[trigger] v@[i]).key(by_path), key@) != Rank::After,
            forall|i: int|
                hi <= i < v@.len() ==> order::rank((#[trigger] v@[i]).key(by_path), key@)
                    == Rank::After,
        decreases hi - lo,
    {
        let mid: usize = lo + (hi - lo) / 2;
        match v[mid].rank_against(key, by_path) {
            Rank::After => {
                proof {
                    assert forall|i: int| mid <= i < v@.len() implies order::rank(
                        (#[trigger] v@[i]).key(by_path),
                        key@,
                    ) == Rank::After by {
                        if mid < i {
                            let (m, x) = (v@[mid as int].key(by_path), v@[i].key(by_path));
                            if order::rank(x, key@) != Rank::After {
                                order::lemma_rank_transitive(m, x, key@);
                            }
                        }
                    }
                }
                hi = mid;
            },
            _ => {
                proof {
                    assert forall|i: int| 0 <= i < mid + 1 implies order::rank(
                        (#[trigger] v@[i]).key(by_path),
                        key@,
                    ) != Rank::After by {
                        if i < mid {
                            let (m, x) = (v@[mid as int].key(by_path), v@[i].key(by_path));
                            order::lemma_rank_transitive(x, m, key@);
                        }
                    }
                }
                lo = mid + 1;
            },
        }
    }
    lo
}

/// Resuming a sorted listing past one of its own entries gives exactly the
/// entries after it: nothing is repeated and nothing skipped.
pub proof fn law_resume_repeats_and_skips_nothing<K: Keyed>(
    s: Seq<K>,
    by_path: bool,
    at: int,
    cut: int,
)
    requires
        sorted(s, by_path),
        0 <= at < s.len(),
        forall|i: int, j: int|
            0 <= i < j < s.len() ==> (#[trigger] s[i]).key(by_path) != (#[trigger] s[j]).key(
                by_path,
            ),
        0 <= cut <= s.len(),
        forall|i: int|
            0 <= i < cut ==> order::rank((#[trigger] s[i]).key(by_path), s[at].key(by_path))
                != Rank::After,
        forall|i: int|
            cut <= i < s.len() ==> order::rank((#[trigger] s[i]).key(by_path), s[at].key(by_path))
                == Rank::After,
    ensures
        cut == at + 1,
{
    let k = s[at].key(by_path);
    order::lemma_rank_same(k, k);
    if cut <= at {
        assert(order::rank(s[at].key(by_path), k) == Rank::After);
    }
    if at + 1 < cut {
        let x = s[at + 1].key(by_path);
        assert(order::rank(x, k) != Rank::After);
        assert(order::rank(k, x) != Rank::After);
        order::lemma_rank_flips(k, x);
        order::lemma_rank_flips(x, k);
        order::lemma_rank_same(k, x);
        assert(s[at].key(by_path) != s[at + 1].key(by_path));
    }
}

/// Sorting loses nothing and adds nothing, and leaves elements of one key in
/// the order they had.
pub proof fn law_sorting_loses_nothing<K: Keyed>(r: Seq<K>, s: Seq<K>, by_path: bool, e: K)
    requires
        rearranges(r, s, by_path),
    ensures
        r.contains(e) <==> s.contains(e),
        with_key(r, by_path, e.key(by_path)) == with_key(s, by_path, e.key(by_path)),
{
    let k = e.key(by_path);
    assert(with_key(r, by_path, k) == with_key(s, by_path, k));
    lemma_among_its_key(r, by_path, e);
    lemma_among_its_key(s, by_path, e);
}

} // verus!
