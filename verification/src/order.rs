//! Byte order of names and of paths, and the sort and cut that listings make
//! by it.
use std::cmp::Ordering;
use vstd::prelude::*;

verus! {

/// The byte between path components.
pub const SEPARATOR: u8 = 47;

/// How one key stands to another.
#[derive(Clone, Copy, Debug, PartialEq, Eq, Structural)]
pub enum Rank {
    Before,
    Same,
    After,
}

/// Lexicographic byte order.
pub open spec fn rank(a: Seq<u8>, b: Seq<u8>) -> Rank
    decreases a.len(),
{
    if a.len() == 0 {
        if b.len() == 0 {
            Rank::Same
        } else {
            Rank::Before
        }
    } else if b.len() == 0 {
        Rank::After
    } else if a[0] < b[0] {
        Rank::Before
    } else if a[0] > b[0] {
        Rank::After
    } else {
        rank(a.drop_first(), b.drop_first())
    }
}

/// Where an entry's name stands among full paths: a directory's carries the
/// separator that will follow it.
pub open spec fn path_key(name: Seq<u8>, dir: bool) -> Seq<u8> {
    if dir {
        name.push(SEPARATOR)
    } else {
        name
    }
}

/// Keys of the same rank are the same.
pub proof fn lemma_rank_same(a: Seq<u8>, b: Seq<u8>)
    ensures
        (rank(a, b) == Rank::Same) == (a == b),
    decreases a.len(),
{
    if a.len() > 0 && b.len() > 0 {
        lemma_rank_same(a.drop_first(), b.drop_first());
        if a[0] == b[0] && a.drop_first() == b.drop_first() {
            assert(a =~= seq![a[0]] + a.drop_first());
            assert(b =~= seq![b[0]] + b.drop_first());
        }
    } else if a.len() == 0 && b.len() == 0 {
        assert(a =~= b);
    }
}

/// Turning a comparison round turns its answer round.
pub proof fn lemma_rank_flips(a: Seq<u8>, b: Seq<u8>)
    ensures
        (rank(a, b) == Rank::Before) == (rank(b, a) == Rank::After),
        (rank(a, b) == Rank::Same) == (rank(b, a) == Rank::Same),
    decreases a.len(),
{
    if a.len() > 0 && b.len() > 0 {
        lemma_rank_flips(a.drop_first(), b.drop_first());
    }
}

/// The order is transitive.
pub proof fn lemma_rank_transitive(a: Seq<u8>, b: Seq<u8>, c: Seq<u8>)
    requires
        rank(a, b) != Rank::After,
        rank(b, c) != Rank::After,
    ensures
        rank(a, c) != Rank::After,
        rank(a, b) == Rank::Before || rank(b, c) == Rank::Before ==> rank(a, c) == Rank::Before,
    decreases a.len(),
{
    if a.len() > 0 && b.len() > 0 && c.len() > 0 {
        if a[0] == b[0] && b[0] == c[0] {
            lemma_rank_transitive(a.drop_first(), b.drop_first(), c.drop_first());
        }
    }
}

/// The order of entries is total: an entry ranks the same as itself and only
/// as one with the same key, exactly one of two different ones is before the
/// other, and being before carries over.
pub proof fn law_path_order_is_total(
    a: (Seq<u8>, bool),
    b: (Seq<u8>, bool),
    c: (Seq<u8>, bool),
)
    ensures
        rank(path_key(a.0, a.1), path_key(a.0, a.1)) == Rank::Same,
        (rank(path_key(a.0, a.1), path_key(b.0, b.1)) == Rank::Same) == (path_key(a.0, a.1)
            == path_key(b.0, b.1)),
        (rank(path_key(a.0, a.1), path_key(b.0, b.1)) == Rank::Before) == (rank(
            path_key(b.0, b.1),
            path_key(a.0, a.1),
        ) == Rank::After),
        rank(path_key(a.0, a.1), path_key(b.0, b.1)) != Rank::After && rank(
            path_key(b.0, b.1),
            path_key(c.0, c.1),
        ) != Rank::After ==> rank(path_key(a.0, a.1), path_key(c.0, c.1)) != Rank::After,
{
    let (ka, kb, kc) = (path_key(a.0, a.1), path_key(b.0, b.1), path_key(c.0, c.1));
    lemma_rank_same(ka, ka);
    lemma_rank_same(ka, kb);
    lemma_rank_flips(ka, kb);
    if rank(ka, kb) != Rank::After && rank(kb, kc) != Rank::After {
        lemma_rank_transitive(ka, kb, kc);
    }
}

/// A file comes right before a directory of the same name.
pub proof fn law_file_precedes_its_directory(name: Seq<u8>)
    ensures
        rank(path_key(name, false), path_key(name, true)) == Rank::Before,
{
    lemma_prefix_is_before(name, seq![SEPARATOR]);
    assert(name + seq![SEPARATOR] =~= name.push(SEPARATOR));
}

/// A key is before every longer one it begins.
pub proof fn lemma_prefix_is_before(a: Seq<u8>, s: Seq<u8>)
    requires
        s.len() > 0,
    ensures
        rank(a, a + s) == Rank::Before,
    decreases a.len(),
{
    if a.len() > 0 {
        assert((a + s).drop_first() =~= a.drop_first() + s);
        lemma_prefix_is_before(a.drop_first(), s);
    }
}

/// Where neither key begins the other, what follows them does not change how
/// they rank.
pub proof fn lemma_rank_ignores_suffixes(a: Seq<u8>, b: Seq<u8>, s: Seq<u8>, t: Seq<u8>)
    requires
        rank(a, b) == Rank::Before,
        !a.is_prefix_of(b),
    ensures
        rank(a + s, b + t) == Rank::Before,
    decreases a.len(),
{
    if a.len() == 0 {
        assert(a =~= b.subrange(0, 0));
    } else {
        let (x, y) = (a + s, b + t);
        assert(x[0] == a[0]);
        assert(y[0] == b[0]);
        if a[0] == b[0] {
            let (a1, b1) = (a.drop_first(), b.drop_first());
            assert(x.drop_first() =~= a1 + s);
            assert(y.drop_first() =~= b1 + t);
            if a1.is_prefix_of(b1) {
                assert(a =~= b.subrange(0, a.len() as int)) by {
                    assert forall|i: int| 0 <= i < a.len() implies a[i] == b[i] by {
                        if i > 0 {
                            assert(a1[i - 1] == b1.subrange(0, a1.len() as int)[i - 1]);
                        }
                    }
                }
            }
            lemma_rank_ignores_suffixes(a1, b1, s, t);
        }
    }
}

/// Sorting each directory by its entries' path keys and descending in that
/// order visits a whole subtree in path order: everything at or below an entry
/// comes before everything at or below a later one. `s` and `t` are what
/// follows the entries' own keys, and only a directory has anything below it.
pub proof fn law_directory_order_composes(
    a: (Seq<u8>, bool),
    b: (Seq<u8>, bool),
    s: Seq<u8>,
    t: Seq<u8>,
)
    requires
        !a.0.contains(SEPARATOR),
        !b.0.contains(SEPARATOR),
        rank(path_key(a.0, a.1), path_key(b.0, b.1)) == Rank::Before,
        a.1 || s.len() == 0,
        b.1 || t.len() == 0,
    ensures
        rank(path_key(a.0, a.1) + s, path_key(b.0, b.1) + t) == Rank::Before,
{
    let (ka, kb) = (path_key(a.0, a.1), path_key(b.0, b.1));
    if ka.is_prefix_of(kb) {
        if a.1 {
            // A directory's key ends in the separator, which no other entry's
            // key holds before its own end.
            let n = a.0.len() as int;
            assert(ka[n] == SEPARATOR);
            assert(kb.subrange(0, ka.len() as int)[n] == kb[n]);
            if n < b.0.len() {
                assert(b.0[n] == SEPARATOR);
                assert(b.0.contains(SEPARATOR));
            }
            assert(ka =~= kb);
            lemma_rank_same(ka, kb);
        }
        assert(ka + s =~= ka);
        let rest = kb.subrange(ka.len() as int, kb.len() as int) + t;
        assert(kb + t =~= ka + rest) by {
            assert(kb.subrange(0, ka.len() as int) =~= ka);
            assert(kb =~= kb.subrange(0, ka.len() as int) + kb.subrange(
                ka.len() as int,
                kb.len() as int,
            ));
        }
        lemma_rank_same(ka, kb);
        if rest.len() == 0 {
            assert(ka =~= kb);
        }
        lemma_prefix_is_before(ka, rest);
    } else {
        lemma_rank_ignores_suffixes(ka, kb, s, t);
    }
}

/// How a key that has run out of name bytes ranks against one that has not:
/// `dir` is whether it has its separator left, `rest` and `rest_dir` what the
/// other has left.
fn rank_tail(dir: bool, rest: &[u8], at: usize, rest_dir: bool) -> (r: Rank)
    requires
        at < rest@.len(),
    ensures
        r == rank(
            path_key(Seq::empty(), dir),
            path_key(rest@.subrange(at as int, rest@.len() as int), rest_dir),
        ),
{
    let ghost left = path_key(rest@.subrange(at as int, rest@.len() as int), rest_dir);
    let ghost own = path_key(Seq::<u8>::empty(), dir);
    assert(left.len() > 0 && left[0] == rest@[at as int]);
    assert(left.drop_first().len() == left.len() - 1);
    assert(own.len() > 0 ==> own[0] == SEPARATOR && own.drop_first() =~= Seq::<u8>::empty());
    proof {
        reveal_with_fuel(rank, 2);
    }
    if !dir {
        return Rank::Before;
    }
    let c = rest[at];
    if SEPARATOR < c {
        Rank::Before
    } else if SEPARATOR > c {
        Rank::After
    } else if rest_dir || at + 1 < rest.len() {
        Rank::Before
    } else {
        Rank::Same
    }
}

/// How two entries rank by their path keys. The separator is supplied as the
/// keys are compared, so nothing is built.
pub fn rank_entries(a: &[u8], a_dir: bool, b: &[u8], b_dir: bool) -> (r: Rank)
    ensures
        r == rank(path_key(a@, a_dir), path_key(b@, b_dir)),
{
    let ghost ka = path_key(a@, a_dir);
    let ghost kb = path_key(b@, b_dir);
    let n: usize = if a.len() < b.len() {
        a.len()
    } else {
        b.len()
    };
    let mut i: usize = 0;
    assert(ka.subrange(0, ka.len() as int) =~= ka);
    assert(kb.subrange(0, kb.len() as int) =~= kb);
    while i < n
        invariant
            0 <= i <= n,
            n <= a@.len(),
            n <= b@.len(),
            ka == path_key(a@, a_dir),
            kb == path_key(b@, b_dir),
            rank(ka, kb) == rank(
                ka.subrange(i as int, ka.len() as int),
                kb.subrange(i as int, kb.len() as int),
            ),
        decreases n - i,
    {
        let ghost ra = ka.subrange(i as int, ka.len() as int);
        let ghost rb = kb.subrange(i as int, kb.len() as int);
        let x = a[i];
        let y = b[i];
        assert(x == ra[0]);
        assert(y == rb[0]);
        if x < y {
            return Rank::Before;
        }
        if x > y {
            return Rank::After;
        }
        assert(ra.drop_first() =~= ka.subrange(i + 1, ka.len() as int));
        assert(rb.drop_first() =~= kb.subrange(i + 1, kb.len() as int));
        i = i + 1;
    }
    let ghost ra = ka.subrange(n as int, ka.len() as int);
    let ghost rb = kb.subrange(n as int, kb.len() as int);
    assert(ra =~= path_key(a@.subrange(n as int, a@.len() as int), a_dir));
    assert(rb =~= path_key(b@.subrange(n as int, b@.len() as int), b_dir));
    if n < b.len() {
        assert(a@.subrange(n as int, a@.len() as int) =~= Seq::<u8>::empty());
        return rank_tail(a_dir, b, n, b_dir);
    }
    assert(b@.subrange(n as int, b@.len() as int) =~= Seq::<u8>::empty());
    if n < a.len() {
        proof {
            lemma_rank_flips(ra, rb);
        }
        return match rank_tail(b_dir, a, n, a_dir) {
            Rank::Before => {
                proof {
                    lemma_rank_flips(rb, ra);
                }
                Rank::After
            },
            Rank::Same => Rank::Same,
            Rank::After => Rank::Before,
        };
    }
    assert(a@.subrange(n as int, a@.len() as int) =~= Seq::<u8>::empty());
    proof {
        reveal_with_fuel(rank, 2);
        assert(path_key(Seq::<u8>::empty(), true).drop_first() =~= Seq::<u8>::empty());
    }
    if a_dir == b_dir {
        Rank::Same
    } else if b_dir {
        Rank::Before
    } else {
        Rank::After
    }
}

/// The rank that a standard ordering stands for.
pub open spec fn rank_of(o: Ordering) -> Rank {
    match o {
        Ordering::Less => Rank::Before,
        Ordering::Equal => Rank::Same,
        Ordering::Greater => Rank::After,
    }
}

/// Compare two entries the way their full paths compare: a directory is
/// ordered as though its name already carried the separator that will follow
/// it.
pub fn cmp_path_bytes(a: &[u8], a_dir: bool, b: &[u8], b_dir: bool) -> (r: Ordering)
    ensures
        rank_of(r) == rank(path_key(a@, a_dir), path_key(b@, b_dir)),
{
    match rank_entries(a, a_dir, b, b_dir) {
        Rank::Before => Ordering::Less,
        Rank::Same => Ordering::Equal,
        Rank::After => Ordering::Greater,
    }
}

/// The first byte in which two keys differ decides between them, by its value;
/// where one ends before they differ, the shorter comes first.
pub proof fn law_first_difference_decides(a: Seq<u8>, b: Seq<u8>, k: int)
    requires
        0 <= k <= a.len(),
        k <= b.len(),
        forall|i: int| 0 <= i < k ==> a[i] == b[i],
    ensures
        k < a.len() && k < b.len() && a[k] < b[k] ==> rank(a, b) == Rank::Before && rank(b, a)
            == Rank::After,
        k == a.len() && k < b.len() ==> rank(a, b) == Rank::Before && rank(b, a) == Rank::After,
        k == a.len() && k == b.len() ==> rank(a, b) == Rank::Same,
    decreases k,
{
    if k > 0 {
        let (x, y) = (a.drop_first(), b.drop_first());
        assert(a[0] == b[0]);
        assert forall|i: int| 0 <= i < k - 1 implies x[i] == y[i] by {
            assert(a[i + 1] == b[i + 1]);
        }
        law_first_difference_decides(x, y, k - 1);
        if k < a.len() && k < b.len() {
            assert(x[k - 1] == a[k] && y[k - 1] == b[k]);
        }
    }
}

/// A directory stands among paths as its name with a slash behind it, a file
/// as its name.
pub proof fn law_key_is_the_name_as_in_a_path(name: Seq<u8>)
    ensures
        path_key(name, false) == name,
        path_key(name, true) == name + seq![0x2fu8],
{
    assert(path_key(name, true) =~= name + seq![0x2fu8]);
}

} // verus!
