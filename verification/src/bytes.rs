//! Byte strings: comparison, prefixes, and the components of a path.
use vstd::prelude::*;
use vstd::slice::{slice_subrange, slice_to_vec};

verus! {

/// Whether two byte strings are equal.
pub fn bytes_eq(a: &[u8], b: &[u8]) -> (r: bool)
    ensures
        r == (a@ == b@),
{
    if a.len() != b.len() {
        return false;
    }
    let mut i: usize = 0;
    while i < a.len()
        invariant
            a@.len() == b@.len(),
            0 <= i <= a@.len(),
            forall|j: int| 0 <= j < i ==> a@[j] == b@[j],
        decreases a@.len() - i,
    {
        if a[i] != b[i] {
            return false;
        }
        i = i + 1;
    }
    assert(a@ =~= b@);
    true
}

/// Whether `a` begins with `p`.
pub fn starts_with(a: &[u8], p: &[u8]) -> (r: bool)
    ensures
        r == p@.is_prefix_of(a@),
{
    if a.len() < p.len() {
        return false;
    }
    let r = bytes_eq(slice_subrange(a, 0, p.len()), p);
    assert(r == (a@.subrange(0, p@.len() as int) == p@));
    r
}

/// Whether `a` holds the byte `c`.
pub fn contains_byte(a: &[u8], c: u8) -> (r: bool)
    ensures
        r == a@.contains(c),
{
    let mut i: usize = 0;
    while i < a.len()
        invariant
            0 <= i <= a@.len(),
            forall|j: int| 0 <= j < i ==> a@[j] != c,
        decreases a@.len() - i,
    {
        if a[i] == c {
            assert(a@[i as int] == c);
            return true;
        }
        i = i + 1;
    }
    false
}

/// A copy of `a`.
pub fn copied(a: &[u8]) -> (r: Vec<u8>)
    ensures
        r@ == a@,
{
    slice_to_vec(a)
}

/// The pieces of `s` between separators: always one more than `s` holds
/// separators, so an empty piece stands for a leading, trailing or doubled
/// one.
pub open spec fn split_on(s: Seq<u8>, sep: u8) -> Seq<Seq<u8>>
    decreases s.len(),
{
    if s.len() == 0 {
        seq![Seq::<u8>::empty()]
    } else {
        let rest = split_on(s.drop_last(), sep);
        if s.last() == sep {
            rest.push(Seq::<u8>::empty())
        } else {
            rest.drop_last().push(rest.last().push(s.last()))
        }
    }
}

/// A list of byte strings, as a sequence of sequences.
pub open spec fn views(v: Seq<Vec<u8>>) -> Seq<Seq<u8>> {
    v.map_values(|x: Vec<u8>| x@)
}

/// Splitting always gives at least one piece.
pub proof fn lemma_split_nonempty(s: Seq<u8>, sep: u8)
    ensures
        split_on(s, sep).len() >= 1,
    decreases s.len(),
{
    if s.len() > 0 {
        lemma_split_nonempty(s.drop_last(), sep);
    }
}

/// No piece holds the separator.
pub proof fn lemma_split_pieces(s: Seq<u8>, sep: u8)
    ensures
        forall|i: int| 0 <= i < split_on(s, sep).len() ==> !(#[trigger] split_on(s, sep)[i]).contains(sep),
    decreases s.len(),
{
    if s.len() > 0 {
        let t = s.drop_last();
        lemma_split_pieces(t, sep);
        lemma_split_nonempty(t, sep);
        let rest = split_on(t, sep);
        if s.last() != sep {
            let x = rest.last().push(s.last());
            assert(!x.contains(sep)) by {
                if x.contains(sep) {
                    let k = choose|k: int| 0 <= k < x.len() && x[k] == sep;
                    assert(k < rest.last().len());
                    assert(rest.last()[k] == sep);
                    assert(rest.last().contains(sep));
                    assert(!rest[rest.len() - 1].contains(sep));
                }
            }
        }
    }
}

/// A separator between two strings splits them apart.
pub proof fn lemma_split_at(a: Seq<u8>, b: Seq<u8>, sep: u8)
    ensures
        split_on(a.push(sep) + b, sep) == split_on(a, sep) + split_on(
            b,
            sep,
        ),
    decreases b.len(),
{
    let s = a.push(sep) + b;
    let pa = split_on(a, sep);
    if b.len() == 0 {
        assert(s =~= a.push(sep));
        assert(s.drop_last() =~= a);
        assert(split_on(s, sep) =~= pa + split_on(b, sep));
    } else {
        let b1 = b.drop_last();
        assert(s.drop_last() =~= a.push(sep) + b1);
        assert(s.last() == b.last());
        lemma_split_at(a, b1, sep);
        lemma_split_nonempty(b1, sep);
        let r = split_on(b1, sep);
        if b.last() == sep {
            assert((pa + r).push(Seq::<u8>::empty()) =~= pa + r.push(Seq::<u8>::empty()));
        } else {
            assert((pa + r).drop_last() =~= pa + r.drop_last());
            assert((pa + r).last() == r.last());
            assert(split_on(s, sep) =~= pa + split_on(b, sep));
        }
    }
}

/// A string with no separator is one piece.
pub proof fn lemma_split_one(c: Seq<u8>, sep: u8)
    requires
        !c.contains(sep),
    ensures
        split_on(c, sep) == seq![c],
    decreases c.len(),
{
    if c.len() == 0 {
        assert(c =~= Seq::<u8>::empty());
    } else {
        let d = c.drop_last();
        assert(!d.contains(sep)) by {
            if d.contains(sep) {
                let i = choose|i: int| 0 <= i < d.len() && d[i] == sep;
                assert(c[i] == sep);
            }
        }
        lemma_split_one(d, sep);
        assert(c.last() != sep) by {
            assert(c[c.len() - 1] == c.last());
        }
        assert(seq![d].drop_last() =~= Seq::<Seq<u8>>::empty());
        assert(d.push(c.last()) =~= c);
        assert(split_on(c, sep) =~= seq![c]);
    }
}

/// The pieces of `s` between separators.
pub fn split(s: &[u8], sep: u8) -> (r: Vec<Vec<u8>>)
    ensures
        views(r@) == split_on(s@, sep),
        r@.len() >= 1,
{
    let mut done: Vec<Vec<u8>> = Vec::new();
    let mut cur: Vec<u8> = Vec::new();
    let mut i: usize = 0;
    assert(views(done@).push(cur@) =~= split_on(s@.subrange(0, 0), sep));
    while i < s.len()
        invariant
            0 <= i <= s@.len(),
            views(done@).push(cur@) == split_on(s@.subrange(0, i as int), sep),
        decreases s@.len() - i,
    {
        let ghost before = views(done@).push(cur@);
        let c = s[i];
        proof {
            let next = s@.subrange(0, i + 1);
            assert(next.drop_last() =~= s@.subrange(0, i as int));
            assert(next.last() == c);
            assert(before.drop_last() =~= views(done@));
            assert(before.last() == cur@);
        }
        if c == sep {
            done.push(cur);
            cur = Vec::new();
            proof {
                assert(views(done@) =~= before);
            }
        } else {
            cur.push(c);
        }
        i = i + 1;
    }
    assert(s@.subrange(0, s@.len() as int) =~= s@);
    let ghost all = views(done@).push(cur@);
    done.push(cur);
    assert(views(done@) =~= all);
    done
}

/// Pieces with the separator between each two.
pub open spec fn with_between(pieces: Seq<Seq<u8>>, sep: u8) -> Seq<u8>
    decreases pieces.len(),
{
    if pieces.len() == 0 {
        Seq::empty()
    } else if pieces.len() == 1 {
        pieces[0]
    } else {
        with_between(pieces.drop_last(), sep) + seq![sep] + pieces.last()
    }
}

/// Splitting loses nothing: the pieces, none of which holds the separator, give
/// the whole back with the separator put between each two of them.
pub proof fn law_split_pieces_join_back(s: Seq<u8>, sep: u8)
    ensures
        split_on(s, sep).len() >= 1,
        forall|i: int|
            0 <= i < split_on(s, sep).len() ==> !(#[trigger] split_on(s, sep)[i]).contains(sep),
        with_between(split_on(s, sep), sep) == s,
    decreases s.len(),
{
    lemma_split_nonempty(s, sep);
    lemma_split_pieces(s, sep);
    let p = split_on(s, sep);
    if s.len() > 0 {
        let t = s.drop_last();
        let rest = split_on(t, sep);
        law_split_pieces_join_back(t, sep);
        assert(s =~= t.push(s.last()));
        if s.last() == sep {
            assert(p.drop_last() =~= rest);
            assert(with_between(p, sep) =~= s);
        } else {
            let grown = rest.last().push(s.last());
            assert(p.drop_last() =~= rest.drop_last());
            assert(p.last() == grown);
            if rest.len() == 1 {
                assert(p[0] == grown && rest[0] == rest.last());
                assert(with_between(p, sep) =~= s);
            } else {
                assert(with_between(p, sep) =~= with_between(rest, sep).push(s.last()));
            }
        }
    } else {
        assert(with_between(p, sep) =~= s);
    }
}

} // verus!
