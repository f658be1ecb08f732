//! Counting: how many elements of a sequence satisfy a predicate, and a
//! table of counters that holds no zero.
use std::collections::HashMap;
use vstd::prelude::*;

verus! {

broadcast use vstd::std_specs::hash::group_hash_axioms;

/// How many elements of `s` satisfy `p`.
pub open spec fn count_where<A>(s: Seq<A>, p: spec_fn(A) -> bool) -> nat
    decreases s.len(),
{
    if s.len() == 0 {
        0
    } else {
        count_where(s.drop_last(), p) + (if p(s.last()) { 1nat } else { 0nat })
    }
}

/// Replacing one element moves the count by what that element contributes.
pub proof fn lemma_count_update<A>(s: Seq<A>, i: int, x: A, p: spec_fn(A) -> bool)
    requires
        0 <= i < s.len(),
    ensures
        count_where(s.update(i, x), p) + (if p(s[i]) { 1nat } else { 0nat }) == count_where(s, p)
            + (if p(x) { 1nat } else { 0nat }),
    decreases s.len(),
{
    let t = s.update(i, x);
    if i == s.len() - 1 {
        assert(t.drop_last() =~= s.drop_last());
    } else {
        assert(t.drop_last() =~= s.drop_last().update(i, x));
        lemma_count_update(s.drop_last(), i, x, p);
    }
}

/// A count is at most the length, and below it where some element fails `p`.
pub proof fn lemma_count_bound<A>(s: Seq<A>, p: spec_fn(A) -> bool)
    ensures
        count_where(s, p) <= s.len(),
        (exists|i: int| 0 <= i < s.len() && !p(#[trigger] s[i])) ==> count_where(s, p) < s.len(),
    decreases s.len(),
{
    if s.len() > 0 {
        lemma_count_bound(s.drop_last(), p);
        if exists|i: int| 0 <= i < s.len() && !p(#[trigger] s[i]) {
            let i = choose|i: int| 0 <= i < s.len() && !p(#[trigger] s[i]);
            if i < s.len() - 1 {
                assert(s.drop_last()[i] == s[i]);
            }
        }
    }
}

/// Where no element satisfies `p`, the count is zero.
pub proof fn lemma_count_none<A>(s: Seq<A>, p: spec_fn(A) -> bool)
    requires
        forall|i: int| 0 <= i < s.len() ==> !p(#[trigger] s[i]),
    ensures
        count_where(s, p) == 0,
    decreases s.len(),
{
    if s.len() > 0 {
        assert forall|i: int| 0 <= i < s.drop_last().len() implies !p(
            #[trigger] s.drop_last()[i],
        ) by {
            assert(s.drop_last()[i] == s[i]);
        }
        lemma_count_none(s.drop_last(), p);
    }
}

/// Where some element satisfies `p`, the count is positive.
pub proof fn lemma_count_some<A>(s: Seq<A>, i: int, p: spec_fn(A) -> bool)
    requires
        0 <= i < s.len(),
        p(s[i]),
    ensures
        count_where(s, p) > 0,
    decreases s.len(),
{
    if i < s.len() - 1 {
        assert(s.drop_last()[i] == s[i]);
        lemma_count_some(s.drop_last(), i, p);
    }
}

/// Counters by key. A key that was never counted, or whose count returned to
/// zero, takes no room.
pub struct Tally {
    counts: HashMap<u128, u32>,
}

impl Tally {
    /// The count of `k`.
    pub closed spec fn of(&self, k: u128) -> nat {
        if self.counts@.contains_key(k) {
            self.counts@[k] as nat
        } else {
            0
        }
    }

    /// No counter is held at zero.
    pub closed spec fn wf(&self) -> bool {
        forall|k: u128| #[trigger] self.counts@.contains_key(k) ==> self.counts@[k] > 0
    }

    pub fn new() -> (r: Tally)
        ensures
            r.wf(),
            forall|k: u128| r.of(k) == 0,
    {
        Tally { counts: HashMap::new() }
    }

    /// The count of `k`.
    pub fn get(&self, k: u128) -> (r: u32)
        ensures
            r == self.of(k),
    {
        match self.counts.get(&k) {
            Some(n) => *n,
            None => 0,
        }
    }

    /// Count `k` once more.
    pub fn bump(&mut self, k: u128)
        requires
            old(self).wf(),
            old(self).of(k) < u32::MAX,
        ensures
            final(self).wf(),
            forall|j: u128|
                #[trigger] final(self).of(j) == old(self).of(j) + (if j == k {
                    1nat
                } else {
                    0nat
                }),
    {
        let n = self.get(k);
        self.counts.insert(k, n + 1);
    }

    /// Count `k` once less; returns what is left.
    pub fn release(&mut self, k: u128) -> (left: u32)
        requires
            old(self).wf(),
            old(self).of(k) > 0,
        ensures
            final(self).wf(),
            left == old(self).of(k) - 1,
            forall|j: u128|
                #[trigger] final(self).of(j) == old(self).of(j) - (if j == k {
                    1int
                } else {
                    0int
                }),
    {
        let n = self.get(k);
        if n == 1 {
            self.counts.remove(&k);
            0
        } else {
            self.counts.insert(k, n - 1);
            n - 1
        }
    }
}

} // verus!
