//! Extended attributes: which namespace a name is in, which names a listing
//! proposes to read, what a read came to, and the refetch of a value that
//! outgrew its buffer.
use crate::bytes::{bytes_eq, starts_with};
use crate::errno::{Errno, Error};
use crate::order;
use crate::order::Rank;
use crate::pending::FsPending;
use crate::policy;
use crate::sort;
use crate::sort::{sort_by_key, Keyed};
use vstd::prelude::*;

verus! {

/// Namespaces of extended attributes.
#[derive(Clone, Copy, Debug, PartialEq, Eq, Structural)]
pub struct XattrNamespaces {
    pub bits: u8,
}

pub const NS_USER: u8 = 1;
pub const NS_TRUSTED: u8 = 2;
pub const NS_SECURITY: u8 = 4;
pub const NS_SYSTEM: u8 = 8;

pub open spec fn user_ns() -> Seq<u8> {
    seq![117u8, 115, 101, 114, 46]
}

pub open spec fn security_ns() -> Seq<u8> {
    seq![115u8, 101, 99, 117, 114, 105, 116, 121, 46]
}

pub open spec fn system_ns() -> Seq<u8> {
    seq![115u8, 121, 115, 116, 101, 109, 46]
}

/// The namespace a name is in, by its prefix; 0 outside the four.
pub open spec fn namespace_bit(name: Seq<u8>) -> u8 {
    if user_ns().is_prefix_of(name) {
        NS_USER
    } else if policy::trusted_ns().is_prefix_of(name) {
        NS_TRUSTED
    } else if security_ns().is_prefix_of(name) {
        NS_SECURITY
    } else if system_ns().is_prefix_of(name) {
        NS_SYSTEM
    } else {
        0
    }
}

/// The namespace an attribute name belongs to, or `None` for a name outside
/// the four standard ones.
pub fn namespace_of(name: &[u8]) -> (r: Option<XattrNamespaces>)
    ensures
        match r {
            Some(ns) => ns.bits == namespace_bit(name@) && ns.bits != 0,
            None => namespace_bit(name@) == 0,
        },
{
    let user: [u8; 5] = [117, 115, 101, 114, 46];
    let trusted: [u8; 8] = [116, 114, 117, 115, 116, 101, 100, 46];
    let security: [u8; 9] = [115, 101, 99, 117, 114, 105, 116, 121, 46];
    let system: [u8; 7] = [115, 121, 115, 116, 101, 109, 46];
    assert(user@ =~= user_ns());
    assert(trusted@ =~= policy::trusted_ns());
    assert(security@ =~= security_ns());
    assert(system@ =~= system_ns());
    if starts_with(name, &user) {
        Some(XattrNamespaces { bits: NS_USER })
    } else if starts_with(name, &trusted) {
        Some(XattrNamespaces { bits: NS_TRUSTED })
    } else if starts_with(name, &security) {
        Some(XattrNamespaces { bits: NS_SECURITY })
    } else if starts_with(name, &system) {
        Some(XattrNamespaces { bits: NS_SYSTEM })
    } else {
        None
    }
}

/// `Vec::capacity`: at least the length. How much more there is depends on the
/// allocator, so nothing else is claimed.
#[verifier::external_body]
fn capacity_of(v: &Vec<u8>) -> (r: usize)
    ensures
        r >= v@.len(),
{
    v.capacity()
}

/// `Vec::shrink_to_fit`: gives surplus room back and leaves the elements as
/// they are.
#[verifier::external_body]
fn shrink(v: &mut Vec<u8>)
    ensures
        final(v)@ == old(v)@,
{
    v.shrink_to_fit()
}

/// Narrow a buffer to the `n` bytes the kernel filled, keeping its allocation.
/// For a buffer sized from the value's own size. `None` where the buffer does
/// not hold that many: such a count is no value.
pub fn narrow(buf: Vec<u8>, n: usize) -> (r: Option<Vec<u8>>)
    ensures
        match r {
            Some(v) => n <= buf@.len() && v@ == buf@.subrange(0, n as int),
            None => n > buf@.len(),
        },
{
    if n > buf.len() {
        return None;
    }
    let mut out = buf;
    out.truncate(n);
    Some(out)
}

/// Whether a value of `len` bytes in a buffer of `capacity` leaves room worth
/// giving back: at least as much again as the copy costs.
pub fn worth_shrinking(capacity: usize, len: usize) -> (r: bool)
    ensures
        r == (capacity / 2 >= len),
{
    capacity / 2 >= len
}

/// Narrow a fixed-size probe buffer to the `n` bytes the kernel filled, giving
/// surplus room back where that is [`worth_shrinking`]. How much room a buffer
/// has depends on the allocator, so that it is given back is no part of the
/// contract.
pub fn right_size(buf: Vec<u8>, n: usize) -> (r: Option<Vec<u8>>)
    ensures
        match r {
            Some(v) => n <= buf@.len() && v@ == buf@.subrange(0, n as int),
            None => n > buf@.len(),
        },
{
    if n > buf.len() {
        return None;
    }
    let mut out = buf;
    out.truncate(n);
    if worth_shrinking(capacity_of(&out), out.len()) {
        shrink(&mut out);
    }
    Some(out)
}

/// What reading an attribute into its initial buffer came to.
pub enum DiscRead {
    /// The value.
    Got(Vec<u8>),
    /// The value outgrew the buffer; refetch it at its true size.
    Grow,
    /// Absent, not readable under the identity it was read as, or the loop is
    /// gone.
    Drop,
}

/// The value an attribute read gave: the bytes filled of the buffer it was
/// read into.
pub open spec fn value_read<T>(p: FsPending<T>) -> Option<Seq<u8>> {
    match p.outcome {
        Some(out) => match out.res {
            Ok(n) => if n >= 0 && out.bufs@.len() > 0 && n <= out.bufs@[0]@.len() {
                Some(out.bufs@[0]@.subrange(0, n as int))
            } else {
                None
            },
            Err(_) => None,
        },
        None => None,
    }
}

fn first_buf(bufs: Vec<Vec<u8>>) -> (r: Option<Vec<u8>>)
    ensures
        match r {
            Some(b) => bufs@.len() > 0 && b == bufs@[0],
            None => bufs@.len() == 0,
        },
{
    if bufs.len() == 0 {
        return None;
    }
    let mut v = bufs;
    Some(v.swap_remove(0))
}

/// The value of an attribute read, or `None`: absent, an error, or a loop
/// that is gone.
pub fn pending_bytes<T>(p: FsPending<T>) -> (r: Option<Vec<u8>>)
    ensures
        match r {
            Some(v) => value_read(p) == Some(v@),
            None => value_read(p) is None,
        },
{
    match p.outcome {
        Some(out) => match out.res {
            Ok(n) => {
                if n < 0 {
                    return None;
                }
                match first_buf(out.bufs) {
                    Some(b) => right_size(b, n as usize),
                    None => None,
                }
            },
            Err(_) => None,
        },
        None => None,
    }
}

/// Whether an attribute read found its value too large for its buffer.
pub open spec fn outgrew<T>(p: FsPending<T>) -> bool {
    p.outcome is Some && p.outcome->Some_0.res == Err::<i32, Errno>(Errno::ERANGE)
}

/// Classify an attribute read.
pub fn pending_discovered<T>(p: FsPending<T>) -> (r: DiscRead)
    ensures
        match r {
            DiscRead::Got(v) => value_read(p) == Some(v@),
            DiscRead::Grow => outgrew(p),
            DiscRead::Drop => value_read(p) is None && !outgrew(p),
        },
{
    let grow = match &p.outcome {
        Some(out) => match out.res {
            Err(Errno::ERANGE) => true,
            _ => false,
        },
        None => false,
    };
    if grow {
        return DiscRead::Grow;
    }
    match pending_bytes(p) {
        Some(v) => DiscRead::Got(v),
        None => DiscRead::Drop,
    }
}

/// Strictly increasing byte strings.
pub open spec fn strictly_sorted(s: Seq<Vec<u8>>) -> bool {
    forall|i: int, j: int|
        0 <= i < j < s.len() ==> order::rank((#[trigger] s[i])@, (#[trigger] s[j])@)
            == Rank::Before
}

/// Whether `s` holds a byte string equal to `x`.
pub open spec fn holds(s: Seq<Vec<u8>>, x: Seq<u8>) -> bool {
    exists|i: int| 0 <= i < s.len() && (#[trigger] s[i])@ == x
}

/// Sort names and keep one of each.
pub fn sort_and_dedup(names: Vec<Vec<u8>>) -> (r: Vec<Vec<u8>>)
    ensures
        strictly_sorted(r@),
        forall|x: Seq<u8>| #[trigger] holds(r@, x) == holds(names@, x),
{
    let ghost all = names@;
    let mut rest = sort_by_key(names, false);
    let ghost s = rest@;
    proof {
        assert forall|x: Seq<u8>| #[trigger] holds(s, x) == holds(all, x) by {
            assert(sort::with_key(s, false, x) == sort::with_key(all, false, x));
            lemma_holds_iff_kept(s, x);
            lemma_holds_iff_kept(all, x);
        }
    }
    let mut rev: Vec<Vec<u8>> = Vec::new();
    // Taken from the back, so that what is kept of equal names is the first
    // of `rev` to come.
    while rest.len() > 0
        invariant
            sort::sorted(rest@, false),
            forall|i: int, j: int|
                0 <= i < j < rev@.len() ==> order::rank(
                    (#[trigger] rev@[j])@,
                    (#[trigger] rev@[i])@,
                ) == Rank::Before,
            forall|i: int, j: int|
                0 <= i < rest@.len() && 0 <= j < rev@.len() ==> order::rank(
                    (#[trigger] rest@[i])@,
                    (#[trigger] rev@[j])@,
                ) != Rank::After,
            forall|x: Seq<u8>|
                #[trigger] holds(s, x) == (holds(rest@, x) || holds(rev@, x)),
        decreases rest@.len(),
    {
        let ghost r0 = rest@;
        let ghost v0 = rev@;
        let e = rest.pop().unwrap();
        assert(r0[r0.len() - 1] == e);
        let dup = rev.len() > 0 && bytes_eq(e.as_slice(), rev[rev.len() - 1].as_slice());
        proof {
            assert forall|x: Seq<u8>| holds(r0, x) == (holds(rest@, x) || e@ == x) by {
                if holds(r0, x) {
                    let i = choose|i: int| 0 <= i < r0.len() && (#[trigger] r0[i])@ == x;
                    if i < rest@.len() {
                        assert(rest@[i] == r0[i]);
                    }
                }
                if holds(rest@, x) {
                    let i = choose|i: int| 0 <= i < rest@.len() && (#[trigger] rest@[i])@ == x;
                    assert(r0[i] == rest@[i]);
                }
            }
            assert forall|i: int, j: int|
                0 <= i < rest@.len() && 0 <= j < v0.len() implies order::rank(
                (#[trigger] rest@[i])@,
                (#[trigger] v0[j])@,
            ) != Rank::After by {
                assert(rest@[i] == r0[i]);
            }
        }
        if !dup {
            rev.push(e);
            proof {
                let m = v0.len() as int;
                assert forall|i: int, j: int| 0 <= i < j < rev@.len() implies order::rank(
                    (#[trigger] rev@[j])@,
                    (#[trigger] rev@[i])@,
                ) == Rank::Before by {
                    if j == m {
                        let l = v0[m - 1]@;
                        order::lemma_rank_same(e@, l);
                        assert(order::rank(r0[r0.len() - 1]@, l) != Rank::After);
                        assert(order::rank(e@, l) == Rank::Before);
                        if i < m - 1 {
                            order::lemma_rank_transitive(e@, l, v0[i]@);
                        }
                    }
                }
                assert forall|i: int, j: int|
                    0 <= i < rest@.len() && 0 <= j < rev@.len() implies order::rank(
                    (#[trigger] rest@[i])@,
                    (#[trigger] rev@[j])@,
                ) != Rank::After by {
                    if j == m {
                        assert(rest@[i] == r0[i]);
                        assert(order::rank(
                            r0[i].key(false),
                            r0[r0.len() - 1].key(false),
                        ) != Rank::After);
                    }
                }
                assert forall|x: Seq<u8>| holds(rev@, x) == (holds(v0, x) || e@ == x) by {
                    if holds(rev@, x) {
                        let i = choose|i: int| 0 <= i < rev@.len() && (#[trigger] rev@[i])@ == x;
                        if i < m {
                            assert(v0[i] == rev@[i]);
                        }
                    }
                    if holds(v0, x) {
                        let i = choose|i: int| 0 <= i < v0.len() && (#[trigger] v0[i])@ == x;
                        assert(rev@[i] == v0[i]);
                    }
                    if e@ == x {
                        assert(rev@[m]@ == x);
                    }
                }
                assert forall|x: Seq<u8>| #[trigger] holds(s, x) == (holds(rest@, x) || holds(
                    rev@,
                    x,
                )) by {
                    assert(holds(s, x) == (holds(r0, x) || holds(v0, x)));
                    assert(holds(r0, x) == (holds(rest@, x) || e@ == x));
                    assert(holds(rev@, x) == (holds(v0, x) || e@ == x));
                }
            }
        } else {
            proof {
                let l = v0.len() - 1;
                assert(v0[l]@ == e@);
                assert forall|x: Seq<u8>| #[trigger] holds(s, x) == (holds(rest@, x) || holds(
                    rev@,
                    x,
                )) by {
                    assert(holds(s, x) == (holds(r0, x) || holds(v0, x)));
                    assert(holds(r0, x) == (holds(rest@, x) || e@ == x));
                    if e@ == x {
                        assert(v0[l]@ == x);
                    }
                }
            }
        }
    }
    let ghost v = rev@;
    let mut out: Vec<Vec<u8>> = Vec::new();
    while rev.len() > 0
        invariant
            out@.len() + rev@.len() == v.len(),
            forall|i: int| 0 <= i < out@.len() ==> #[trigger] out@[i] == v[v.len() - 1 - i],
            forall|i: int| 0 <= i < rev@.len() ==> #[trigger] rev@[i] == v[i],
        decreases rev@.len(),
    {
        let e = rev.pop().unwrap();
        out.push(e);
    }
    proof {
        assert forall|x: Seq<u8>| #[trigger] holds(out@, x) == holds(all, x) by {
            assert(holds(s, x) == holds(all, x));
            if holds(v, x) {
                let i = choose|i: int| 0 <= i < v.len() && (#[trigger] v[i])@ == x;
                assert(out@[v.len() - 1 - i] == v[i]);
            }
            if holds(out@, x) {
                let i = choose|i: int| 0 <= i < out@.len() && (#[trigger] out@[i])@ == x;
                assert(v[v.len() - 1 - i]@ == x);
            }
        }
    }
    out
}

/// A list holds a name exactly if it has elements with that key.
proof fn lemma_holds_iff_kept(s: Seq<Vec<u8>>, x: Seq<u8>)
    ensures
        holds(s, x) == (sort::with_key(s, false, x).len() > 0),
    decreases s.len(),
{
    if s.len() == 0 {
        sort::lemma_with_key_none(s, false, x);
    } else {
        let rest = s.drop_last();
        lemma_holds_iff_kept(rest, x);
        sort::lemma_with_key_last(s, false, x);
        sort::lemma_with_key_one(s.last(), false, x);
        if holds(s, x) {
            let i = choose|i: int| 0 <= i < s.len() && (#[trigger] s[i])@ == x;
            if i < rest.len() {
                assert(rest[i]@ == x);
            }
        }
        if holds(rest, x) {
            let i = choose|i: int| 0 <= i < rest.len() && (#[trigger] rest[i])@ == x;
            assert(s[i]@ == x);
        }
        if s.last()@ == x {
            assert(s[s.len() - 1]@ == x);
        }
    }
}

/// Whether a listed name is to be read: in a wanted namespace, and not
/// already fetched.
pub open spec fn wanted(
    name: Seq<u8>,
    want: XattrNamespaces,
    explicit: Seq<Vec<u8>>,
    fetched: Option<Seq<u8>>,
) -> bool {
    &&& namespace_bit(name) != 0
    &&& namespace_bit(name) & want.bits != 0
    &&& !holds(explicit, name)
    &&& fetched != Some(name)
}

fn holds_name(list: &Vec<Vec<u8>>, x: &[u8]) -> (r: bool)
    ensures
        r == holds(list@, x@),
{
    let mut i: usize = 0;
    while i < list.len()
        invariant
            0 <= i <= list@.len(),
            forall|j: int| 0 <= j < i ==> (#[trigger] list@[j])@ != x@,
        decreases list@.len() - i,
    {
        if bytes_eq(list[i].as_slice(), x) {
            assert(list@[i as int]@ == x@);
            return true;
        }
        i = i + 1;
    }
    false
}

fn is_wanted(
    name: &[u8],
    want: XattrNamespaces,
    explicit: &Vec<Vec<u8>>,
    fetched: Option<&Vec<u8>>,
) -> (r: bool)
    ensures
        r == wanted(
            name@,
            want,
            explicit@,
            match fetched {
                Some(a) => Some(a@),
                None => None,
            },
        ),
{
    let ns = match namespace_of(name) {
        Some(ns) => ns,
        None => {
            return false;
        },
    };
    if ns.bits & want.bits == 0 || holds_name(explicit, name) {
        return false;
    }
    match fetched {
        Some(a) => !bytes_eq(a.as_slice(), name),
        None => true,
    }
}

/// Of the names an entry's listing gave, those to read: sorted, one of each.
/// A listing that failed gives none, and says so: that is not an entry without
/// attributes.
pub fn discover_names(
    listed: Option<Vec<Vec<u8>>>,
    want: XattrNamespaces,
    explicit: &Vec<Vec<u8>>,
    fetched: Option<&Vec<u8>>,
) -> (r: (Vec<Vec<u8>>, bool))
    ensures
        r.1 == (listed is Some),
        strictly_sorted(r.0@),
        forall|x: Seq<u8>| #[trigger]
            holds(r.0@, x) == (listed is Some && holds(listed->Some_0@, x) && wanted(
                x,
                want,
                explicit@,
                match fetched {
                    Some(a) => Some(a@),
                    None => None,
                },
            )),
{
    let ghost acl: Option<Seq<u8>> = match fetched {
        Some(a) => Some(a@),
        None => None,
    };
    let mut rest = match listed {
        Some(l) => l,
        None => {
            return (Vec::new(), false);
        },
    };
    let ghost all = rest@;
    let mut kept: Vec<Vec<u8>> = Vec::new();
    while rest.len() > 0
        invariant
            acl == match fetched {
                Some(a) => Some(a@),
                None => None,
            },
            forall|x: Seq<u8>| #[trigger]
                sifted(all, rest@, kept@, wanted(x, want, explicit@, acl), x),
        decreases rest@.len(),
    {
        let ghost r0 = rest@;
        let ghost k0 = kept@;
        let e = rest.pop().unwrap();
        let keep = is_wanted(e.as_slice(), want, explicit, fetched);
        let ghost name = e@;
        if keep {
            kept.push(e);
        }
        proof {
            lemma_holds_pop(r0, rest@, name);
            if keep {
                assert(k0 =~= kept@.drop_last());
                lemma_holds_pop(kept@, k0, name);
            }
            assert forall|x: Seq<u8>| #[trigger]
                sifted(all, rest@, kept@, wanted(x, want, explicit@, acl), x) by {
                assert(sifted(all, r0, k0, wanted(x, want, explicit@, acl), x));
                assert(holds(r0, x) == (holds(rest@, x) || x == name));
                if keep {
                    assert(holds(kept@, x) == (holds(k0, x) || x == name));
                }
            }
        }
    }
    proof {
        assert forall|x: Seq<u8>| #[trigger] holds(kept@, x) == (holds(all, x) && wanted(
            x,
            want,
            explicit@,
            acl,
        )) by {
            assert(sifted(all, rest@, kept@, wanted(x, want, explicit@, acl), x));
        }
    }
    let out = sort_and_dedup(kept);
    (out, true)
}

/// Whether `x` stands where it should while `all` is sifted: wanted and of
/// `all`, it is still among the `rest` or already among the `kept`.
spec fn sifted(
    all: Seq<Vec<u8>>,
    rest: Seq<Vec<u8>>,
    kept: Seq<Vec<u8>>,
    want: bool,
    x: Seq<u8>,
) -> bool {
    (holds(all, x) && want) == ((holds(rest, x) && want) || holds(kept, x))
}

/// A list one longer holds one name more.
proof fn lemma_holds_pop(long: Seq<Vec<u8>>, short: Seq<Vec<u8>>, name: Seq<u8>)
    requires
        long.len() > 0,
        short == long.drop_last(),
        long.last()@ == name,
    ensures
        forall|x: Seq<u8>| #[trigger] holds(long, x) == (holds(short, x) || x == name),
{
    assert forall|x: Seq<u8>| #[trigger] holds(long, x) == (holds(short, x) || x == name) by {
        if holds(long, x) {
            let i = choose|i: int| 0 <= i < long.len() && (#[trigger] long[i])@ == x;
            if i < short.len() {
                assert(short[i]@ == x);
            }
        }
        if holds(short, x) {
            let i = choose|i: int| 0 <= i < short.len() && (#[trigger] short[i])@ == x;
            assert(long[i]@ == x);
        }
        if x == name {
            assert(long[long.len() - 1]@ == x);
        }
    }
}

/// Every name an entry's listing gave: sorted, one of each; or the listing's
/// own error.
pub fn list_xattr_names(listed: Result<Vec<Vec<u8>>, Error>) -> (r: Result<Vec<Vec<u8>>, Error>)
    ensures
        match (listed, r) {
            (Ok(l), Ok(names)) => strictly_sorted(names@) && forall|x: Seq<u8>| #[trigger]
                holds(names@, x) == holds(l@, x),
            (Err(e), Err(f)) => e == f,
            _ => false,
        },
{
    match listed {
        Ok(l) => Ok(sort_and_dedup(l)),
        Err(e) => Err(e),
    }
}

/// The names of a file to read when its attributes are enumerated: those in
/// the namespaces wanted; or the listing's own error.
pub fn names_to_scan(listed: Result<Vec<Vec<u8>>, Error>, want: XattrNamespaces) -> (r: Result<
    Vec<Vec<u8>>,
    Error,
>)
    ensures
        match (listed, r) {
            (Ok(l), Ok(names)) => strictly_sorted(names@) && forall|x: Seq<u8>| #[trigger]
                holds(names@, x) == (holds(l@, x) && wanted(x, want, Seq::empty(), None)),
            (Err(e), Err(f)) => e == f,
            _ => false,
        },
{
    match listed {
        Ok(l) => {
            let none: Vec<Vec<u8>> = Vec::new();
            assert(none@ =~= Seq::<Vec<u8>>::empty());
            let (names, _) = discover_names(Some(l), want, &none, None);
            Ok(names)
        },
        Err(e) => Err(e),
    }
}

/// An attribute and what reading it gave in the end.
pub struct XattrValue {
    pub name: Vec<u8>,
    pub value: Option<Vec<u8>>,
}

/// The attributes that could be read, in order: one that could not, under the
/// identity it was read as, is dropped.
pub fn scan_result(read: Vec<XattrValue>) -> (r: Vec<(Vec<u8>, Vec<u8>)>)
    ensures
        ({
            let kept = read@.filter(|a: XattrValue| a.value is Some);
            &&& r@.len() == kept.len()
            &&& forall|i: int|
                0 <= i < r@.len() ==> (#[trigger] r@[i]).0 == kept[i].name && Some(r@[i].1)
                    == kept[i].value
        }),
{
    let ghost all = read@;
    let ghost p = |a: XattrValue| a.value is Some;
    let mut rest = read;
    let mut rev: Vec<(Vec<u8>, Vec<u8>)> = Vec::new();
    let ghost mut tail: Seq<XattrValue> = Seq::empty();
    assert(rest@ + tail =~= all);
    proof {
        reveal(Seq::filter);
        assert(tail.filter(p) =~= Seq::<XattrValue>::empty());
    }
    while rest.len() > 0
        invariant
            p == (|a: XattrValue| a.value is Some),
            rest@ + tail == all,
            rev@.len() == tail.filter(p).len(),
            forall|i: int|
                0 <= i < rev@.len() ==> (#[trigger] tail.filter(p)[i]).name == rev@[rev@.len() - 1
                    - i].0 && tail.filter(p)[i].value == Some(rev@[rev@.len() - 1 - i].1),
        decreases rest@.len(),
    {
        let ghost t0 = tail;
        let ghost r0 = rest@;
        let ghost v0 = rev@;
        let e = rest.pop().unwrap();
        let ghost one = seq![e];
        proof {
            tail = one + tail;
            assert(rest@ + tail =~= r0 + t0);
            Seq::filter_distributes_over_add(one, t0, p);
            reveal(Seq::filter);
            assert(one.drop_last() =~= Seq::<XattrValue>::empty());
            assert(Seq::<XattrValue>::empty().filter(p) =~= Seq::<XattrValue>::empty());
            if p(e) {
                assert(one.filter(p) =~= one);
            } else {
                assert(one.filter(p) =~= Seq::<XattrValue>::empty());
            }
        }
        match e.value {
            Some(v) => {
                rev.push((e.name, v));
                proof {
                    assert forall|i: int| 0 <= i < rev@.len() implies (#[trigger] tail.filter(
                        p,
                    )[i]).name == rev@[rev@.len() - 1 - i].0 && tail.filter(p)[i].value == Some(
                        rev@[rev@.len() - 1 - i].1,
                    ) by {
                        if i > 0 {
                            assert(tail.filter(p)[i] == t0.filter(p)[i - 1]);
                            assert(v0[v0.len() - 1 - (i - 1)] == rev@[rev@.len() - 1 - i]);
                        }
                    }
                }
            },
            None => {
                assert(tail.filter(p) =~= t0.filter(p));
            },
        }
    }
    assert(tail =~= all);
    let ghost v = rev@;
    let mut out: Vec<(Vec<u8>, Vec<u8>)> = Vec::new();
    while rev.len() > 0
        invariant
            out@.len() + rev@.len() == v.len(),
            forall|i: int| 0 <= i < out@.len() ==> #[trigger] out@[i] == v[v.len() - 1 - i],
            forall|i: int| 0 <= i < rev@.len() ==> #[trigger] rev@[i] == v[i],
        decreases rev@.len(),
    {
        let e = rev.pop().unwrap();
        out.push(e);
    }
    proof {
        let kept = all.filter(p);
        assert forall|i: int| 0 <= i < out@.len() implies (#[trigger] out@[i]).0 == kept[i].name
            && Some(out@[i].1) == kept[i].value by {
            assert(tail.filter(p)[i] == kept[i]);
        }
    }
    out
}

/// The largest value an attribute can have.
pub const XATTR_SIZE_MAX: usize = 65536;

/// The buffer a value of the probed size is read into: exactly it the first
/// time, half as much again after it grew in between.
pub open spec fn retry_cap(size: nat, tries: u32) -> nat {
    if tries == 0 {
        size
    } else {
        size + size / 2
    }
}

/// How often a value that keeps growing is read again.
pub const XATTR_SIZE_RETRIES: u32 = 8;

/// The refetch of a value that outgrew its buffer: probe its size, read it at
/// that size, and again where it grew in between, up to `limit` times.
pub struct Refetch {
    pub tries: u32,
    pub limit: u32,
}

/// What follows a read of the refetch.
pub enum RefetchNext {
    /// The value grew: probe it again.
    Probe,
    /// It is over, with the value or without one.
    Done(Option<Vec<u8>>),
}

/// Whether a read failed because the value did not fit.
pub open spec fn did_not_fit(n: Result<usize, Error>) -> bool {
    n == Err::<usize, Error>(Error::Errno(Errno::ERANGE)) || n == Err::<usize, Error>(
        Error::Errno(Errno::E2BIG),
    )
}

impl Refetch {
    /// The refetch is within its bound.
    pub open spec fn wf(&self) -> bool {
        self.tries == 0 || self.tries < self.limit
    }

    pub fn new(limit: u32) -> (r: Refetch)
        ensures
            r.wf(),
            r.tries == 0,
            r.limit == limit,
    {
        Refetch { tries: 0, limit }
    }

    /// The size of the buffer to read into, given the size probed; `None`
    /// where the probe failed, or the value is larger than one can be.
    pub fn probed(&self, size: Result<usize, Error>) -> (r: Option<usize>)
        ensures
            match r {
                Some(cap) => size is Ok && size->Ok_0 <= XATTR_SIZE_MAX && cap == retry_cap(
                    size->Ok_0 as nat,
                    self.tries,
                ),
                None => size is Err || size->Ok_0 > XATTR_SIZE_MAX,
            },
    {
        match size {
            Ok(size) => {
                if size > XATTR_SIZE_MAX {
                    return None;
                }
                if self.tries == 0 {
                    Some(size)
                } else {
                    Some(size + size / 2)
                }
            },
            Err(_) => None,
        }
    }

    /// Take the read's outcome.
    pub fn read(&mut self, n: Result<usize, Error>, buf: Vec<u8>) -> (r: RefetchNext)
        requires
            old(self).wf(),
        ensures
            final(self).limit == old(self).limit,
            match r {
                RefetchNext::Probe => {
                    &&& did_not_fit(n)
                    &&& final(self).wf()
                    &&& final(self).tries == old(self).tries + 1
                    &&& final(self).tries < final(self).limit
                },
                RefetchNext::Done(None) => {
                    ||| n is Ok && n->Ok_0 > buf@.len()
                    ||| n is Err && !did_not_fit(n)
                    ||| did_not_fit(n) && old(self).tries + 1 >= old(self).limit
                },
                RefetchNext::Done(Some(v)) => n is Ok && n->Ok_0 <= buf@.len() && v@
                    == buf@.subrange(0, n->Ok_0 as int),
            },
    {
        match n {
            Ok(n) => RefetchNext::Done(narrow(buf, n)),
            Err(e) => {
                let again = match e {
                    Error::Errno(Errno::ERANGE) => true,
                    Error::Errno(Errno::E2BIG) => true,
                    _ => false,
                };
                if !again {
                    return RefetchNext::Done(None);
                }
                if self.limit <= 1 || self.tries >= self.limit - 1 {
                    return RefetchNext::Done(None);
                }
                self.tries = self.tries + 1;
                RefetchNext::Probe
            },
        }
    }
}

/// A refetch ends: each time it goes on, one fewer try is left.
pub proof fn law_refetch_is_bounded(before: Refetch, after: Refetch)
    requires
        before.wf(),
        after.limit == before.limit,
        after.tries == before.tries + 1,
        after.tries < after.limit,
    ensures
        0 <= after.limit - after.tries < before.limit - before.tries,
        after.wf(),
{
}

/// An attribute's namespace is what its name begins with: `user.`, `trusted.`,
/// `security.` or `system.`, each with a flag of its own.
pub proof fn law_namespace_is_what_the_name_begins_with(rest: Seq<u8>, name: Seq<u8>)
    ensures
        namespace_bit(seq![0x75u8, 0x73, 0x65, 0x72, 0x2e] + rest) == 1,
        namespace_bit(seq![0x74u8, 0x72, 0x75, 0x73, 0x74, 0x65, 0x64, 0x2e] + rest) == 2,
        namespace_bit(seq![0x73u8, 0x65, 0x63, 0x75, 0x72, 0x69, 0x74, 0x79, 0x2e] + rest) == 4,
        namespace_bit(seq![0x73u8, 0x79, 0x73, 0x74, 0x65, 0x6d, 0x2e] + rest) == 8,
        namespace_bit(name) != 0 ==> {
            ||| seq![0x75u8, 0x73, 0x65, 0x72, 0x2e].is_prefix_of(name)
            ||| seq![0x74u8, 0x72, 0x75, 0x73, 0x74, 0x65, 0x64, 0x2e].is_prefix_of(name)
            ||| seq![0x73u8, 0x65, 0x63, 0x75, 0x72, 0x69, 0x74, 0x79, 0x2e].is_prefix_of(name)
            ||| seq![0x73u8, 0x79, 0x73, 0x74, 0x65, 0x6d, 0x2e].is_prefix_of(name)
        },
{
    let (u, t) = (user_ns() + rest, policy::trusted_ns() + rest);
    let (c, y) = (security_ns() + rest, system_ns() + rest);
    assert(u.subrange(0, 5) =~= user_ns());
    assert(t.subrange(0, 8) =~= policy::trusted_ns());
    assert(c.subrange(0, 9) =~= security_ns());
    assert(y.subrange(0, 7) =~= system_ns());
    assert(!user_ns().is_prefix_of(t)) by {
        if user_ns().is_prefix_of(t) {
            assert(t.subrange(0, 5)[0] == user_ns()[0]);
        }
    }
    assert(!user_ns().is_prefix_of(c) && !policy::trusted_ns().is_prefix_of(c)) by {
        if user_ns().is_prefix_of(c) {
            assert(c.subrange(0, 5)[0] == user_ns()[0]);
        }
        if policy::trusted_ns().is_prefix_of(c) {
            assert(c.subrange(0, 8)[0] == policy::trusted_ns()[0]);
        }
    }
    assert(!user_ns().is_prefix_of(y) && !policy::trusted_ns().is_prefix_of(y)
        && !security_ns().is_prefix_of(y)) by {
        if user_ns().is_prefix_of(y) {
            assert(y.subrange(0, 5)[0] == user_ns()[0]);
        }
        if policy::trusted_ns().is_prefix_of(y) {
            assert(y.subrange(0, 8)[0] == policy::trusted_ns()[0]);
        }
        if security_ns().is_prefix_of(y) {
            assert(y.subrange(0, 9)[1] == security_ns()[1]);
        }
    }
}

/// Of what an entry lists, exactly that is read which is in a namespace wanted
/// and is not read under its own name already: so nothing is read twice, and
/// nothing wanted is passed over.
pub proof fn law_listed_attribute_is_read_once(
    name: Seq<u8>,
    want: XattrNamespaces,
    explicit: Seq<Vec<u8>>,
    fetched: Option<Seq<u8>>,
)
    ensures
        holds(explicit, name) || fetched == Some(name) ==> !wanted(name, want, explicit, fetched),
        namespace_bit(name) & want.bits == 0 ==> !wanted(name, want, explicit, fetched),
        namespace_bit(name) & want.bits != 0 && !holds(explicit, name) && fetched != Some(name)
            ==> wanted(name, want, explicit, fetched),
{
    let (b, w) = (namespace_bit(name), want.bits);
    assert(b & w != 0 ==> b != 0) by (bit_vector);
}

/// A value is refetched at the size probed the first time, and with half as
/// much again after it grew; only a value that did not fit is.
pub proof fn law_refetch_has_room_to_grow(size: nat, tries: u32, n: Result<usize, Error>)
    ensures
        retry_cap(size, 0) == size,
        tries > 0 ==> 2 * retry_cap(size, tries) <= 3 * size < 2 * retry_cap(size, tries) + 2,
        did_not_fit(n) ==> n is Err && n->Err_0 is Errno && (n->Err_0->Errno_0.code() == 34
            || n->Err_0->Errno_0.code() == 7),
        n == Err::<usize, Error>(Error::Errno(Errno::of_code(34))) ==> did_not_fit(n),
        n == Err::<usize, Error>(Error::Errno(Errno::of_code(7))) ==> did_not_fit(n),
{
}

/// The value of an attribute read is the front of the buffer it was read into,
/// as many bytes as the kernel says it filled; a failed read, one that never
/// came and a count beyond the buffer are no value.
pub proof fn law_value_is_what_was_filled<T>(p: FsPending<T>, i: int)
    ensures
        match (p.outcome, value_read(p)) {
            (Some(out), Some(v)) => {
                &&& out.res is Ok
                &&& v.len() == out.res->Ok_0
                &&& v.len() <= out.bufs@[0]@.len()
                &&& 0 <= i < v.len() ==> v[i] == out.bufs@[0]@[i]
            },
            (Some(out), None) => {
                ||| out.res is Err
                ||| out.bufs@.len() == 0
                ||| out.res->Ok_0 < 0
                ||| out.res->Ok_0 > out.bufs@[0]@.len()
            },
            (None, v) => v is None,
        },
        outgrew(p) <==> p.outcome is Some && p.outcome->Some_0.res == Err::<i32, Errno>(
            Errno::of_code(34),
        ),
{
}

} // verus!
