//! Where a walk of a subtree resumes: after a key, the last one it gave.
use crate::bytes;
use crate::bytes::{copied, split};
use crate::errno::Error;
use crate::names::SLASH;
use crate::text;
use crate::text::{push_decimal, push_hex32};
use vstd::prelude::*;
use vstd::slice::slice_subrange;
use vstd::string::StringExecFns;

verus! {

/// Bytes before the key in a serialized cursor: magic, version and length.
pub const CURSOR_HEADER: usize = 10;

/// The version of the serialized form.
pub const CURSOR_VERSION: u16 = 1;

/// What a serialized cursor begins with.
pub open spec fn cursor_magic() -> Seq<u8> {
    seq![84u8, 110, 84, 99]
}

/// A number as bytes, the least significant first.
pub open spec fn word16(n: u16) -> Seq<u8> {
    seq![(n % 256) as u8, (n / 256) as u8]
}

/// A number as bytes, the least significant first.
pub open spec fn word32(n: u32) -> Seq<u8> {
    seq![
        (n % 256) as u8,
        (n / 256 % 256) as u8,
        (n / 65536 % 256) as u8,
        (n / 16777216) as u8,
    ]
}

/// The number two bytes make, the least significant first.
pub open spec fn read16(b: Seq<u8>) -> u16 {
    (b[0] + 256 * b[1]) as u16
}

/// The number four bytes make, the least significant first.
pub open spec fn read32(b: Seq<u8>) -> u32 {
    (b[0] + 256 * b[1] + 65536 * b[2] + 16777216 * b[3]) as u32
}

/// A resume token: the last key a walk gave. It names a place among the keys,
/// not in any directory, so it keeps its meaning when the tree changes.
#[derive(Debug, PartialEq, Eq)]
pub struct TreeCursor {
    pub at: Vec<u8>,
}

impl Default for TreeCursor {
    fn default() -> (r: TreeCursor)
        ensures
            r.at@.len() == 0,
    {
        TreeCursor { at: Vec::new() }
    }
}

/// The components of a key: what stands between its separators, with the empty
/// one that a directory's key ends in left out.
pub open spec fn components_of(key: Seq<u8>) -> Seq<Seq<u8>> {
    nonempty(bytes::split_on(key, SLASH))
}

/// The pieces that are not empty.
pub open spec fn nonempty(pieces: Seq<Seq<u8>>) -> Seq<Seq<u8>> {
    pieces.filter(|p: Seq<u8>| p.len() > 0)
}

/// Whether a key names a directory.
pub open spec fn names_dir(key: Seq<u8>) -> bool {
    key.len() > 0 && key.last() == SLASH
}

/// What is wrong with a serialized cursor, if anything is: the first thing
/// found.
pub open spec fn cursor_defect(data: Seq<u8>) -> Option<Seq<char>> {
    if data.len() < CURSOR_HEADER {
        Some("tree cursor: truncated header"@)
    } else if data.subrange(0, 4) != cursor_magic() {
        Some(
            "tree cursor: not a cursor blob (magic "@ + text::hex32(read32(data.subrange(0, 4)))
                + ")"@,
        )
    } else if read16(data.subrange(4, 6)) != CURSOR_VERSION {
        Some(
            "tree cursor: unsupported version "@ + text::decimal(
                read16(data.subrange(4, 6)) as nat,
            ),
        )
    } else if data.len() != CURSOR_HEADER + read32(data.subrange(6, 10)) {
        Some("tree cursor: length does not match the blob"@)
    } else {
        None
    }
}

/// The serialized form of a cursor at `key`. The length is kept to 32 bits.
pub open spec fn cursor_bytes(key: Seq<u8>) -> Seq<u8> {
    cursor_magic() + word16(CURSOR_VERSION) + word32((key.len() % 0x1_0000_0000) as u32) + key
}

impl TreeCursor {
    /// A cursor just after `key`, which must be an entry's key: with the
    /// separator at its end where it is a directory's.
    pub fn from_key(key: Vec<u8>) -> (r: TreeCursor)
        ensures
            r.at == key,
    {
        TreeCursor { at: key }
    }

    /// The key this cursor is after.
    pub fn key(&self) -> (r: &[u8])
        ensures
            r@ == self.at@,
    {
        self.at.as_slice()
    }

    /// Whether this cursor is at the start, so that the whole tree follows.
    pub fn is_empty(&self) -> (r: bool)
        ensures
            r == (self.at@.len() == 0),
    {
        self.at.len() == 0
    }

    /// Serialize: magic, version, length, and the key's bytes as they are.
    pub fn to_bytes(&self) -> (r: Vec<u8>)
        ensures
            r@ == cursor_bytes(self.at@),
    {
        let mut out: Vec<u8> = Vec::new();
        let n: u32 = (self.at.len() as u64 % 0x1_0000_0000) as u32;
        out.push(84);
        out.push(110);
        out.push(84);
        out.push(99);
        out.push((CURSOR_VERSION % 256) as u8);
        out.push((CURSOR_VERSION / 256) as u8);
        out.push((n % 256) as u8);
        out.push((n / 256 % 256) as u8);
        out.push((n / 65536 % 256) as u8);
        out.push((n / 16777216) as u8);
        let ghost head = out@;
        assert(head =~= cursor_magic() + word16(CURSOR_VERSION) + word32(
            (self.at@.len() % 0x1_0000_0000) as u32,
        ));
        out.extend_from_slice(self.at.as_slice());
        assert(out@ =~= head + self.at@);
        out
    }

    /// Rebuild what [`TreeCursor::to_bytes`] wrote.
    pub fn from_bytes(data: &[u8]) -> (r: Result<TreeCursor, Error>)
        ensures
            match r {
                Ok(c) => cursor_defect(data@) is None && c.at@ == data@.subrange(
                    CURSOR_HEADER as int,
                    data@.len() as int,
                ),
                Err(e) => e is Validation && cursor_defect(data@) == Some(e->Validation_0@),
            },
    {
        if data.len() < CURSOR_HEADER {
            return Err(Error::Validation(String::from_str("tree cursor: truncated header")));
        }
        let magic: u32 = data[0] as u32 + 256 * data[1] as u32 + 65536 * data[2] as u32 + 16777216
            * data[3] as u32;
        assert(magic == read32(data@.subrange(0, 4)));
        let version: u16 = data[4] as u16 + 256 * data[5] as u16;
        assert(version == read16(data@.subrange(4, 6)));
        let len: u32 = data[6] as u32 + 256 * data[7] as u32 + 65536 * data[8] as u32 + 16777216
            * data[9] as u32;
        assert(len == read32(data@.subrange(6, 10)));
        let genuine = data[0] == 84 && data[1] == 110 && data[2] == 84 && data[3] == 99;
        assert(genuine == (data@.subrange(0, 4) == cursor_magic())) by {
            if genuine {
                assert(data@.subrange(0, 4) =~= cursor_magic());
            } else if data@.subrange(0, 4) == cursor_magic() {
                assert(cursor_magic()[0] == data@[0]);
                assert(cursor_magic()[1] == data@[1]);
                assert(cursor_magic()[2] == data@[2]);
                assert(cursor_magic()[3] == data@[3]);
            }
        }
        if !genuine {
            let mut why = String::from_str("tree cursor: not a cursor blob (magic ");
            push_hex32(&mut why, magic);
            why.append(")");
            return Err(Error::Validation(why));
        }
        if version != CURSOR_VERSION {
            let mut why = String::from_str("tree cursor: unsupported version ");
            push_decimal(&mut why, version as u64);
            return Err(Error::Validation(why));
        }
        if data.len() - CURSOR_HEADER != len as usize {
            return Err(
                Error::Validation(String::from_str("tree cursor: length does not match the blob")),
            );
        }
        Ok(TreeCursor { at: copied(slice_subrange(data, CURSOR_HEADER, data.len())) })
    }

    /// The components of the key.
    pub fn components(&self) -> (r: Vec<Vec<u8>>)
        ensures
            bytes::views(r@) == components_of(self.at@),
    {
        let pieces = split(self.at.as_slice(), SLASH);
        let ghost all = bytes::views(pieces@);
        let mut r: Vec<Vec<u8>> = Vec::new();
        let mut i: usize = 0;
        proof {
            reveal(Seq::filter);
            assert(bytes::views(r@) =~= nonempty(all.take(0)));
        }
        while i < pieces.len()
            invariant
                0 <= i <= pieces@.len(),
                all.len() == pieces@.len(),
                forall|j: int| 0 <= j < all.len() ==> #[trigger] all[j] == pieces@[j]@,
                bytes::views(r@) == nonempty(all.take(i as int)),
            decreases pieces@.len() - i,
        {
            let ghost r0 = r@;
            proof {
                reveal(Seq::filter);
                assert(all.take(i + 1).drop_last() =~= all.take(i as int));
                assert(all.take(i + 1).last() == all[i as int]);
            }
            if pieces[i].len() > 0 {
                r.push(copied(pieces[i].as_slice()));
                assert(bytes::views(r@) =~= bytes::views(r0).push(all[i as int]));
            }
            i = i + 1;
        }
        assert(all.take(all.len() as int) =~= all);
        r
    }

    /// Whether the key names a directory.
    pub fn into_dir(&self) -> (r: bool)
        ensures
            r == names_dir(self.at@),
    {
        self.at.len() > 0 && self.at[self.at.len() - 1] == SLASH
    }
}

/// A cursor survives being serialized: what is written is accepted, and reads
/// back as the same key, for every key whose length 32 bits hold.
pub proof fn law_cursor_round_trip(key: Seq<u8>)
    requires
        key.len() < 0x1_0000_0000,
    ensures
        cursor_defect(cursor_bytes(key)) is None,
        cursor_bytes(key).subrange(CURSOR_HEADER as int, cursor_bytes(key).len() as int) == key,
{
    let b = cursor_bytes(key);
    let n = key.len() as u32;
    assert(b.len() == CURSOR_HEADER + key.len());
    assert(b.subrange(0, 4) =~= cursor_magic());
    assert(b.subrange(4, 6) =~= word16(CURSOR_VERSION));
    assert(b.subrange(6, 10) =~= word32(n));
    assert(read32(word32(n)) == n) by {
        let w = word32(n);
        assert(w[0] + 256 * w[1] + 65536 * w[2] + 16777216 * w[3] == n) by (nonlinear_arith)
            requires
                w[0] == n % 256,
                w[1] == n / 256 % 256,
                w[2] == n / 65536 % 256,
                w[3] == n / 16777216,
        ;
    }
    assert(b.subrange(10, b.len() as int) =~= key);
}

/// What two lists of pieces have that is not empty, they have together.
pub proof fn lemma_nonempty_parts(a: Seq<Seq<u8>>, b: Seq<Seq<u8>>)
    ensures
        nonempty(a + b) == nonempty(a) + nonempty(b),
{
    Seq::filter_distributes_over_add(a, b, |p: Seq<u8>| p.len() > 0);
}

/// A single piece, unless it is empty.
pub proof fn lemma_nonempty_one(c: Seq<u8>)
    ensures
        nonempty(seq![c]) == (if c.len() > 0 {
            seq![c]
        } else {
            Seq::empty()
        }),
{
    reveal(Seq::filter);
    let one = seq![c];
    assert(one.drop_last() =~= Seq::<Seq<u8>>::empty());
    assert(nonempty(Seq::<Seq<u8>>::empty()) =~= Seq::<Seq<u8>>::empty());
    assert(one.last() == c);
    if c.len() > 0 {
        assert(nonempty(one) =~= seq![c]);
    } else {
        assert(nonempty(one) =~= Seq::<Seq<u8>>::empty());
    }
}

/// The serialized form, byte by byte: four letters, the version and the key's
/// length with their low bytes first, then the key.
pub proof fn law_cursor_layout(key: Seq<u8>)
    requires
        key.len() < 0x1_0000_0000,
    ensures
        ({
            let b = cursor_bytes(key);
            &&& b.len() == 10 + key.len()
            &&& b[0] == 0x54 && b[1] == 0x6e && b[2] == 0x54 && b[3] == 0x63
            &&& b[4] == 1 && b[5] == 0
            &&& b[6] + 0x100 * b[7] + 0x1_0000 * b[8] + 0x100_0000 * b[9] == key.len()
            &&& forall|i: int| 0 <= i < key.len() ==> b[10 + i] == #[trigger] key[i]
        }),
{
    let n = key.len() as u32;
    let w = word32(n);
    let b = cursor_bytes(key);
    assert(b[6] == w[0] && b[7] == w[1] && b[8] == w[2] && b[9] == w[3]);
    assert(w[0] + 0x100 * w[1] + 0x1_0000 * w[2] + 0x100_0000 * w[3] == n) by (nonlinear_arith)
        requires
            w[0] == n % 256,
            w[1] == n / 256 % 256,
            w[2] == n / 65536 % 256,
            w[3] == n / 16777216,
    ;
}

proof fn lemma_low_bytes_first(n: u32, a: u8, b: u8, c: u8, d: u8)
    requires
        n == a + 256 * b + 65536 * c + 16777216 * d,
    ensures
        n % 256 == a,
        n / 256 % 256 == b,
        n / 65536 % 256 == c,
        n / 16777216 == d,
{
    let x = n as int;
    let q1: int = b + 256 * c + 65536 * d;
    let q2: int = c + 256 * d;
    vstd::arithmetic::div_mod::lemma_fundamental_div_mod_converse(x, 256, q1, a as int);
    vstd::arithmetic::div_mod::lemma_fundamental_div_mod_converse(q1, 256, q2, b as int);
    vstd::arithmetic::div_mod::lemma_fundamental_div_mod_converse(x, 65536, q2, a + 256 * b);
    vstd::arithmetic::div_mod::lemma_fundamental_div_mod_converse(q2, 256, d as int, c as int);
    vstd::arithmetic::div_mod::lemma_fundamental_div_mod_converse(
        x,
        16777216,
        d as int,
        a + 256 * b + 65536 * c,
    );
}

/// Only the serialized form is accepted: bytes that are read as a cursor are
/// what serializing that cursor writes.
pub proof fn law_cursor_accepts_only_its_form(data: Seq<u8>)
    requires
        cursor_defect(data) is None,
    ensures
        data.len() >= 10,
        cursor_bytes(data.subrange(10, data.len() as int)) == data,
{
    let key = data.subrange(10, data.len() as int);
    let b = cursor_bytes(key);
    let n = key.len() as u32;
    let w = word32(n);
    let l = data.subrange(6, 10);
    let v = data.subrange(4, 6);
    assert(data.subrange(0, 4)[0] == data[0] && data.subrange(0, 4)[1] == data[1]
        && data.subrange(0, 4)[2] == data[2] && data.subrange(0, 4)[3] == data[3]);
    assert(read32(l) == n);
    lemma_low_bytes_first(n, l[0], l[1], l[2], l[3]);
    assert(v[0] == data[4] && v[1] == data[5]);
    assert(b =~= data);
}

/// A key's components are what stands between its slashes, in order, without
/// the empty ones; and it names a directory exactly if it ends in a slash.
pub proof fn law_components_lead_to_the_key(comps: Seq<Seq<u8>>)
    requires
        comps.len() > 0,
        forall|i: int|
            0 <= i < comps.len() ==> (#[trigger] comps[i]).len() > 0 && !comps[i].contains(0x2f),
    ensures
        components_of(bytes::with_between(comps, 0x2f)) == comps,
        components_of(bytes::with_between(comps, 0x2f).push(0x2f)) == comps,
        !names_dir(bytes::with_between(comps, 0x2f)),
        names_dir(bytes::with_between(comps, 0x2f).push(0x2f)),
    decreases comps.len(),
{
    let last = comps.last();
    let key = bytes::with_between(comps, 0x2f);
    bytes::lemma_split_one(last, 0x2f);
    lemma_nonempty_one(last);
    assert(comps[comps.len() - 1] == last);
    if comps.len() == 1 {
        assert(comps =~= seq![last]);
        assert(key == last);
    } else {
        let front = comps.drop_last();
        let head = bytes::with_between(front, 0x2f);
        assert forall|i: int| 0 <= i < front.len() implies (#[trigger] front[i]).len() > 0
            && !front[i].contains(0x2f) by {
            assert(front[i] == comps[i]);
        }
        law_components_lead_to_the_key(front);
        assert(key =~= head.push(0x2f) + last);
        bytes::lemma_split_at(head, last, 0x2f);
        lemma_nonempty_parts(bytes::split_on(head, 0x2f), seq![last]);
        assert(comps =~= front + seq![last]);
    }
    assert(key.last() == last.last());
    assert(last.contains(last.last()));
    let none = Seq::<u8>::empty();
    bytes::lemma_split_at(key, none, 0x2f);
    assert(key.push(0x2f) + none =~= key.push(0x2f));
    bytes::lemma_split_one(none, 0x2f);
    lemma_nonempty_one(none);
    lemma_nonempty_parts(bytes::split_on(key, 0x2f), seq![none]);
    assert(comps + Seq::<Seq<u8>>::empty() =~= comps);
}

} // verus!
