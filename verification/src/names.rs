//! What a caller may name, and under which identity: single components,
//! plain relative paths, resolution rules, personalities, and the attributes
//! the reactor writes under its own credentials.
use crate::bytes;
use crate::bytes::{contains_byte, copied, split};
use crate::errno::Error;
use vstd::prelude::*;

verus! {

/// A registered personality: a kernel-held snapshot of one identity's
/// credentials. Never 0, which would be the ring owner's own.
#[derive(Clone, Copy, Debug, PartialEq, Eq, Structural)]
pub struct Personality {
    raw: u16,
}

impl Personality {
    #[verifier::type_invariant]
    spec fn nonzero(self) -> bool {
        self.raw != 0
    }

    /// The id it stands for.
    pub closed spec fn spec_id(self) -> u16 {
        self.raw
    }

    /// The raw kernel id.
    pub fn id(self) -> (r: u16)
        ensures
            r == self.spec_id(),
            r != 0,
    {
        proof {
            use_type_invariant(&self);
        }
        self.raw
    }

    /// Name an id registered on this ring; `None` for 0, which is not a
    /// personality.
    pub fn from_raw(id: u16) -> (r: Option<Personality>)
        ensures
            match r {
                Some(p) => id != 0 && p.spec_id() == id,
                None => id == 0,
            },
    {
        if id == 0 {
            None
        } else {
            Some(Personality { raw: id })
        }
    }
}

/// Per-operation read and write flags, the kernel's `RWF_*` set.
#[derive(Clone, Copy, Debug, PartialEq, Eq, Structural)]
pub struct RwFlags {
    pub bits: u32,
}

pub const RWF_HIPRI: u32 = 0x01;
pub const RWF_DSYNC: u32 = 0x02;
pub const RWF_SYNC: u32 = 0x04;
pub const RWF_NOWAIT: u32 = 0x08;
pub const RWF_APPEND: u32 = 0x10;
pub const RWF_NOAPPEND: u32 = 0x20;
pub const RWF_ATOMIC: u32 = 0x40;
pub const RWF_DONTCACHE: u32 = 0x80;

impl RwFlags {
    /// No flag: the plain positional read or write.
    pub fn empty() -> (r: RwFlags)
        ensures
            r.bits == 0,
    {
        RwFlags { bits: 0 }
    }
}

/// Cache advice, the `POSIX_FADV_*` values.
#[derive(Clone, Copy, Debug, PartialEq, Eq, Structural)]
pub enum Advice {
    /// No advice; resets any pattern set for the range.
    Normal,
    /// Expect random access.
    Random,
    /// Expect sequential access.
    Sequential,
    /// Fetch the range into cache now.
    WillNeed,
    /// Release the range's cached data.
    DontNeed,
    /// Expect a single access in the near future.
    NoReuse,
}

impl Advice {
    pub open spec fn spec_code(self) -> u32 {
        match self {
            Advice::Normal => 0,
            Advice::Random => 1,
            Advice::Sequential => 2,
            Advice::WillNeed => 3,
            Advice::DontNeed => 4,
            Advice::NoReuse => 5,
        }
    }

    /// The number the kernel takes.
    pub fn code(self) -> (r: u32)
        ensures
            r == self.spec_code(),
    {
        match self {
            Advice::Normal => 0,
            Advice::Random => 1,
            Advice::Sequential => 2,
            Advice::WillNeed => 3,
            Advice::DontNeed => 4,
            Advice::NoReuse => 5,
        }
    }
}

pub open spec fn dot() -> Seq<u8> {
    seq![46u8]
}

pub open spec fn dot_dot() -> Seq<u8> {
    seq![46u8, 46u8]
}

/// The byte between path components.
pub const SLASH: u8 = 47;

/// Whether `b` is the name `.`.
pub fn is_dot(b: &[u8]) -> (r: bool)
    ensures
        r == (b@ == dot()),
{
    let r = b.len() == 1 && b[0] == 46;
    assert(r ==> b@ =~= dot());
    r
}

/// Whether `b` is the name `..`.
pub fn is_dot_dot(b: &[u8]) -> (r: bool)
    ensures
        r == (b@ == dot_dot()),
{
    let r = b.len() == 2 && b[0] == 46 && b[1] == 46;
    assert(r ==> b@ =~= dot_dot());
    r
}

/// A single path component: not empty, not `.` or `..`, and holding neither
/// a separator nor NUL.
pub open spec fn is_leaf(b: Seq<u8>) -> bool {
    &&& b.len() > 0
    &&& b != dot()
    &&& b != dot_dot()
    &&& !b.contains(SLASH)
    &&& !b.contains(0)
}

/// What is said of a name that is no single component; the first defect
/// found names it.
pub open spec fn leaf_refusal(b: Seq<u8>) -> Seq<char> {
    if b.len() == 0 {
        "not a single path component (empty)"@
    } else if b == dot() {
        "not a single path component (`.`)"@
    } else if b == dot_dot() {
        "not a single path component (`..`)"@
    } else if b.contains(SLASH) {
        "not a single path component (contains `/`)"@
    } else {
        "not a single path component (contains NUL)"@
    }
}

/// A validated single path component, the only name a directory-entry
/// operation accepts.
#[derive(Clone, Copy, Debug)]
pub struct Leaf<'a> {
    name: &'a [u8],
}

impl<'a> Leaf<'a> {
    #[verifier::type_invariant]
    spec fn valid(self) -> bool {
        is_leaf(self.name@)
    }

    /// The name.
    pub closed spec fn spec_name(self) -> Seq<u8> {
        self.name@
    }

    /// Validate `name` as a single component.
    pub fn new(name: &'a [u8]) -> (r: Result<Leaf<'a>, Error>)
        ensures
            match r {
                Ok(leaf) => is_leaf(name@) && leaf.spec_name() == name@,
                Err(e) => !is_leaf(name@) && e is Validation && e->Validation_0@ == leaf_refusal(
                    name@,
                ),
            },
    {
        if name.len() == 0 {
            return Err(Error::Validation("not a single path component (empty)".to_owned()));
        }
        if is_dot(name) {
            return Err(Error::Validation("not a single path component (`.`)".to_owned()));
        }
        if is_dot_dot(name) {
            return Err(Error::Validation("not a single path component (`..`)".to_owned()));
        }
        if contains_byte(name, SLASH) {
            return Err(Error::Validation("not a single path component (contains `/`)".to_owned()));
        }
        if contains_byte(name, 0) {
            return Err(Error::Validation("not a single path component (contains NUL)".to_owned()));
        }
        Ok(Leaf { name })
    }

    /// The name as an owned path payload. It holds no NUL, so it ends where
    /// it says.
    pub fn to_cstring(self) -> (r: Vec<u8>)
        ensures
            r@ == self.spec_name(),
            is_leaf(r@),
    {
        proof {
            use_type_invariant(&self);
        }
        copied(self.name)
    }
}

/// The name of a single component, as an owned path payload.
pub fn leaf_to_cstring(leaf: Leaf<'_>) -> (r: Vec<u8>)
    ensures
        r@ == leaf.spec_name(),
        is_leaf(r@),
{
    leaf.to_cstring()
}

/// A path that names its components plainly: relative, no `.`, no `..`, no
/// empty component, no NUL.
pub open spec fn is_plain_relative(p: Seq<u8>) -> bool {
    forall|i: int|
        0 <= i < bytes::split_on(p, SLASH).len() ==> is_leaf(
            #[trigger] bytes::split_on(p, SLASH)[i],
        )
}

/// Why a path does not name its components plainly.
#[derive(Clone, Copy, Debug, PartialEq, Eq, Structural)]
pub enum PathDefect {
    /// Some component is empty: the path is empty, absolute, or holds a
    /// doubled or trailing separator.
    EmptyComponent,
    Dot,
    DotDot,
    Nul,
}

/// The defect of one component, if it has one.
pub open spec fn component_defect(c: Seq<u8>) -> Option<PathDefect> {
    if c.len() == 0 {
        Some(PathDefect::EmptyComponent)
    } else if c == dot() {
        Some(PathDefect::Dot)
    } else if c == dot_dot() {
        Some(PathDefect::DotDot)
    } else if c.contains(0) {
        Some(PathDefect::Nul)
    } else {
        None
    }
}

/// The first component that is no plain name, if any.
pub open spec fn first_defect(pieces: Seq<Seq<u8>>) -> Option<PathDefect>
    decreases pieces.len(),
{
    if pieces.len() == 0 {
        None
    } else {
        match first_defect(pieces.drop_last()) {
            Some(d) => Some(d),
            None => component_defect(pieces.last()),
        }
    }
}

/// A path has no defect exactly if every component is a plain name.
pub proof fn law_defect_free_is_plain(p: Seq<u8>)
    ensures
        (first_defect(bytes::split_on(p, SLASH)) is None) == is_plain_relative(p),
{
    bytes::lemma_split_pieces(p, SLASH);
    let pieces = bytes::split_on(p, SLASH);
    lemma_first_defect(pieces);
    assert forall|i: int| 0 <= i < pieces.len() implies (component_defect(pieces[i]) is None)
        == is_leaf(#[trigger] pieces[i]) by {
        assert(!pieces[i].contains(SLASH));
    }
}

proof fn lemma_first_defect(pieces: Seq<Seq<u8>>)
    ensures
        (first_defect(pieces) is None) == (forall|i: int|
            0 <= i < pieces.len() ==> component_defect(#[trigger] pieces[i]) is None),
    decreases pieces.len(),
{
    if pieces.len() > 0 {
        let rest = pieces.drop_last();
        lemma_first_defect(rest);
        if first_defect(pieces) is None {
            assert forall|i: int| 0 <= i < pieces.len() implies component_defect(
                #[trigger] pieces[i],
            ) is None by {
                if i < rest.len() {
                    assert(rest[i] == pieces[i]);
                }
            }
        } else if first_defect(rest) is Some {
            let i = choose|i: int|
                0 <= i < rest.len() && component_defect(#[trigger] rest[i]) is Some;
            assert(pieces[i] == rest[i]);
        }
    }
}

fn defect_of(c: &[u8]) -> (r: Option<PathDefect>)
    ensures
        r == component_defect(c@),
{
    if c.len() == 0 {
        Some(PathDefect::EmptyComponent)
    } else if is_dot(c) {
        Some(PathDefect::Dot)
    } else if is_dot_dot(c) {
        Some(PathDefect::DotDot)
    } else if contains_byte(c, 0) {
        Some(PathDefect::Nul)
    } else {
        None
    }
}

/// The components of a path and the first defect among them.
pub fn relative_parts(path: &[u8]) -> (r: (Vec<Vec<u8>>, Option<PathDefect>))
    ensures
        bytes::views(r.0@) == bytes::split_on(path@, SLASH),
        r.0@.len() >= 1,
        r.1 == first_defect(bytes::split_on(path@, SLASH)),
        (r.1 is None) == is_plain_relative(path@),
{
    let parts = split(path, SLASH);
    let ghost pieces = bytes::split_on(path@, SLASH);
    let mut defect: Option<PathDefect> = None;
    let mut i: usize = 0;
    assert(pieces.subrange(0, 0) =~= Seq::<Seq<u8>>::empty());
    while i < parts.len()
        invariant
            0 <= i <= parts@.len(),
            bytes::views(parts@) == pieces,
            defect == first_defect(pieces.subrange(0, i as int)),
        decreases parts@.len() - i,
    {
        proof {
            let next = pieces.subrange(0, i + 1);
            assert(next.drop_last() =~= pieces.subrange(0, i as int));
            assert(next.last() == bytes::views(parts@)[i as int]);
        }
        if defect.is_none() {
            defect = defect_of(parts[i].as_slice());
        }
        i = i + 1;
    }
    proof {
        assert(pieces.subrange(0, pieces.len() as int) =~= pieces);
        law_defect_free_is_plain(path@);
    }
    (parts, defect)
}

/// Why `path` does not name its components plainly, or `None`.
pub fn relative_defect(path: &[u8]) -> (r: Option<PathDefect>)
    ensures
        r == first_defect(bytes::split_on(path@, SLASH)),
        (r is None) == is_plain_relative(path@),
{
    let (_, defect) = relative_parts(path);
    defect
}

/// A name is a single component by its bytes alone: at least one, none of them
/// a slash or NUL, and not one or two dots by themselves.
pub proof fn law_component_is_told_by_its_bytes(b: Seq<u8>)
    ensures
        is_leaf(b) <==> {
            &&& b.len() >= 1
            &&& forall|i: int| 0 <= i < b.len() ==> #[trigger] b[i] != 0x2f && b[i] != 0
            &&& !(b.len() == 1 && b[0] == 0x2e)
            &&& !(b.len() == 2 && b[0] == 0x2e && b[1] == 0x2e)
        },
{
    if b.len() == 1 && b[0] == 0x2e {
        assert(b =~= seq![0x2eu8]);
    }
    if b.len() == 2 && b[0] == 0x2e && b[1] == 0x2e {
        assert(b =~= seq![0x2eu8, 0x2eu8]);
    }
    if is_leaf(b) {
        assert forall|i: int| 0 <= i < b.len() implies #[trigger] b[i] != 0x2f && b[i] != 0 by {
            assert(b.contains(b[i]));
        }
    }
}

/// What a defect says of the piece that has it.
pub open spec fn shows(c: Seq<u8>, d: PathDefect) -> bool {
    match d {
        PathDefect::EmptyComponent => c.len() == 0,
        PathDefect::Dot => c == seq![0x2eu8],
        PathDefect::DotDot => c == seq![0x2eu8, 0x2eu8],
        PathDefect::Nul => c.contains(0),
    }
}

/// The defect reported of a path is that of its first piece that has one, and
/// says what is wrong with that piece.
pub proof fn law_first_defect_is_the_first(pieces: Seq<Seq<u8>>)
    ensures
        match first_defect(pieces) {
            None => forall|i: int, d: PathDefect|
                0 <= i < pieces.len() ==> !#[trigger] shows(pieces[i], d),
            Some(d) => exists|i: int|
                0 <= i < pieces.len() && #[trigger] shows(pieces[i], d) && first_defect(
                    pieces.take(i),
                ) is None,
        },
    decreases pieces.len(),
{
    lemma_first_defect(pieces);
    if pieces.len() > 0 {
        let rest = pieces.drop_last();
        law_first_defect_is_the_first(rest);
        if first_defect(rest) is Some {
            let d = first_defect(rest)->0;
            let i = choose|i: int|
                0 <= i < rest.len() && #[trigger] shows(rest[i], d) && first_defect(
                    rest.take(i),
                ) is None;
            assert(pieces[i] == rest[i]);
            assert(pieces.take(i) =~= rest.take(i));
            assert(shows(pieces[i], d));
        } else if first_defect(pieces) is Some {
            let i = pieces.len() - 1;
            assert(pieces[i] == pieces.last());
            assert(pieces.take(i) =~= rest);
            assert(shows(pieces[i], first_defect(pieces)->0));
        } else {
            assert forall|i: int, d: PathDefect|
                0 <= i < pieces.len() implies !#[trigger] shows(pieces[i], d) by {
                assert(component_defect(pieces[i]) is None);
            }
        }
    }
}

/// What a name that is no single component is told says what is wrong with it.
pub proof fn law_refused_name_is_told_why(b: Seq<u8>)
    requires
        !is_leaf(b),
    ensures
        b.len() == 0 ==> leaf_refusal(b) == "not a single path component (empty)"@,
        b == seq![0x2eu8] ==> leaf_refusal(b) == "not a single path component (`.`)"@,
        b == seq![0x2eu8, 0x2eu8] ==> leaf_refusal(b) == "not a single path component (`..`)"@,
        b.contains(0x2f) ==> leaf_refusal(b) == "not a single path component (contains `/`)"@,
        b.contains(0) && !b.contains(0x2f) ==> leaf_refusal(b)
            == "not a single path component (contains NUL)"@,
{
    if b == seq![0x2eu8] {
        assert(b.len() == 1);
    }
    if b.contains(0x2f) || b.contains(0) {
        if b == dot() {
            assert(b[0] == 0x2e);
        }
        if b == dot_dot() {
            assert(b[0] == 0x2e && b[1] == 0x2e);
        }
    }
    assert(dot().len() == 1 && dot_dot().len() == 2);
}

/// A path of components with a slash between each two is split into them again.
proof fn lemma_split_between(comps: Seq<Seq<u8>>)
    requires
        comps.len() > 0,
        forall|i: int| 0 <= i < comps.len() ==> !(#[trigger] comps[i]).contains(0x2f),
    ensures
        bytes::split_on(bytes::with_between(comps, 0x2f), SLASH) == comps,
    decreases comps.len(),
{
    let last = comps.last();
    assert(comps[comps.len() - 1] == last);
    bytes::lemma_split_one(last, 0x2f);
    if comps.len() == 1 {
        assert(comps =~= seq![last]);
    } else {
        let front = comps.drop_last();
        assert forall|i: int| 0 <= i < front.len() implies !(#[trigger] front[i]).contains(0x2f) by {
            assert(front[i] == comps[i]);
        }
        lemma_split_between(front);
        let head = bytes::with_between(front, 0x2f);
        assert(bytes::with_between(comps, 0x2f) =~= head.push(0x2f) + last);
        bytes::lemma_split_at(head, last, 0x2f);
        assert(comps =~= front + seq![last]);
    }
}

/// A path names its components plainly exactly if it is single components with
/// a slash between each two.
pub proof fn law_plain_path_is_components_between_slashes(comps: Seq<Seq<u8>>)
    requires
        comps.len() > 0,
        forall|i: int| 0 <= i < comps.len() ==> !(#[trigger] comps[i]).contains(0x2f),
    ensures
        is_plain_relative(bytes::with_between(comps, 0x2f)) <==> forall|i: int|
            0 <= i < comps.len() ==> is_leaf(#[trigger] comps[i]),
{
    lemma_split_between(comps);
}

} // verus!
