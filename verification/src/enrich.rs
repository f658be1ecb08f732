//! Reading what a listing was asked for of each entry. The reads go out
//! together and their outcomes are gathered afterwards, so the work is in
//! stages: what to request of a name, what came of that, what to read of an
//! open entry, and what the entry comes to.
use crate::errno::{Errno, Error};
use crate::file::{File, Statx};
use crate::listing::{
    EnrichSpec, Listed, QueryOptions, ENRICH_ACL, ENRICH_STATX, ENRICH_XATTR, ENRICH_XATTR_LIST,
};
use crate::bytes::copied;
use crate::names;
use crate::names::Leaf;
use crate::pending;
use crate::pending::{split_statx, FsPending};
use crate::policy::RawOpenHow;
use crate::sys::{DT_DIR, O_NOFOLLOW, O_NONBLOCK};
use crate::xattrs;
use crate::xattrs::{discover_names, pending_bytes, pending_discovered, DiscRead};
use vstd::prelude::*;

verus! {

/// The buffer an attribute is first read into.
pub const DISCOVER_BUF: usize = 4096;

/// The buffer an access control list is read into.
pub const ACL_BUF: usize = 65536;

/// What to request of a name first.
#[derive(Debug)]
pub struct Requested {
    /// Read its metadata by name.
    pub statx: bool,
    /// Open it.
    pub open: Option<RawOpenHow>,
}

/// Whether an entry's metadata is read by name at once: where it is wanted and
/// nothing else needs the entry open.
pub open spec fn statx_first(spec: EnrichSpec, name: Seq<u8>) -> bool {
    spec.has(ENRICH_STATX) && !spec.wants_fd() && names::is_leaf(name)
}

/// What to request of an entry first. An open neither follows a symlink nor
/// waits on a special file.
pub fn request(spec: EnrichSpec, name: &[u8]) -> (r: Requested)
    ensures
        r.statx == statx_first(spec, name@),
        r.open == (if spec.wants_fd() {
            Some(RawOpenHow { flags: O_NOFOLLOW | O_NONBLOCK, mode: 0, resolve: 0 })
        } else {
            None
        }),
        r.statx == (spec.bits & 0x1 != 0 && spec.bits & 0xe == 0 && names::is_leaf(name@)),
        r.open is Some == (spec.bits & 0xe != 0),
        r.open is Some ==> r.open->0 == (RawOpenHow { flags: 0x2_0800, mode: 0, resolve: 0 }),
{
    proof {
        lemma_flags(spec);
    }
    let fd = spec.needs_open();
    let statx = spec.contains(ENRICH_STATX) && !fd && Leaf::new(name).is_ok();
    let open = if fd {
        Some(RawOpenHow { flags: O_NOFOLLOW | O_NONBLOCK, mode: 0, resolve: 0 })
    } else {
        None
    };
    Requested { statx, open }
}

/// The flags, one by one.
pub proof fn lemma_flags(spec: EnrichSpec)
    ensures
        spec.has(ENRICH_STATX) == (spec.bits & 0x1 != 0),
        spec.has(ENRICH_XATTR) == (spec.bits & 0x2 != 0),
        spec.has(ENRICH_ACL) == (spec.bits & 0x4 != 0),
        spec.has(ENRICH_XATTR_LIST) == (spec.bits & 0x8 != 0),
        spec.wants_fd() == (spec.bits & 0xe != 0),
        O_NOFOLLOW | O_NONBLOCK == 0x2_0800,
{
    let b = spec.bits;
    assert((b & 0xe != 0) == (b & 0x2 != 0 || b & 0x4 != 0 || b & 0x8 != 0)) by (bit_vector);
    assert(0x2_0000u64 | 0x800u64 == 0x2_0800u64) by (bit_vector);
}

/// An entry after the first requests.
pub struct Opened<T> {
    pub item: Listed,
    /// Its metadata, where it was read by name.
    pub statx: Option<Statx>,
    pub statx_err: Option<Errno>,
    /// The entry, open, where that was wanted and allowed.
    pub file: Option<File<T>>,
}

/// Whether an entry is known to be of another device than its directory.
pub open spec fn cross_dev(dir_dev: Option<(u32, u32)>, st: Option<Statx>) -> bool {
    dir_dev is Some && st is Some && st->0.dev != dir_dev->0
}

/// [`cross_dev`].
pub fn is_cross_dev(dir_dev: Option<(u32, u32)>, st: &Option<Statx>) -> (r: bool)
    ensures
        r == cross_dev(dir_dev, *st),
{
    match (dir_dev, st) {
        (Some(dev), Some(st)) => st.dev.0 != dev.0 || st.dev.1 != dev.1,
        _ => false,
    }
}

/// The file that an open, if one was made, gave.
pub open spec fn file_of<T>(open: Option<FsPending<T>>) -> Option<File<T>> {
    match open {
        Some(p) => match p.outcome {
            Some(out) => if out.res is Ok {
                out.file
            } else {
                None
            },
            None => None,
        },
        None => None,
    }
}

/// `r` is what the first requests came to.
pub open spec fn opened_as<T>(
    item: Listed,
    statx: Option<FsPending<T>>,
    open: Option<FsPending<T>>,
    confined: bool,
    dir_dev: Option<(u32, u32)>,
    r: Option<Opened<T>>,
) -> bool {
    match r {
        None => confined && cross_dev(dir_dev, pending::statx_parts(statx).0),
        Some(o) => {
            &&& !(confined && cross_dev(dir_dev, pending::statx_parts(statx).0))
            &&& o.item == item
            &&& (o.statx, o.statx_err) == pending::statx_parts(statx)
            &&& o.file == file_of(open)
        },
    }
}

/// What the first requests came to; `None` drops an entry that is already
/// known to be of another device.
pub fn opened<T>(
    item: Listed,
    statx: Option<FsPending<T>>,
    open: Option<FsPending<T>>,
    confined: bool,
    dir_dev: Option<(u32, u32)>,
) -> (r: Option<Opened<T>>)
    ensures
        opened_as(item, statx, open, confined, dir_dev, r),
        match r {
            None => confined && cross_dev(dir_dev, pending::statx_parts(statx).0),
            Some(o) => {
                &&& !(confined && cross_dev(dir_dev, pending::statx_parts(statx).0))
                &&& o.item == item
                &&& (o.statx, o.statx_err) == pending::statx_parts(statx)
                &&& o.file == file_of(open)
            },
        },
{
    let (st, statx_err) = split_statx(statx);
    if confined && is_cross_dev(dir_dev, &st) {
        return None;
    }
    let file = match open {
        Some(p) => p.file(),
        None => None,
    };
    Some(Opened { item, statx: st, statx_err, file })
}

/// What to read of an entry.
#[derive(Clone, Copy, Debug, PartialEq, Eq, Structural)]
pub struct Reads {
    /// Its metadata, through the descriptor.
    pub fstatx: bool,
    /// The attributes named in the options.
    pub named: bool,
    /// The access control list.
    pub acl: bool,
    /// The attributes it lists.
    pub listed: bool,
}

/// What to read of an entry: nothing where it could not be opened.
pub open spec fn reads_of(spec: EnrichSpec, open: bool) -> Reads {
    Reads {
        fstatx: open && spec.has(ENRICH_STATX),
        named: open && spec.has(ENRICH_XATTR),
        acl: open && spec.has(ENRICH_ACL),
        listed: open && spec.has(ENRICH_XATTR_LIST),
    }
}

/// [`reads_of`].
pub fn reads<T>(spec: EnrichSpec, o: &Opened<T>) -> (r: Reads)
    ensures
        r == reads_of(spec, o.file is Some),
        r.fstatx == (o.file is Some && spec.bits & 0x1 != 0),
        r.named == (o.file is Some && spec.bits & 0x2 != 0),
        r.acl == (o.file is Some && spec.bits & 0x4 != 0),
        r.listed == (o.file is Some && spec.bits & 0x8 != 0),
{
    let open = o.file.is_some();
    Reads {
        fstatx: open && spec.contains(ENRICH_STATX),
        named: open && spec.contains(ENRICH_XATTR),
        acl: open && spec.contains(ENRICH_ACL),
        listed: open && spec.contains(ENRICH_XATTR_LIST),
    }
}

/// Whether an entry's metadata is to be read by name after all: it is wanted,
/// there is none yet, and none is coming through a descriptor. `coming` is
/// whether one is.
pub fn wants_statx_by_name<T>(spec: EnrichSpec, o: &Opened<T>, coming: bool) -> (r: bool)
    ensures
        r == (!coming && o.statx is None && spec.has(ENRICH_STATX) && names::is_leaf(o.item.name@)),
        r == (!coming && o.statx is None && spec.bits & 0x1 != 0 && names::is_leaf(o.item.name@)),
{
    !coming && o.statx.is_none() && spec.contains(ENRICH_STATX) && Leaf::new(
        o.item.name.as_slice(),
    ).is_ok()
}

/// Of the attributes an open entry lists, those to read: in a namespace wanted,
/// and not read under their own name already. `listed` is what the entry
/// listed, if it could; whether it could comes back with the names.
pub fn found(opts: &QueryOptions, listed: Option<Vec<Vec<u8>>>) -> (r: (Vec<Vec<u8>>, bool))
    ensures
        r.1 == (listed is Some),
        xattrs::strictly_sorted(r.0@),
        forall|x: Seq<u8>| #[trigger]
            xattrs::holds(r.0@, x) == (listed is Some && xattrs::holds(listed->0@, x)
                && xattrs::wanted(
                x,
                opts.xattr_ns,
                if opts.spec.has(ENRICH_XATTR) {
                    opts.xattr_names@
                } else {
                    Seq::empty()
                },
                if opts.spec.has(ENRICH_ACL) {
                    Some(opts.acl_name@)
                } else {
                    None
                },
            )),
        forall|x: Seq<u8>| #[trigger]
            xattrs::holds(r.0@, x) <==> {
                &&& listed is Some && xattrs::holds(listed->0@, x)
                &&& xattrs::namespace_bit(x) & opts.xattr_ns.bits != 0
                &&& opts.spec.bits & 0x2 == 0 || !xattrs::holds(opts.xattr_names@, x)
                &&& opts.spec.bits & 0x4 == 0 || opts.acl_name@ != x
            },
{
    proof {
        lemma_flags(opts.spec);
        assert forall|x: Seq<u8>| #[trigger] xattrs::namespace_bit(x) & opts.xattr_ns.bits
            != 0 implies xattrs::namespace_bit(x) != 0 by {
            let (b, w) = (xattrs::namespace_bit(x), opts.xattr_ns.bits);
            assert(b & w != 0 ==> b != 0) by (bit_vector);
        }
    }
    let none: Vec<Vec<u8>> = Vec::new();
    let explicit = if opts.spec.contains(ENRICH_XATTR) {
        &opts.xattr_names
    } else {
        &none
    };
    let fetched = if opts.spec.contains(ENRICH_ACL) {
        Some(&opts.acl_name)
    } else {
        None
    };
    discover_names(listed, opts.xattr_ns, explicit, fetched)
}

/// An attribute and the read of it, if one went out.
pub struct AttrRead<T> {
    pub name: Vec<u8>,
    pub pend: Option<FsPending<T>>,
}

/// An entry whose reads are out.
pub struct Reading<T> {
    pub item: Listed,
    pub statx: Option<Statx>,
    pub statx_err: Option<Errno>,
    /// The metadata still to come.
    pub statx_pending: Option<FsPending<T>>,
    pub file: Option<File<T>>,
    /// The attributes named in the options, in their order.
    pub xattrs: Vec<AttrRead<T>>,
    pub acl: Option<FsPending<T>>,
    /// The attributes the entry listed.
    pub discovered: Vec<AttrRead<T>>,
    /// Some listed attribute is missing.
    pub incomplete: bool,
}

/// Pair names with the reads of them.
fn paired<T>(names: Vec<Vec<u8>>, pends: Vec<Option<FsPending<T>>>) -> (r: Vec<AttrRead<T>>)
    requires
        names@.len() == pends@.len(),
    ensures
        r@ == Seq::new(names@.len(), |i: int| AttrRead { name: names@[i], pend: pends@[i] }),
{
    let ghost (n0, p0) = (names@, pends@);
    let mut names = names;
    let mut pends = pends;
    let mut rev: Vec<AttrRead<T>> = Vec::new();
    while names.len() > 0
        invariant
            names@.len() == pends@.len(),
            n0.len() == p0.len(),
            names@.len() + rev@.len() == n0.len(),
            forall|i: int| 0 <= i < names@.len() ==> #[trigger] names@[i] == n0[i],
            forall|i: int| 0 <= i < pends@.len() ==> #[trigger] pends@[i] == p0[i],
            forall|i: int|
                0 <= i < rev@.len() ==> #[trigger] rev@[i] == (AttrRead {
                    name: n0[n0.len() - 1 - i],
                    pend: p0[n0.len() - 1 - i],
                }),
        decreases names@.len(),
    {
        let name = names.pop().unwrap();
        let pend = pends.pop().unwrap();
        rev.push(AttrRead { name, pend });
    }
    let mut r: Vec<AttrRead<T>> = Vec::new();
    let ghost v = rev@;
    while rev.len() > 0
        invariant
            r@.len() + rev@.len() == v.len(),
            forall|i: int| 0 <= i < rev@.len() ==> #[trigger] rev@[i] == v[i],
            forall|i: int| 0 <= i < r@.len() ==> #[trigger] r@[i] == v[v.len() - 1 - i],
        decreases rev@.len(),
    {
        let e = rev.pop().unwrap();
        r.push(e);
    }
    assert(r@ =~= Seq::new(n0.len(), |i: int| AttrRead { name: n0[i], pend: p0[i] }));
    r
}

/// Whether a list misses a read.
fn misses_one<T>(pends: &Vec<Option<FsPending<T>>>) -> (r: bool)
    ensures
        r == exists|i: int| 0 <= i < pends@.len() && (#[trigger] pends@[i]) is None,
{
    let mut i: usize = 0;
    while i < pends.len()
        invariant
            0 <= i <= pends@.len(),
            forall|j: int| 0 <= j < i ==> (#[trigger] pends@[j]) is Some,
        decreases pends@.len() - i,
    {
        if pends[i].is_none() {
            assert(pends@[i as int] is None);
            return true;
        }
        i = i + 1;
    }
    false
}

/// What went out for an entry.
pub struct Sent<T> {
    /// Its metadata, through the descriptor or by name.
    pub statx: Option<FsPending<T>>,
    /// One for each attribute named in the options, where these are read.
    pub named: Vec<Option<FsPending<T>>>,
    pub acl: Option<FsPending<T>>,
    /// The attributes to read of those the entry lists, and whether it could
    /// list them, where they are to be read.
    pub found: Vec<Vec<u8>>,
    pub found_listed: bool,
    /// One for each of `found`.
    pub discovered: Vec<Option<FsPending<T>>>,
}

/// The named attributes of an entry: each keeps its place, with no read where
/// the entry is not open.
pub open spec fn named_reads<T>(
    opts: QueryOptions,
    named: Seq<Option<FsPending<T>>>,
    r: Seq<AttrRead<T>>,
) -> bool {
    if opts.spec.has(ENRICH_XATTR) {
        &&& r.len() == opts.xattr_names@.len()
        &&& forall|i: int|
            0 <= i < r.len() ==> (#[trigger] r[i]).name@ == opts.xattr_names@[i]@ && r[i].pend == (
            if i < named.len() {
                named[i]
            } else {
                None
            })
    } else {
        r.len() == 0
    }
}

/// `r` is the entry `o` with what went out for it.
pub open spec fn reading_as<T>(
    opts: QueryOptions,
    o: Opened<T>,
    sent: Sent<T>,
    r: Reading<T>,
) -> bool {
    &&& r.item == o.item
    &&& r.statx == o.statx
    &&& r.statx_err == o.statx_err
    &&& r.statx_pending == sent.statx
    &&& r.file == o.file
    &&& named_reads(opts, sent.named@, r.xattrs@)
    &&& r.acl == sent.acl
    &&& r.discovered@ == Seq::new(
        sent.found@.len(),
        |i: int| AttrRead { name: sent.found@[i], pend: sent.discovered@[i] },
    )
    &&& r.incomplete == (reads_of(opts.spec, o.file is Some).listed && !sent.found_listed
        || exists|i: int|
        0 <= i < sent.discovered@.len() && (#[trigger] sent.discovered@[i]) is None)
}

/// An entry whose reads are out.
pub fn reading<T>(opts: &QueryOptions, o: Opened<T>, sent: Sent<T>) -> (r: Reading<T>)
    requires
        sent.named@.len() == (if reads_of(opts.spec, o.file is Some).named {
            opts.xattr_names@.len()
        } else {
            0
        }),
        sent.found@.len() == sent.discovered@.len(),
    ensures
        reading_as(*opts, o, sent, r),
        r.item == o.item,
        r.statx == o.statx,
        r.statx_err == o.statx_err,
        r.statx_pending == sent.statx,
        r.file == o.file,
        named_reads(*opts, sent.named@, r.xattrs@),
        r.acl == sent.acl,
        r.discovered@ == Seq::new(
            sent.found@.len(),
            |i: int| AttrRead { name: sent.found@[i], pend: sent.discovered@[i] },
        ),
        r.incomplete == (reads_of(opts.spec, o.file is Some).listed && !sent.found_listed
            || exists|i: int|
            0 <= i < sent.discovered@.len() && (#[trigger] sent.discovered@[i]) is None),
{
    let unlisted = o.file.is_some() && opts.spec.contains(ENRICH_XATTR_LIST) && !sent.found_listed;
    let incomplete = unlisted || misses_one(&sent.discovered);
    let mut names: Vec<Vec<u8>> = Vec::new();
    let mut named = sent.named;
    let ghost went = named@;
    if opts.spec.contains(ENRICH_XATTR) {
        let mut i: usize = 0;
        while i < opts.xattr_names.len()
            invariant
                0 <= i <= opts.xattr_names@.len(),
                names@.len() == i,
                forall|j: int| 0 <= j < i ==> (#[trigger] names@[j])@ == opts.xattr_names@[j]@,
            decreases opts.xattr_names@.len() - i,
        {
            names.push(copied(opts.xattr_names[i].as_slice()));
            i = i + 1;
        }
        while named.len() < names.len()
            invariant
                went.len() <= named@.len() <= names@.len(),
                forall|j: int|
                    0 <= j < named@.len() ==> #[trigger] named@[j] == (if j < went.len() {
                        went[j]
                    } else {
                        None
                    }),
            decreases names@.len() - named@.len(),
        {
            named.push(None);
        }
    }
    let xattrs = paired(names, named);
    let discovered = paired(sent.found, sent.discovered);
    Reading {
        item: o.item,
        statx: o.statx,
        statx_err: o.statx_err,
        statx_pending: sent.statx,
        file: o.file,
        xattrs,
        acl: sent.acl,
        discovered,
        incomplete,
    }
}

/// What to answer for an entry whose device could not be read, under a
/// confined listing. One that may not be looked at, or is gone, is only left
/// out; anything else is the listing's own failure, since the entry might be
/// one to list.
pub open spec fn verdict(err: Option<Errno>) -> Option<Errno> {
    match err {
        Some(Errno::EACCES) => None,
        Some(Errno::EPERM) => None,
        Some(Errno::ENOENT) => None,
        Some(e) => Some(e),
        None => Some(Errno::ECONNABORTED),
    }
}

/// [`verdict`].
pub fn unknown_device_verdict(err: Option<Errno>) -> (r: Option<Errno>)
    ensures
        r == verdict(err),
{
    match err {
        Some(Errno::EACCES) | Some(Errno::EPERM) | Some(Errno::ENOENT) => None,
        Some(e) => Some(e),
        None => Some(Errno::ECONNABORTED),
    }
}

/// An attribute and what its first read came to.
pub struct AttrGot {
    pub name: Vec<u8>,
    pub read: DiscRead,
}

/// An entry that is listed, once values that outgrew their buffers are
/// refetched.
pub struct Settled<T> {
    pub name: Vec<u8>,
    pub is_dir: bool,
    pub statx: Option<Statx>,
    pub file: Option<File<T>>,
    pub xattrs: Vec<AttrGot>,
    pub acl: Option<Vec<u8>>,
    pub discovered: Vec<AttrGot>,
    pub incomplete: bool,
}

/// What becomes of an entry.
pub enum Judged<T> {
    /// It is left out.
    Dropped,
    /// It is left out and the batch fails.
    Refused(Errno),
    Kept(Settled<T>),
}

/// What a read says of its attribute.
pub open spec fn classified<T>(pend: Option<FsPending<T>>, read: DiscRead) -> bool {
    match pend {
        None => read is Drop,
        Some(p) => match read {
            DiscRead::Got(v) => xattrs::value_read(p) == Some(v@),
            DiscRead::Grow => xattrs::outgrew(p),
            DiscRead::Drop => xattrs::value_read(p) is None && !xattrs::outgrew(p),
        },
    }
}

/// `got` is what the reads `sent` came to.
pub open spec fn all_classified<T>(sent: Seq<AttrRead<T>>, got: Seq<AttrGot>) -> bool {
    &&& got.len() == sent.len()
    &&& forall|i: int|
        0 <= i < sent.len() ==> (#[trigger] got[i]).name == sent[i].name && classified(
            sent[i].pend,
            got[i].read,
        )
}

fn classify_all<T>(sent: Vec<AttrRead<T>>) -> (r: Vec<AttrGot>)
    ensures
        all_classified(sent@, r@),
{
    let ghost all = sent@;
    let mut rest = sent;
    let mut rev: Vec<AttrGot> = Vec::new();
    while rest.len() > 0
        invariant
            rest@.len() + rev@.len() == all.len(),
            forall|i: int| 0 <= i < rest@.len() ==> #[trigger] rest@[i] == all[i],
            forall|i: int|
                0 <= i < rev@.len() ==> (#[trigger] rev@[i]).name == all[all.len() - 1 - i].name
                    && classified(all[all.len() - 1 - i].pend, rev@[i].read),
        decreases rest@.len(),
    {
        let a = rest.pop().unwrap();
        let read = match a.pend {
            Some(p) => pending_discovered(p),
            None => DiscRead::Drop,
        };
        rev.push(AttrGot { name: a.name, read });
    }
    let ghost v = rev@;
    let mut r: Vec<AttrGot> = Vec::new();
    while rev.len() > 0
        invariant
            r@.len() + rev@.len() == v.len(),
            forall|i: int| 0 <= i < rev@.len() ==> #[trigger] rev@[i] == v[i],
            forall|i: int| 0 <= i < r@.len() ==> #[trigger] r@[i] == v[v.len() - 1 - i],
        decreases rev@.len(),
    {
        let e = rev.pop().unwrap();
        r.push(e);
    }
    assert forall|i: int| 0 <= i < all.len() implies (#[trigger] r@[i]).name == all[i].name
        && classified(all[i].pend, r@[i].read) by {
        assert(r@[i] == v[v.len() - 1 - i]);
    }
    r
}

/// The metadata of an entry: through its descriptor, or else by name.
pub open spec fn final_statx<T>(p: Reading<T>) -> Option<Statx> {
    match pending::statx_parts(p.statx_pending).0 {
        Some(st) => Some(st),
        None => p.statx,
    }
}

/// Why there is none, as far as that is known.
pub open spec fn final_statx_err<T>(p: Reading<T>) -> Option<Errno> {
    match pending::statx_parts(p.statx_pending).1 {
        Some(e) => Some(e),
        None => p.statx_err,
    }
}

/// Whether a listing that is confined to its directory's device has to know
/// an entry's.
pub open spec fn checks_device(opts: QueryOptions) -> bool {
    opts.same_device_only && opts.spec.has(ENRICH_STATX)
}

/// `s` is what a kept entry comes to: on its directory's device, where the
/// listing is confined to it, and with what its reads gave.
pub open spec fn kept_as<T>(
    opts: QueryOptions,
    dir_dev: Option<(u32, u32)>,
    p: Reading<T>,
    s: Settled<T>,
) -> bool {
    &&& checks_device(opts) ==> final_statx(p) is Some && !cross_dev(
        dir_dev,
        final_statx(p),
    )
    &&& s.name == p.item.name
    &&& s.is_dir == (match final_statx(p) {
        Some(st) => st.spec_is_dir(),
        None => p.item.dtype == DT_DIR,
    })
    &&& s.statx == final_statx(p)
    &&& s.file == p.file
    &&& all_classified(p.xattrs@, s.xattrs@)
    &&& match s.acl {
        Some(v) => p.acl is Some && xattrs::value_read(p.acl->0) == Some(v@),
        None => p.acl is Some ==> xattrs::value_read(p.acl->0) is None,
    }
    &&& all_classified(p.discovered@, s.discovered@)
    &&& s.incomplete == p.incomplete
}

/// `r` is what becomes of the entry `p`.
pub open spec fn judged_as<T>(
    opts: QueryOptions,
    dir_dev: Option<(u32, u32)>,
    p: Reading<T>,
    r: Judged<T>,
) -> bool {
    match r {
        Judged::Dropped => checks_device(opts) && (if final_statx(p) is None {
            verdict(final_statx_err(p)) is None
        } else {
            cross_dev(dir_dev, final_statx(p))
        }),
        Judged::Refused(e) => checks_device(opts) && final_statx(p) is None && verdict(
            final_statx_err(p),
        ) == Some(e),
        Judged::Kept(s) => kept_as(opts, dir_dev, p, s),
    }
}

/// Decide on an entry. A confined listing keeps only what it knows to be of
/// its own device.
pub fn judge<T>(opts: &QueryOptions, dir_dev: Option<(u32, u32)>, p: Reading<T>) -> (r: Judged<T>)
    ensures
        judged_as(*opts, dir_dev, p, r),
        match r {
            Judged::Dropped => checks_device(*opts) && (if final_statx(p) is None {
                verdict(final_statx_err(p)) is None
            } else {
                cross_dev(dir_dev, final_statx(p))
            }),
            Judged::Refused(e) => checks_device(*opts) && final_statx(p) is None && verdict(
                final_statx_err(p),
            ) == Some(e),
            Judged::Kept(s) => kept_as(*opts, dir_dev, p, s),
        },
{
    let (fd_statx, fd_err) = split_statx(p.statx_pending);
    let statx = match fd_statx {
        Some(st) => Some(st),
        None => p.statx,
    };
    let statx_err = match fd_err {
        Some(e) => Some(e),
        None => p.statx_err,
    };
    if opts.same_device_only && opts.spec.contains(ENRICH_STATX) {
        if statx.is_none() {
            return match unknown_device_verdict(statx_err) {
                Some(e) => Judged::Refused(e),
                None => Judged::Dropped,
            };
        }
        if is_cross_dev(dir_dev, &statx) {
            return Judged::Dropped;
        }
    }
    let is_dir = match &statx {
        Some(st) => st.is_dir(),
        None => p.item.dtype == DT_DIR,
    };
    let xattrs = classify_all(p.xattrs);
    let acl = match p.acl {
        Some(a) => pending_bytes(a),
        None => None,
    };
    let discovered = classify_all(p.discovered);
    Judged::Kept(
        Settled {
            name: p.item.name,
            is_dir,
            statx,
            file: p.file,
            xattrs,
            acl,
            discovered,
            incomplete: p.incomplete,
        },
    )
}

/// A confined listing holds nothing of another device: an entry that was kept,
/// with the directory's device known, is of that device.
pub proof fn law_confined_listing_stays_on_its_device<T>(
    opts: QueryOptions,
    dev: (u32, u32),
    s: Settled<T>,
    p: Reading<T>,
)
    requires
        checks_device(opts),
        kept_as(opts, Some(dev), p, s),
    ensures
        s.statx is Some,
        s.statx->0.dev == dev,
{
}

/// One entry of a listing.
#[derive(Debug)]
pub struct DirEntry {
    pub name: Vec<u8>,
    pub is_dir: bool,
    /// Its metadata, where that was asked for and could be read.
    pub statx: Option<Statx>,
    /// Attributes and their values: those asked for by name first, each with
    /// or without a value, then those found, each with one.
    pub xattrs: Vec<(Vec<u8>, Option<Vec<u8>>)>,
    pub acl: Option<Vec<u8>>,
    /// Some attribute that was to be found may be missing.
    pub xattrs_incomplete: bool,
}

/// The value an attribute has in the end: `grown` is what its refetch gave,
/// where it needed one.
pub open spec fn final_value(read: DiscRead, grown: Option<Vec<u8>>) -> Option<Vec<u8>> {
    match read {
        DiscRead::Got(v) => Some(v),
        DiscRead::Grow => grown,
        DiscRead::Drop => None,
    }
}

/// Attributes and their values in the end.
pub open spec fn values_of(attrs: Seq<AttrGot>, grown: Seq<Option<Vec<u8>>>) -> Seq<
    (Vec<u8>, Option<Vec<u8>>),
> {
    Seq::new(attrs.len(), |i: int| (attrs[i].name, final_value(attrs[i].read, grown[i])))
}

/// Those that have a value.
pub open spec fn with_value(s: Seq<(Vec<u8>, Option<Vec<u8>>)>) -> Seq<
    (Vec<u8>, Option<Vec<u8>>),
> {
    s.filter(|a: (Vec<u8>, Option<Vec<u8>>)| a.1 is Some)
}

/// Whether some refetch gave nothing.
pub open spec fn lost_one(attrs: Seq<AttrGot>, grown: Seq<Option<Vec<u8>>>) -> bool {
    exists|i: int| 0 <= i < attrs.len() && (#[trigger] attrs[i]).read is Grow && grown[i] is None
}

fn settle_all(attrs: Vec<AttrGot>, grown: Vec<Option<Vec<u8>>>) -> (r: (
    Vec<(Vec<u8>, Option<Vec<u8>>)>,
    bool,
))
    requires
        attrs@.len() == grown@.len(),
    ensures
        r.0@ == values_of(attrs@, grown@),
        r.1 == lost_one(attrs@, grown@),
{
    let ghost (a0, g0) = (attrs@, grown@);
    let mut attrs = attrs;
    let mut grown = grown;
    let mut lost = false;
    let mut rev: Vec<(Vec<u8>, Option<Vec<u8>>)> = Vec::new();
    while attrs.len() > 0
        invariant
            attrs@.len() == grown@.len(),
            a0.len() == g0.len(),
            attrs@.len() + rev@.len() == a0.len(),
            forall|i: int| 0 <= i < attrs@.len() ==> #[trigger] attrs@[i] == a0[i],
            forall|i: int| 0 <= i < grown@.len() ==> #[trigger] grown@[i] == g0[i],
            forall|i: int|
                0 <= i < rev@.len() ==> #[trigger] rev@[i] == values_of(a0, g0)[a0.len() - 1 - i],
            lost == exists|i: int|
                attrs@.len() <= i < a0.len() && (#[trigger] a0[i]).read is Grow && g0[i] is None,
        decreases attrs@.len(),
    {
        let ghost n = attrs@.len() - 1;
        let a = attrs.pop().unwrap();
        let g = grown.pop().unwrap();
        assert(a == a0[n] && g == g0[n]);
        let value = match a.read {
            DiscRead::Got(v) => Some(v),
            DiscRead::Grow => {
                if g.is_none() {
                    lost = true;
                }
                g
            },
            DiscRead::Drop => None,
        };
        rev.push((a.name, value));
    }
    let ghost v = rev@;
    let mut r: Vec<(Vec<u8>, Option<Vec<u8>>)> = Vec::new();
    while rev.len() > 0
        invariant
            r@.len() + rev@.len() == v.len(),
            forall|i: int| 0 <= i < rev@.len() ==> #[trigger] rev@[i] == v[i],
            forall|i: int| 0 <= i < r@.len() ==> #[trigger] r@[i] == v[v.len() - 1 - i],
        decreases rev@.len(),
    {
        let e = rev.pop().unwrap();
        r.push(e);
    }
    assert(r@ =~= values_of(a0, g0));
    (r, lost)
}

/// `r` is the entry that was decided on as `s`, with what the refetches of its
/// attributes gave.
pub open spec fn finished_as<T>(
    s: Settled<T>,
    grown: Seq<Option<Vec<u8>>>,
    grown_found: Seq<Option<Vec<u8>>>,
    r: DirEntry,
) -> bool {
    &&& r.name == s.name
    &&& r.is_dir == s.is_dir
    &&& r.statx == s.statx
    &&& r.acl == s.acl
    &&& r.xattrs@ == values_of(s.xattrs@, grown) + with_value(
        values_of(s.discovered@, grown_found),
    )
    &&& r.xattrs_incomplete == (s.incomplete || lost_one(s.discovered@, grown_found))
}

/// The entry, `grown` and `grown_found` being what the refetches of its
/// attributes gave, one for each, needed or not.
pub fn finish_entry<T>(
    s: Settled<T>,
    grown: Vec<Option<Vec<u8>>>,
    grown_found: Vec<Option<Vec<u8>>>,
) -> (r: DirEntry)
    requires
        grown@.len() == s.xattrs@.len(),
        grown_found@.len() == s.discovered@.len(),
    ensures
        finished_as(s, grown@, grown_found@, r),
{
    let (mut xattrs, _) = settle_all(s.xattrs, grown);
    let ghost named = xattrs@;
    let (mut rest, lost) = settle_all(s.discovered, grown_found);
    let ghost found = rest@;
    let mut kept: Vec<(Vec<u8>, Option<Vec<u8>>)> = Vec::new();
    let ghost mut tail: Seq<(Vec<u8>, Option<Vec<u8>>)> = Seq::empty();
    proof {
        reveal(Seq::filter);
        assert(rest@ + tail =~= found);
        assert(kept@ =~= with_value(tail).reverse());
    }
    while rest.len() > 0
        invariant
            rest@ + tail == found,
            kept@ == with_value(tail).reverse(),
        decreases rest@.len(),
    {
        let ghost (r0, t0, k0) = (rest@, tail, kept@);
        let a = rest.pop().unwrap();
        let ghost one = seq![a];
        proof {
            let p = |x: (Vec<u8>, Option<Vec<u8>>)| x.1 is Some;
            tail = one + t0;
            assert(rest@ + tail =~= r0 + t0);
            Seq::filter_distributes_over_add(one, t0, p);
            reveal(Seq::filter);
            assert(one.drop_last() =~= Seq::<(Vec<u8>, Option<Vec<u8>>)>::empty());
            assert(Seq::<(Vec<u8>, Option<Vec<u8>>)>::empty().filter(p) =~= Seq::<
                (Vec<u8>, Option<Vec<u8>>),
            >::empty());
            if p(a) {
                assert(one.filter(p) =~= one);
                assert(with_value(tail).reverse() =~= k0.push(a));
            } else {
                assert(one.filter(p) =~= Seq::<(Vec<u8>, Option<Vec<u8>>)>::empty());
                assert(with_value(tail) =~= with_value(t0));
            }
        }
        if a.1.is_some() {
            kept.push(a);
        }
    }
    assert(tail =~= found);
    let ghost k = kept@;
    while kept.len() > 0
        invariant
            xattrs@ == named + k.reverse().take(k.len() - kept@.len()),
            kept@.len() <= k.len(),
            forall|i: int| 0 <= i < kept@.len() ==> #[trigger] kept@[i] == k[i],
        decreases kept@.len(),
    {
        let ghost n = k.len() - kept@.len();
        let e = kept.pop().unwrap();
        assert(e == k.reverse()[n]);
        xattrs.push(e);
        assert(xattrs@ =~= named + k.reverse().take(n + 1));
    }
    assert(k.reverse().take(k.len() as int) =~= with_value(found));
    DirEntry {
        name: s.name,
        is_dir: s.is_dir,
        statx: s.statx,
        xattrs,
        acl: s.acl,
        xattrs_incomplete: s.incomplete || lost,
    }
}

/// The entries of a batch as they are decided on.
pub struct Batch {
    pub entries: Vec<DirEntry>,
    /// What the first entry that fails the batch fails it with.
    pub refused: Option<Errno>,
}

impl Batch {
    pub fn new() -> (r: Batch)
        ensures
            r.entries@.len() == 0,
            r.refused is None,
    {
        Batch { entries: Vec::new(), refused: None }
    }

    /// The batch `old` once an entry was decided on: one that is kept comes
    /// last, one that is dropped leaves no trace, and the first that fails the
    /// batch says why.
    pub open spec fn takes<T>(
        &self,
        old: Batch,
        j: Judged<T>,
        grown: Seq<Option<Vec<u8>>>,
        grown_found: Seq<Option<Vec<u8>>>,
    ) -> bool {
        match j {
            Judged::Dropped => *self == old,
            Judged::Refused(e) => self.entries == old.entries && self.refused == (
            if old.refused is None {
                Some(e)
            } else {
                old.refused
            }),
            Judged::Kept(s) => {
                &&& self.refused == old.refused
                &&& self.entries@.len() == old.entries@.len() + 1
                &&& self.entries@.drop_last() == old.entries@
                &&& finished_as(s, grown, grown_found, self.entries@.last())
            },
        }
    }

    /// An entry was decided on; `grown` and `grown_found` are what the
    /// refetches of its attributes gave, where it is kept.
    pub fn take<T>(
        &mut self,
        j: Judged<T>,
        grown: Vec<Option<Vec<u8>>>,
        grown_found: Vec<Option<Vec<u8>>>,
    )
        requires
            j matches Judged::Kept(s) ==> grown@.len() == s.xattrs@.len() && grown_found@.len()
                == s.discovered@.len(),
        ensures
            final(self).takes(*old(self), j, grown@, grown_found@),
    {
        match j {
            Judged::Dropped => {},
            Judged::Refused(e) => {
                if self.refused.is_none() {
                    self.refused = Some(e);
                }
            },
            Judged::Kept(s) => {
                let e = finish_entry(s, grown, grown_found);
                self.entries.push(e);
                assert(self.entries@.drop_last() =~= old(self).entries@);
            },
        }
    }

    pub fn finish(self) -> (r: Result<Vec<DirEntry>, Error>)
        ensures
            r == (match self.refused {
                Some(e) => Err::<Vec<DirEntry>, Error>(Error::Errno(e)),
                None => Ok(self.entries),
            }),
    {
        match self.refused {
            Some(e) => Err(Error::Errno(e)),
            None => Ok(self.entries),
        }
    }
}

/// Where the entries that were kept stand among those decided on, in order.
pub open spec fn kept_at<T>(js: Seq<Judged<T>>) -> Seq<int>
    decreases js.len(),
{
    if js.len() == 0 {
        Seq::empty()
    } else if js.last() is Kept {
        kept_at(js.drop_last()).push(js.len() - 1)
    } else {
        kept_at(js.drop_last())
    }
}

/// What the first of the entries decided on that fails its batch fails it with.
pub open spec fn first_refusal<T>(js: Seq<Judged<T>>) -> Option<Errno>
    decreases js.len(),
{
    if js.len() == 0 {
        None
    } else {
        match js[0] {
            Judged::Refused(e) => Some(e),
            _ => first_refusal(js.drop_first()),
        }
    }
}

proof fn lemma_first_refusal_of_more<T>(js: Seq<Judged<T>>)
    requires
        js.len() > 0,
    ensures
        first_refusal(js) == (match (first_refusal(js.drop_last()), js.last()) {
            (None, Judged::Refused(e)) => Some(e),
            (r, _) => r,
        }),
    decreases js.len(),
{
    let less = js.drop_last();
    if less.len() > 0 {
        assert(less[0] == js[0]);
        if js[0] !is Refused {
            lemma_first_refusal_of_more(js.drop_first());
            assert(js.drop_first().drop_last() =~= less.drop_first());
            assert(js.drop_first().last() == js.last());
        }
    } else {
        assert(js.drop_first() =~= less);
        assert(js[0] == js.last());
    }
}

/// A batch loses no entry, adds none and moves none: once every entry was
/// decided on, one after the other, it holds exactly those that were kept, in
/// their order; and what it fails with is what the first of them to fail it
/// gave. `states` are the batch before, between and after them, `grown` what
/// the refetches gave for each.
pub proof fn law_batch_answers_every_entry<T>(
    states: Seq<Batch>,
    js: Seq<Judged<T>>,
    grown: Seq<(Seq<Option<Vec<u8>>>, Seq<Option<Vec<u8>>>)>,
)
    requires
        states.len() == js.len() + 1,
        grown.len() == js.len(),
        states[0].entries@.len() == 0,
        states[0].refused is None,
        forall|i: int|
            0 <= i < js.len() ==> states[i + 1].takes(
                states[i],
                #[trigger] js[i],
                grown[i].0,
                grown[i].1,
            ),
    ensures
        states.last().refused == first_refusal(js),
        states.last().entries@.len() == kept_at(js).len(),
        forall|k: int|
            0 <= k < kept_at(js).len() ==> {
                let i = #[trigger] kept_at(js)[k];
                &&& 0 <= i < js.len()
                &&& js[i] is Kept
                &&& finished_as(
                    js[i]->Kept_0,
                    grown[i].0,
                    grown[i].1,
                    states.last().entries@[k],
                )
            },
    decreases js.len(),
{
    if js.len() > 0 {
        let n = js.len() - 1;
        let less = js.drop_last();
        let before = states.drop_last();
        assert forall|i: int| 0 <= i < less.len() implies before[i + 1].takes(
            before[i],
            #[trigger] less[i],
            grown.drop_last()[i].0,
            grown.drop_last()[i].1,
        ) by {
            assert(less[i] == js[i]);
        }
        law_batch_answers_every_entry(before, less, grown.drop_last());
        lemma_first_refusal_of_more(js);
        let (b, a) = (states[n], states[n + 1]);
        assert(before.last() == b);
        assert(a.takes(b, js[n], grown[n].0, grown[n].1));
        assert(a == states.last());
        assert forall|k: int| 0 <= k < kept_at(js).len() implies {
            let i = #[trigger] kept_at(js)[k];
            &&& 0 <= i < js.len()
            &&& js[i] is Kept
            &&& finished_as(js[i]->Kept_0, grown[i].0, grown[i].1, a.entries@[k])
        } by {
            if k < kept_at(less).len() {
                let i = kept_at(less)[k];
                assert(kept_at(js)[k] == i);
                assert(js[i] == less[i]);
                if js[n] is Kept {
                    assert(a.entries@.drop_last()[k] == a.entries@[k]);
                }
            }
        }
    }
}

/// `v` is the value the reply `p` brought: the bytes the kernel says it filled
/// of the buffer, and none where it failed, never came, or says nonsense.
pub open spec fn brought<T>(p: FsPending<T>, v: Option<Vec<u8>>) -> bool {
    match p.outcome {
        Some(out) => {
            let whole = out.res is Ok && out.bufs@.len() > 0 && 0 <= out.res->Ok_0
                <= out.bufs@[0]@.len();
            &&& v is Some == whole
            &&& whole ==> {
                &&& v->0@.len() == out.res->Ok_0
                &&& forall|i: int| 0 <= i < v->0@.len() ==> v->0@[i] == out.bufs@[0]@[i]
            }
        },
        None => v is None,
    }
}

/// The stages of one open entry that is kept, one after the other: what its
/// reads were, what went out, and what it came to.
pub open spec fn kept_through<T>(
    opts: QueryOptions,
    dir_dev: Option<(u32, u32)>,
    o: Opened<T>,
    sent: Sent<T>,
    p: Reading<T>,
    s: Settled<T>,
    grown: Seq<Option<Vec<u8>>>,
    grown_found: Seq<Option<Vec<u8>>>,
    e: DirEntry,
) -> bool {
    &&& reading_as(opts, o, sent, p)
    &&& judged_as(opts, dir_dev, p, Judged::Kept(s))
    &&& grown.len() == s.xattrs@.len()
    &&& grown_found.len() == s.discovered@.len()
    &&& finished_as(s, grown, grown_found, e)
}

/// A listing that asks for access control lists gives each entry the one that
/// reading it brought; one that does not gives none. `answer` is the reply to
/// the read, which went out exactly where it was called for.
pub proof fn law_acl_asked_for_is_given<T>(
    opts: QueryOptions,
    dir_dev: Option<(u32, u32)>,
    o: Opened<T>,
    sent: Sent<T>,
    p: Reading<T>,
    s: Settled<T>,
    grown: Seq<Option<Vec<u8>>>,
    grown_found: Seq<Option<Vec<u8>>>,
    e: DirEntry,
    answer: FsPending<T>,
)
    requires
        kept_through(opts, dir_dev, o, sent, p, s, grown, grown_found, e),
        sent.acl == (if reads_of(opts.spec, o.file is Some).acl {
            Some(answer)
        } else {
            None
        }),
    ensures
        o.file is Some && opts.spec.bits & 0x4 != 0 ==> brought(answer, e.acl),
        o.file is None || opts.spec.bits & 0x4 == 0 ==> e.acl is None,
{
    lemma_flags(opts.spec);
}

/// A listing that asks for metadata gives each entry what reading it brought,
/// and knows a directory by it; one that does not goes by the stream's type.
/// `answer` is the reply to the read through the descriptor, which went out
/// exactly where it was called for.
pub proof fn law_metadata_asked_for_is_given<T>(
    opts: QueryOptions,
    dir_dev: Option<(u32, u32)>,
    o: Opened<T>,
    sent: Sent<T>,
    p: Reading<T>,
    s: Settled<T>,
    grown: Seq<Option<Vec<u8>>>,
    grown_found: Seq<Option<Vec<u8>>>,
    e: DirEntry,
    answer: FsPending<T>,
)
    requires
        kept_through(opts, dir_dev, o, sent, p, s, grown, grown_found, e),
        sent.statx == (if reads_of(opts.spec, o.file is Some).fstatx {
            Some(answer)
        } else {
            None
        }),
    ensures
        e.name == o.item.name,
        o.file is Some && opts.spec.bits & 0x1 != 0 ==> match answer.outcome {
            Some(out) => if out.res is Ok && out.stat is Some {
                e.statx == out.stat
            } else {
                e.statx == o.statx
            },
            None => e.statx == o.statx,
        },
        o.file is None || opts.spec.bits & 0x1 == 0 ==> e.statx == o.statx,
        e.statx is Some ==> e.is_dir == (e.statx->0.mode & 0xf000 == 0x4000),
        e.statx is None ==> e.is_dir == (o.item.dtype == 4),
{
    lemma_flags(opts.spec);
}

/// Metadata read by name is the entry's, where none came through a
/// descriptor: `first` is the reply to the read by name.
pub proof fn law_metadata_by_name_is_given<T>(
    opts: QueryOptions,
    dir_dev: Option<(u32, u32)>,
    item: Listed,
    first: Option<FsPending<T>>,
    open: Option<FsPending<T>>,
    o: Opened<T>,
    sent: Sent<T>,
    p: Reading<T>,
    s: Settled<T>,
    grown: Seq<Option<Vec<u8>>>,
    grown_found: Seq<Option<Vec<u8>>>,
    e: DirEntry,
)
    requires
        opened_as(item, first, open, opts.same_device_only, dir_dev, Some(o)),
        kept_through(opts, dir_dev, o, sent, p, s, grown, grown_found, e),
        sent.statx is None,
    ensures
        e.name == item.name,
        match first {
            Some(p) => match p.outcome {
                Some(out) => e.statx == (if out.res is Ok {
                    out.stat
                } else {
                    None
                }),
                None => e.statx is None,
            },
            None => e.statx is None,
        },
{
}

/// A listing that asks for attributes by name gives each entry one for each
/// name, in that order, with what reading that name brought; a value that
/// outgrew its buffer is what its refetch gave. One that does not gives none
/// but those found.
pub proof fn law_attributes_asked_for_are_given<T>(
    opts: QueryOptions,
    dir_dev: Option<(u32, u32)>,
    o: Opened<T>,
    sent: Sent<T>,
    p: Reading<T>,
    s: Settled<T>,
    grown: Seq<Option<Vec<u8>>>,
    grown_found: Seq<Option<Vec<u8>>>,
    e: DirEntry,
    answers: Seq<FsPending<T>>,
)
    requires
        kept_through(opts, dir_dev, o, sent, p, s, grown, grown_found, e),
        answers.len() == opts.xattr_names@.len(),
        sent.named@ == (if reads_of(opts.spec, o.file is Some).named {
            Seq::new(answers.len(), |i: int| Some(answers[i]))
        } else {
            Seq::empty()
        }),
    ensures
        opts.spec.bits & 0x2 != 0 ==> {
            &&& e.xattrs@.len() >= opts.xattr_names@.len()
            &&& forall|i: int|
                0 <= i < opts.xattr_names@.len() ==> {
                    let (name, value) = #[trigger] e.xattrs@[i];
                    &&& name@ == opts.xattr_names@[i]@
                    &&& o.file is None ==> value is None
                    &&& o.file is Some ==> {
                        ||| brought(answers[i], value)
                        ||| answers[i].outcome is Some && answers[i].outcome->0.res == Err::<
                            i32,
                            Errno,
                        >(Errno::ERANGE) && value == grown[i]
                    }
                }
        },
        forall|k: int|
            (if opts.spec.bits & 0x2 != 0 {
                opts.xattr_names@.len() as int
            } else {
                0
            }) <= k < e.xattrs@.len() ==> (#[trigger] e.xattrs@[k]).1 is Some,
{
    lemma_flags(opts.spec);
    let named = values_of(s.xattrs@, grown);
    let found = values_of(s.discovered@, grown_found);
    assert(named.len() == s.xattrs@.len());
    if opts.spec.bits & 0x2 != 0 {
        assert forall|i: int| 0 <= i < opts.xattr_names@.len() implies {
            let (name, value) = #[trigger] e.xattrs@[i];
            &&& name@ == opts.xattr_names@[i]@
            &&& o.file is None ==> value is None
            &&& o.file is Some ==> {
                ||| brought(answers[i], value)
                ||| answers[i].outcome is Some && answers[i].outcome->0.res == Err::<i32, Errno>(
                    Errno::ERANGE,
                ) && value == grown[i]
            }
        } by {
            assert(e.xattrs@[i] == named[i]);
            assert(p.xattrs@[i].name@ == opts.xattr_names@[i]@);
            assert(s.xattrs@[i].name == p.xattrs@[i].name);
            if o.file is Some {
                assert(sent.named@[i] == Some(answers[i]));
                assert(p.xattrs@[i].pend == Some(answers[i]));
            }
        }
    }
    assert forall|k: int| named.len() <= k < e.xattrs@.len() implies (
    #[trigger] e.xattrs@[k]).1 is Some by {
        let kept = with_value(found);
        assert(e.xattrs@[k] == kept[k - named.len()]);
        assert(kept.contains(kept[k - named.len()]));
        let f = |a: (Vec<u8>, Option<Vec<u8>>)| a.1 is Some;
        found.lemma_filter_contains_rev(f, kept[k - named.len()]);
    }
}

/// `v` is the value of an attribute whose read is `reply`: what the reply
/// brought, or what the refetch gave of a value that outgrew its buffer.
pub open spec fn value_in_the_end<T>(
    reply: Option<FsPending<T>>,
    grown: Option<Vec<u8>>,
    v: Option<Vec<u8>>,
) -> bool {
    match reply {
        None => v is None,
        Some(p) => brought(p, v) || (p.outcome is Some && p.outcome->0.res == Err::<i32, Errno>(
            Errno::ERANGE,
        ) && v == grown),
    }
}

/// The attributes found of an entry: each that was read and brought a value is
/// there with it, behind those asked for by name, and nothing else is. `named`
/// is how many were asked for by name.
pub proof fn law_attributes_found_are_given<T>(
    opts: QueryOptions,
    dir_dev: Option<(u32, u32)>,
    o: Opened<T>,
    sent: Sent<T>,
    p: Reading<T>,
    s: Settled<T>,
    grown: Seq<Option<Vec<u8>>>,
    grown_found: Seq<Option<Vec<u8>>>,
    e: DirEntry,
)
    requires
        kept_through(opts, dir_dev, o, sent, p, s, grown, grown_found, e),
        sent.found@.len() == sent.discovered@.len(),
    ensures
        ({
            let named = if opts.spec.bits & 0x2 != 0 {
                opts.xattr_names@.len() as int
            } else {
                0
            };
            &&& forall|k: int|
                named <= k < e.xattrs@.len() ==> exists|j: int|
                    0 <= j < sent.found@.len() && (#[trigger] e.xattrs@[k]).0
                        == #[trigger] sent.found@[j] && e.xattrs@[k].1 is Some
                        && value_in_the_end(
                        sent.discovered@[j],
                        grown_found[j],
                        e.xattrs@[k].1,
                    )
            &&& forall|j: int|
                0 <= j < sent.found@.len() ==> value_in_the_end(
                    #[trigger] sent.discovered@[j],
                    grown_found[j],
                    None,
                ) || exists|k: int|
                    named <= k < e.xattrs@.len() && (#[trigger] e.xattrs@[k]).0 == sent.found@[j]
                        && value_in_the_end(
                        sent.discovered@[j],
                        grown_found[j],
                        e.xattrs@[k].1,
                    )
            &&& (e.xattrs_incomplete <==> (o.file is Some && opts.spec.bits & 0x8 != 0
                && !sent.found_listed) || (exists|j: int|
                0 <= j < sent.discovered@.len() && (#[trigger] sent.discovered@[j]) is None) || (
            exists|j: int|
                0 <= j < sent.discovered@.len() && (#[trigger] sent.discovered@[j]) is Some
                    && xattrs::outgrew(sent.discovered@[j]->0) && grown_found[j] is None))
        }),
{
    lemma_flags(opts.spec);
    let named = values_of(s.xattrs@, grown);
    let found = values_of(s.discovered@, grown_found);
    let kept = with_value(found);
    let f = |a: (Vec<u8>, Option<Vec<u8>>)| a.1 is Some;
    assert(named.len() == s.xattrs@.len());
    assert(e.xattrs@ == named + kept);
    assert forall|j: int| 0 <= j < sent.found@.len() implies {
        &&& (#[trigger] found[j]).0 == sent.found@[j]
        &&& s.discovered@[j].name == sent.found@[j]
        &&& classified(sent.discovered@[j], s.discovered@[j].read)
    } by {
        assert(p.discovered@[j] == AttrRead { name: sent.found@[j], pend: sent.discovered@[j] });
        assert(s.discovered@[j].name == p.discovered@[j].name);
    }
    assert forall|k: int| named.len() <= k < e.xattrs@.len() implies exists|j: int|
        0 <= j < sent.found@.len() && (#[trigger] e.xattrs@[k]).0 == #[trigger] sent.found@[j]
            && e.xattrs@[k].1 is Some && value_in_the_end(
            sent.discovered@[j],
            grown_found[j],
            e.xattrs@[k].1,
        ) by {
        let x = kept[k - named.len()];
        assert(e.xattrs@[k] == x);
        assert(kept.contains(x));
        found.lemma_filter_contains_rev(f, x);
        let j = choose|j: int| 0 <= j < found.len() && found[j] == x;
        assert(found[j].0 == sent.found@[j]);
    }
    assert forall|j: int| 0 <= j < sent.found@.len() implies value_in_the_end(
        #[trigger] sent.discovered@[j],
        grown_found[j],
        None,
    ) || exists|k: int|
        named.len() <= k < e.xattrs@.len() && (#[trigger] e.xattrs@[k]).0 == sent.found@[j]
            && value_in_the_end(sent.discovered@[j], grown_found[j], e.xattrs@[k].1) by {
        let x = found[j];
        assert(x.0 == sent.found@[j]);
        if x.1 is Some {
            assert(f(x));
            assert(found.contains(x));
            assert(kept.contains(x));
            let i = choose|i: int| 0 <= i < kept.len() && kept[i] == x;
            assert(e.xattrs@[named.len() + i] == x);
        }
    }
    assert(lost_one(s.discovered@, grown_found) <==> exists|j: int|
        0 <= j < sent.discovered@.len() && (#[trigger] sent.discovered@[j]) is Some
            && xattrs::outgrew(sent.discovered@[j]->0) && grown_found[j] is None) by {
        if lost_one(s.discovered@, grown_found) {
            let i = choose|i: int|
                0 <= i < s.discovered@.len() && (#[trigger] s.discovered@[i]).read is Grow
                    && grown_found[i] is None;
            assert(found[i].0 == sent.found@[i]);
            assert(sent.discovered@[i] is Some);
        }
        if exists|j: int|
            0 <= j < sent.discovered@.len() && (#[trigger] sent.discovered@[j]) is Some
                && xattrs::outgrew(sent.discovered@[j]->0) && grown_found[j] is None {
            let j = choose|j: int|
                0 <= j < sent.discovered@.len() && (#[trigger] sent.discovered@[j]) is Some
                    && xattrs::outgrew(sent.discovered@[j]->0) && grown_found[j] is None;
            assert(found[j].0 == sent.found@[j]);
            assert(s.discovered@[j].read is Grow);
        }
    }
}

/// An entry is left out only by a listing that is confined to a device and
/// asks for metadata: because it is of another device, or may not be looked
/// at, or is gone. Where its metadata could not be read for another reason the
/// listing fails with that reason.
pub proof fn law_entry_is_left_out_for_its_device<T>(
    opts: QueryOptions,
    dir_dev: Option<(u32, u32)>,
    p: Reading<T>,
    j: Judged<T>,
)
    requires
        judged_as(opts, dir_dev, p, j),
    ensures
        !(opts.same_device_only && opts.spec.bits & 0x1 != 0) ==> j is Kept,
        opts.same_device_only && opts.spec.bits & 0x1 != 0 ==> match final_statx(p) {
            Some(st) => {
                &&& j is Kept || j is Dropped
                &&& j is Kept <==> match dir_dev {
                    Some((major, minor)) => st.dev.0 == major && st.dev.1 == minor,
                    None => true,
                }
            },
            None => match final_statx_err(p) {
                Some(e) => if e.code() == 1 || e.code() == 2 || e.code() == 13 {
                    j is Dropped || (e is Other && j == Judged::<T>::Refused(e))
                } else {
                    j == Judged::<T>::Refused(e)
                },
                None => j == Judged::<T>::Refused(Errno::ECONNABORTED),
            },
        },
{
    lemma_flags(opts.spec);
}

/// Where the kept entries stand: in order, each once, and at every entry that
/// was kept.
pub proof fn law_kept_entries_keep_their_order<T>(js: Seq<Judged<T>>)
    ensures
        forall|k: int|
            0 <= k < kept_at(js).len() ==> 0 <= #[trigger] kept_at(js)[k] < js.len()
                && js[kept_at(js)[k]] is Kept,
        forall|k: int, l: int|
            0 <= k < l < kept_at(js).len() ==> #[trigger] kept_at(js)[k] < #[trigger] kept_at(js)[l],
        forall|i: int|
            0 <= i < js.len() && (#[trigger] js[i]) is Kept ==> kept_at(js).contains(i),
    decreases js.len(),
{
    if js.len() > 0 {
        let less = js.drop_last();
        law_kept_entries_keep_their_order(less);
        let (at, was) = (kept_at(js), kept_at(less));
        let n = js.len() - 1;
        assert forall|k: int| 0 <= k < at.len() implies 0 <= #[trigger] at[k] < js.len()
            && js[at[k]] is Kept by {
            if k < was.len() {
                assert(at[k] == was[k]);
                assert(js[was[k]] == less[was[k]]);
            }
        }
        assert forall|k: int, l: int| 0 <= k < l < at.len() implies #[trigger] at[k]
            < #[trigger] at[l] by {
            assert(at[k] == was[k]);
            if l < was.len() {
                assert(at[l] == was[l]);
            }
        }
        assert forall|i: int| 0 <= i < js.len() && (#[trigger] js[i]) is Kept implies at.contains(
            i,
        ) by {
            if i < n {
                assert(less[i] == js[i]);
                assert(was.contains(i));
                let k = choose|k: int| 0 <= k < was.len() && was[k] == i;
                assert(at[k] == i);
            } else {
                assert(at[was.len() as int] == n);
            }
        }
    }
}

/// A batch fails with what the first of its entries that fails it gave, and
/// fails only if one does.
pub proof fn law_first_refusal_is_the_first<T>(js: Seq<Judged<T>>, i: int)
    requires
        0 <= i <= js.len(),
        forall|k: int| 0 <= k < i ==> !((#[trigger] js[k]) is Refused),
    ensures
        i == js.len() ==> first_refusal(js) is None,
        i < js.len() && js[i] is Refused ==> first_refusal(js) == Some(js[i]->Refused_0),
    decreases i,
{
    if i > 0 {
        let rest = js.drop_first();
        assert(!(js[0] is Refused));
        assert forall|k: int| 0 <= k < i - 1 implies !((#[trigger] rest[k]) is Refused) by {
            assert(rest[k] == js[k + 1]);
        }
        law_first_refusal_is_the_first(rest, i - 1);
        if i < js.len() {
            assert(rest[i - 1] == js[i]);
        }
    }
}

/// The entry's file is the one its open made, where that succeeded; and an
/// entry is dropped before anything is read of it only if the listing is
/// confined and it is known to be of another device.
pub proof fn law_opened_entry_has_the_file_opened<T>(
    item: Listed,
    statx: Option<FsPending<T>>,
    open: Option<FsPending<T>>,
    confined: bool,
    dir_dev: Option<(u32, u32)>,
    r: Option<Opened<T>>,
)
    requires
        opened_as(item, statx, open, confined, dir_dev, r),
    ensures
        r is None <==> {
            &&& confined
            &&& dir_dev is Some
            &&& statx is Some && statx->0.outcome is Some && statx->0.outcome->0.res is Ok
            &&& statx->0.outcome->0.stat is Some
            &&& statx->0.outcome->0.stat->0.dev != dir_dev->0
        },
        r is Some ==> {
            let opened = open is Some && open->0.outcome is Some && open->0.outcome->0.res is Ok;
            &&& r->0.item == item
            &&& opened ==> r->0.file == open->0.outcome->0.file
            &&& !opened ==> r->0.file is None
        },
{
}

/// Why an entry's metadata is missing: what the read through its descriptor
/// failed with, that its loop is gone, or, where none went out or it gave no
/// reason, what the read by name failed with.
pub proof fn law_missing_metadata_has_its_reason<T>(p: Reading<T>)
    ensures
        match p.statx_pending {
            Some(reply) => match reply.outcome {
                Some(out) => final_statx_err(p) == (if out.res is Err {
                    Some(out.res->Err_0)
                } else {
                    p.statx_err
                }),
                None => final_statx_err(p) is Some && final_statx_err(p)->0.code() == 103,
            },
            None => final_statx_err(p) == p.statx_err,
        },
        match p.statx_pending {
            Some(reply) => reply.outcome is Some && reply.outcome->0.res is Ok
                && reply.outcome->0.stat is Some ==> final_statx(p) == reply.outcome->0.stat,
            None => final_statx(p) == p.statx,
        },
{
}

} // verus!
