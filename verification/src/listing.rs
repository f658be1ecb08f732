//! Listing one directory: what to list and how, the entries read from its
//! stream, their order, and the batches they are handed out in.
use crate::bytes::{copied, starts_with};
use crate::errno::{Errno, Error};
use crate::names;
use crate::names::{is_dot, is_dot_dot, Leaf};
use crate::order;
use crate::order::{rank_entries, Rank};
use crate::sort;
use crate::sort::{cut_point, sort_by_key, Keyed};
use crate::sys::{DT_DIR, DT_REG, DT_UNKNOWN};
use crate::xattrs::{XattrNamespaces, NS_USER};
use std::collections::VecDeque;
use vstd::prelude::*;

verus! {

/// What a listing reads of each entry.
#[derive(Clone, Copy, Debug, PartialEq, Eq, Structural)]
pub struct EnrichSpec {
    pub bits: u8,
}

/// Metadata.
pub const ENRICH_STATX: u8 = 0b0001;

/// The extended attributes named in the options.
pub const ENRICH_XATTR: u8 = 0b0010;

/// The access control list.
pub const ENRICH_ACL: u8 = 0b0100;

/// Every extended attribute of the namespaces wanted, as the entry lists
/// them.
pub const ENRICH_XATTR_LIST: u8 = 0b1000;

impl EnrichSpec {
    /// Whether `self` holds the flag `bit`.
    pub open spec fn has(self, bit: u8) -> bool {
        self.bits & bit != 0
    }

    /// Nothing but names and types.
    pub fn empty() -> (r: EnrichSpec)
        ensures
            r.bits == 0,
    {
        EnrichSpec { bits: 0 }
    }

    pub fn contains(self, bit: u8) -> (r: bool)
        ensures
            r == self.has(bit),
    {
        self.bits & bit != 0
    }

    /// Whether reading an entry needs it open.
    pub open spec fn wants_fd(self) -> bool {
        self.has(ENRICH_XATTR) || self.has(ENRICH_ACL) || self.has(ENRICH_XATTR_LIST)
    }

    /// [`EnrichSpec::wants_fd`].
    pub fn needs_open(self) -> (r: bool)
        ensures
            r == self.wants_fd(),
    {
        self.contains(ENRICH_XATTR) || self.contains(ENRICH_ACL) || self.contains(
            ENRICH_XATTR_LIST,
        )
    }
}

/// The order entries come in.
#[derive(Clone, Copy, Debug, PartialEq, Eq, Structural)]
pub enum Order {
    /// As the stream has them: nothing is held back to sort.
    Readdir,
    /// By name, in byte order.
    ByName,
    /// As their full paths compare: a directory as though its name already
    /// carried the separator that follows it.
    ByPathBytes,
}

impl Default for Order {
    fn default() -> (r: Order)
        ensures
            r == Order::Readdir,
    {
        Order::Readdir
    }
}

/// The metadata fields read by default.
pub const STATX_BASIC_STATS: u32 = 0x7ff;

/// The metadata field that tells a directory.
pub const STATX_TYPE: u32 = 0x1;

/// What to list and how.
#[derive(Debug)]
pub struct QueryOptions {
    /// What to read of each entry.
    pub spec: EnrichSpec,
    /// The attributes to read where `spec` asks for attributes by name.
    pub xattr_names: Vec<Vec<u8>>,
    /// The namespaces to read where `spec` asks for those listed.
    pub xattr_ns: XattrNamespaces,
    /// The attribute that holds the access control list.
    pub acl_name: Vec<u8>,
    /// Entries per batch; at least one.
    pub clump: usize,
    /// Leave out entries of another device than the directory's own.
    pub same_device_only: bool,
    /// The metadata fields to read.
    pub statx_mask: u32,
    pub order: Order,
    /// Only names that begin with this.
    pub name_prefix: Option<Vec<u8>>,
    /// Only entries whose key is after this. No meaning in the stream's own
    /// order.
    pub start_after: Option<Vec<u8>>,
}

impl Default for QueryOptions {
    fn default() -> (r: QueryOptions)
        ensures
            r.spec.bits == 0,
            r.xattr_names@.len() == 0,
            r.xattr_ns.bits == NS_USER,
            r.acl_name@.len() == 0,
            r.clump == 1,
            !r.same_device_only,
            r.statx_mask == STATX_BASIC_STATS,
            r.order == Order::Readdir,
            r.name_prefix is None,
            r.start_after is None,
    {
        QueryOptions {
            spec: EnrichSpec::empty(),
            xattr_names: Vec::new(),
            xattr_ns: XattrNamespaces { bits: NS_USER },
            acl_name: Vec::new(),
            clump: 1,
            same_device_only: false,
            statx_mask: STATX_BASIC_STATS,
            order: Order::Readdir,
            name_prefix: None,
            start_after: None,
        }
    }
}

/// The bytes of an optional byte string.
pub open spec fn opt_bytes(o: Option<Vec<u8>>) -> Option<Seq<u8>> {
    match o {
        Some(v) => Some(v@),
        None => None,
    }
}

/// A copy of an optional byte string.
pub fn copied_opt(o: &Option<Vec<u8>>) -> (r: Option<Vec<u8>>)
    ensures
        opt_bytes(r) == opt_bytes(*o),
{
    match o {
        Some(v) => Some(copied(v.as_slice())),
        None => None,
    }
}

/// A copy of a list of byte strings.
pub fn copied_list(l: &Vec<Vec<u8>>) -> (r: Vec<Vec<u8>>)
    ensures
        r@.len() == l@.len(),
        forall|i: int| 0 <= i < l@.len() ==> (#[trigger] r@[i])@ == l@[i]@,
{
    let mut r: Vec<Vec<u8>> = Vec::new();
    let mut i: usize = 0;
    while i < l.len()
        invariant
            0 <= i <= l@.len(),
            r@.len() == i,
            forall|j: int| 0 <= j < i ==> (#[trigger] r@[j])@ == l@[j]@,
        decreases l@.len() - i,
    {
        r.push(copied(l[i].as_slice()));
        i = i + 1;
    }
    r
}

impl QueryOptions {
    /// Whether entries are ordered as their full paths compare.
    pub open spec fn by_path(&self) -> bool {
        self.order == Order::ByPathBytes
    }

    /// The options of `self` and `o` read the same of an entry.
    pub open spec fn reads_as(&self, o: QueryOptions) -> bool {
        &&& self.spec == o.spec
        &&& self.xattr_names@.len() == o.xattr_names@.len()
        &&& forall|i: int|
            0 <= i < o.xattr_names@.len() ==> (#[trigger] self.xattr_names@[i])@
                == o.xattr_names@[i]@
        &&& self.xattr_ns == o.xattr_ns
        &&& self.acl_name@ == o.acl_name@
        &&& self.clump == o.clump
        &&& self.same_device_only == o.same_device_only
        &&& self.statx_mask == o.statx_mask
    }

    /// The same options with another order, prefix and place to start.
    pub fn at_level(
        &self,
        order: Order,
        name_prefix: Option<Vec<u8>>,
        start_after: Option<Vec<u8>>,
    ) -> (r: QueryOptions)
        ensures
            r.reads_as(*self),
            r.order == order,
            r.name_prefix == name_prefix,
            r.start_after == start_after,
            r.spec.bits == self.spec.bits,
            r.xattr_names@.len() == self.xattr_names@.len(),
            forall|i: int|
                0 <= i < r.xattr_names@.len() ==> (#[trigger] r.xattr_names@[i])@
                    == self.xattr_names@[i]@,
            r.xattr_ns.bits == self.xattr_ns.bits,
            r.acl_name@ == self.acl_name@,
            r.clump == self.clump,
            r.same_device_only == self.same_device_only,
            r.statx_mask == self.statx_mask,
    {
        QueryOptions {
            spec: self.spec,
            xattr_names: copied_list(&self.xattr_names),
            xattr_ns: self.xattr_ns,
            acl_name: copied(self.acl_name.as_slice()),
            clump: self.clump,
            same_device_only: self.same_device_only,
            statx_mask: self.statx_mask,
            order,
            name_prefix,
            start_after,
        }
    }
}

/// Every single thing that one listing reads of an entry, the other does.
pub open spec fn same_reads(a: QueryOptions, b: QueryOptions) -> bool {
    &&& forall|bit: u8| #![auto] (a.spec.bits & bit != 0) == (b.spec.bits & bit != 0)
    &&& a.xattr_names@.len() == b.xattr_names@.len()
    &&& forall|i: int|
        0 <= i < a.xattr_names@.len() ==> (#[trigger] a.xattr_names@[i])@ == b.xattr_names@[i]@
    &&& forall|bit: u8| #![auto] (a.xattr_ns.bits & bit != 0) == (b.xattr_ns.bits & bit != 0)
    &&& a.acl_name@ == b.acl_name@
    &&& a.statx_mask == b.statx_mask
    &&& a.same_device_only == b.same_device_only
    &&& a.clump == b.clump
}

/// Options that read as others do read every single thing they do.
pub proof fn law_reads_as_is_every_part(a: QueryOptions, b: QueryOptions)
    requires
        a.reads_as(b),
    ensures
        same_reads(a, b),
{
}

/// An entry as the stream has it: its name and the type it reports.
#[derive(Debug)]
pub struct Listed {
    pub name: Vec<u8>,
    pub dtype: u8,
}

impl Listed {
    /// Whether the stream reports a directory.
    pub open spec fn is_dir(&self) -> bool {
        self.dtype == DT_DIR
    }
}

impl Keyed for Listed {
    open spec fn key(&self, by_path: bool) -> Seq<u8> {
        order::path_key(self.name@, by_path && self.dtype == DT_DIR)
    }

    fn rank_with(&self, other: &Self, by_path: bool) -> (r: Rank) {
        rank_entries(
            self.name.as_slice(),
            by_path && self.dtype == DT_DIR,
            other.name.as_slice(),
            by_path && other.dtype == DT_DIR,
        )
    }

    fn rank_against(&self, key: &[u8], by_path: bool) -> (r: Rank) {
        rank_entries(self.name.as_slice(), by_path && self.dtype == DT_DIR, key, false)
    }
}

/// Whether a name read from the stream is listed: it is neither `.` nor `..`,
/// and begins with the prefix.
pub open spec fn admitted(name: Seq<u8>, prefix: Option<Seq<u8>>) -> bool {
    &&& name != names::dot()
    &&& name != names::dot_dot()
    &&& prefix is Some ==> prefix->0.is_prefix_of(name)
}

/// The entries listed of those read, in their order.
pub open spec fn admits(read: Seq<Listed>, prefix: Option<Seq<u8>>) -> Seq<Listed> {
    read.filter(|e: Listed| admitted(e.name@, prefix))
}

/// A run of reads from a directory's stream.
pub struct ClumpReader {
    pub prefix: Option<Vec<u8>>,
    /// How many entries to list.
    pub limit: usize,
    pub out: Vec<Listed>,
    /// Every entry read.
    pub read: Ghost<Seq<Listed>>,
}

impl ClumpReader {
    /// What is listed is what the prefix admits of what was read.
    pub open spec fn wf(&self) -> bool {
        &&& self.out@ == admits(self.read@, opt_bytes(self.prefix))
        &&& self.out@.len() <= self.limit
    }

    pub fn new(prefix: Option<Vec<u8>>, limit: usize) -> (r: ClumpReader)
        ensures
            r.wf(),
            r.prefix == prefix,
            r.limit == limit,
            r.read@.len() == 0,
    {
        let r = ClumpReader { prefix, limit, out: Vec::new(), read: Ghost(Seq::empty()) };
        proof {
            reveal(Seq::filter);
            assert(r.out@ =~= admits(r.read@, opt_bytes(r.prefix)));
        }
        r
    }

    /// Whether to read on.
    pub fn wants_more(&self) -> (r: bool)
        ensures
            r == (self.out@.len() < self.limit),
    {
        self.out.len() < self.limit
    }

    /// Take an entry the stream gave.
    pub fn offer(&mut self, name: Vec<u8>, dtype: u8)
        requires
            old(self).wf(),
            old(self).out@.len() < old(self).limit,
        ensures
            final(self).wf(),
            final(self).prefix == old(self).prefix,
            final(self).limit == old(self).limit,
            final(self).read@ == old(self).read@.push(Listed { name, dtype }),
    {
        let e = Listed { name, dtype };
        let fits = match &self.prefix {
            Some(p) => starts_with(e.name.as_slice(), p.as_slice()),
            None => true,
        };
        let keep = !is_dot(e.name.as_slice()) && !is_dot_dot(e.name.as_slice()) && fits;
        let ghost grown = self.read@.push(e);
        proof {
            reveal(Seq::filter);
            assert(grown.drop_last() =~= self.read@);
            assert(grown.last() == e);
            assert(keep == admitted(e.name@, opt_bytes(self.prefix)));
        }
        self.read = Ghost(grown);
        if keep {
            self.out.push(e);
        }
        assert(self.out@ =~= admits(grown, opt_bytes(self.prefix)));
    }

    /// The stream gave no entry and left this error number: 0 is the end of
    /// the directory.
    pub fn ended(self, errno: i32) -> (r: Result<Vec<Listed>, Error>)
        ensures
            if errno == 0 {
                r == Ok::<Vec<Listed>, Error>(self.out)
            } else {
                r == Err::<Vec<Listed>, Error>(Error::Errno(Errno::of_code(errno)))
            },
    {
        if errno == 0 {
            Ok(self.out)
        } else {
            Err(Error::Errno(Errno::from_raw(errno)))
        }
    }

    /// The run is full.
    pub fn full(self) -> (r: Vec<Listed>)
        ensures
            r == self.out,
    {
        self.out
    }
}

/// Whether an entry's type has to be asked for: the stream does not know it,
/// and the name can be asked about.
pub open spec fn type_unknown(e: Listed) -> bool {
    e.dtype == DT_UNKNOWN && names::is_leaf(e.name@)
}

/// The entries whose type is to be asked for, by position.
pub fn unknown_types(all: &Vec<Listed>) -> (r: Vec<usize>)
    ensures
        forall|j: int| 0 <= j < r@.len() ==> #[trigger] r@[j] < all@.len() && type_unknown(
            all@[r@[j] as int],
        ),
        forall|j: int, k: int| 0 <= j < k < r@.len() ==> #[trigger] r@[j] < #[trigger] r@[k],
        forall|i: int|
            0 <= i < all@.len() && type_unknown(#[trigger] all@[i]) ==> exists|j: int|
                0 <= j < r@.len() && #[trigger] r@[j] == i,
{
    let mut r: Vec<usize> = Vec::new();
    let mut i: usize = 0;
    while i < all.len()
        invariant
            0 <= i <= all@.len(),
            forall|j: int| 0 <= j < r@.len() ==> #[trigger] r@[j] < i && type_unknown(
                all@[r@[j] as int],
            ),
            forall|j: int, k: int| 0 <= j < k < r@.len() ==> #[trigger] r@[j] < #[trigger] r@[k],
            forall|k: int|
                0 <= k < i && type_unknown(#[trigger] all@[k]) ==> exists|j: int|
                    0 <= j < r@.len() && #[trigger] r@[j] == k,
        decreases all@.len() - i,
    {
        let ghost r0 = r@;
        let ask = all[i].dtype == DT_UNKNOWN && Leaf::new(all[i].name.as_slice()).is_ok();
        assert(ask == type_unknown(all@[i as int]));
        if ask {
            r.push(i);
        }
        proof {
            assert forall|k: int| 0 <= k < i + 1 && type_unknown(
                #[trigger] all@[k],
            ) implies exists|j: int| 0 <= j < r@.len() && #[trigger] r@[j] == k by {
                if k < i {
                    let j = choose|j: int| 0 <= j < r0.len() && #[trigger] r0[j] == k;
                    assert(r@[j] == k);
                } else {
                    assert(r@[r0.len() as int] == k);
                }
            }
        }
        i = i + 1;
    }
    r
}

/// An entry's type once it was asked for: an answer replaces the stream's, and
/// where none came the entry stays of unknown type, so orders as a file.
pub open spec fn typed(e: Listed, answer: Option<bool>) -> Listed {
    Listed {
        dtype: match answer {
            Some(true) => DT_DIR,
            Some(false) => DT_REG,
            None => e.dtype,
        },
        ..e
    }
}

/// Enter what asking came to: `answers[j]` is whether entry `asked[j]` is a
/// directory.
pub fn resolve_types(all: Vec<Listed>, asked: &Vec<usize>, answers: &Vec<Option<bool>>) -> (r: Vec<
    Listed,
>)
    requires
        asked@.len() == answers@.len(),
        forall|j: int| 0 <= j < asked@.len() ==> #[trigger] asked@[j] < all@.len(),
        forall|j: int, k: int|
            0 <= j < k < asked@.len() ==> #[trigger] asked@[j] < #[trigger] asked@[k],
    ensures
        r@.len() == all@.len(),
        forall|j: int|
            0 <= j < asked@.len() ==> r@[#[trigger] asked@[j] as int] == typed(
                all@[asked@[j] as int],
                answers@[j],
            ),
        forall|i: int|
            0 <= i < all@.len() && (forall|j: int|
                0 <= j < asked@.len() ==> #[trigger] asked@[j] != i) ==> #[trigger] r@[i]
                == all@[i],
{
    let mut out = all;
    let mut j: usize = 0;
    while j < asked.len()
        invariant
            0 <= j <= asked@.len(),
            asked@.len() == answers@.len(),
            out@.len() == all@.len(),
            forall|k: int| 0 <= k < asked@.len() ==> #[trigger] asked@[k] < all@.len(),
            forall|k: int, l: int|
                0 <= k < l < asked@.len() ==> #[trigger] asked@[k] < #[trigger] asked@[l],
            forall|k: int|
                0 <= k < j ==> out@[#[trigger] asked@[k] as int] == typed(
                    all@[asked@[k] as int],
                    answers@[k],
                ),
            forall|i: int|
                0 <= i < all@.len() && (forall|k: int|
                    0 <= k < j ==> #[trigger] asked@[k] != i) ==> #[trigger] out@[i] == all@[i],
        decreases asked@.len() - j,
    {
        let at = asked[j];
        let ghost o0 = out@;
        assert(o0[at as int] == all@[at as int]) by {
            assert forall|k: int| 0 <= k < j implies #[trigger] asked@[k] != at by {
                assert(asked@[k] < asked@[j as int]);
            }
        }
        match answers[j] {
            Some(true) => {
                out[at].dtype = DT_DIR;
            },
            Some(false) => {
                out[at].dtype = DT_REG;
            },
            None => {},
        }
        assert(out@ =~= o0.update(at as int, typed(o0[at as int], answers@[j as int])));
        proof {
            assert forall|i: int|
                0 <= i < all@.len() && (forall|k: int|
                    0 <= k < j + 1 ==> #[trigger] asked@[k] != i) implies #[trigger] out@[i]
                == all@[i] by {
                assert(asked@[j as int] != i);
            }
        }
        j = j + 1;
    }
    out
}

/// Whether an entry with the key `k` is past the place a listing starts at.
pub open spec fn past(k: Seq<u8>, after: Option<Seq<u8>>) -> bool {
    after is Some ==> order::rank(k, after->0) == Rank::After
}

/// `r` is what of `all` is past `after`, sorted by key, entries of the same key
/// in the order read.
pub open spec fn arranged(
    r: Seq<Listed>,
    all: Seq<Listed>,
    by_path: bool,
    after: Option<Seq<u8>>,
) -> bool {
    &&& sort::sorted(r, by_path)
    &&& forall|k: Seq<u8>| #[trigger]
        sort::with_key(r, by_path, k) == (if past(k, after) {
            sort::with_key(all, by_path, k)
        } else {
            Seq::empty()
        })
}

/// Sort a directory's entries and cut off those at or before `after`.
pub fn arrange(all: Vec<Listed>, by_path: bool, after: &Option<Vec<u8>>) -> (r: Vec<Listed>)
    ensures
        arranged(r@, all@, by_path, opt_bytes(*after)),
{
    let ghost given = all@;
    let mut s = sort_by_key(all, by_path);
    match after {
        None => s,
        Some(key) => {
            let ghost full = s@;
            let cut = cut_point(&s, key.as_slice(), by_path);
            let tail = s.split_off(cut);
            let ghost head = s@;
            assert(full =~= head + tail@);
            proof {
                assert forall|i: int, j: int| 0 <= i < j < tail@.len() implies order::rank(
                    (#[trigger] tail@[i]).key(by_path),
                    (#[trigger] tail@[j]).key(by_path),
                ) != Rank::After by {
                    assert(tail@[i] == full[cut + i]);
                    assert(tail@[j] == full[cut + j]);
                }
                assert forall|k: Seq<u8>| #[trigger] sort::with_key(tail@, by_path, k) == (
                if past(k, opt_bytes(*after)) {
                    sort::with_key(given, by_path, k)
                } else {
                    Seq::empty()
                }) by {
                    sort::lemma_with_key_add(head, tail@, by_path, k);
                    assert(sort::with_key(full, by_path, k) == sort::with_key(given, by_path, k));
                    if order::rank(k, key@) == Rank::After {
                        assert forall|i: int| 0 <= i < head.len() implies (#[trigger] head[i]).key(
                            by_path,
                        ) != k by {
                            assert(head[i] == full[i]);
                        }
                        sort::lemma_with_key_none(head, by_path, k);
                        assert(Seq::<Listed>::empty() + sort::with_key(tail@, by_path, k)
                            =~= sort::with_key(tail@, by_path, k));
                    } else {
                        assert forall|i: int| 0 <= i < tail@.len() implies (
                        #[trigger] tail@[i]).key(by_path) != k by {
                            assert(tail@[i] == full[cut + i]);
                        }
                        sort::lemma_with_key_none(tail@, by_path, k);
                    }
                }
            }
            tail
        },
    }
}

/// A directory being listed.
pub struct QueryDir {
    pub opts: QueryOptions,
    /// The device of the directory itself, where it is known.
    pub dir_dev: Option<(u32, u32)>,
    /// The sorted entries still to hand out, once they were read.
    pub sorted: Option<VecDeque<Listed>>,
    /// The listing failed; it is over.
    pub fatal: bool,
}

/// How a listing goes on.
pub enum QueryStep {
    /// There is nothing more.
    End,
    /// Read entries with a [`ClumpReader`] of that limit and hand them to
    /// [`QueryDir::read`].
    Read { limit: usize },
    /// Ask whether the entries at these positions are directories, and hand
    /// the answers to [`QueryDir::resolved`].
    Resolve { all: Vec<Listed>, asked: Vec<usize> },
    /// Enrich these and hand the outcome to [`QueryDir::enriched`].
    Enrich(Vec<Listed>),
    /// The listing failed.
    Fail(Error),
}

/// The first elements of a queue, taken from it.
fn take_front(q: &mut VecDeque<Listed>, n: usize) -> (r: Vec<Listed>)
    requires
        n <= old(q)@.len(),
    ensures
        r@ == old(q)@.take(n as int),
        final(q)@ == old(q)@.skip(n as int),
{
    let ghost all = q@;
    let mut r: Vec<Listed> = Vec::new();
    assert(r@ =~= all.take(0));
    assert(q@ =~= all.skip(0));
    while r.len() < n
        invariant
            r@.len() <= n <= all.len(),
            r@ == all.take(r@.len() as int),
            q@ == all.skip(r@.len() as int),
        decreases n - r@.len(),
    {
        let e = q.pop_front().unwrap();
        r.push(e);
        assert(r@ =~= all.take(r@.len() as int));
        assert(q@ =~= all.skip(r@.len() as int));
    }
    r
}

/// A queue of a list's elements, in their order.
fn queued(v: Vec<Listed>) -> (r: VecDeque<Listed>)
    ensures
        r@ == v@,
{
    let ghost all = v@;
    let mut rest = v;
    let mut r: VecDeque<Listed> = VecDeque::new();
    assert(rest@ + r@ =~= all);
    while rest.len() > 0
        invariant
            rest@ + r@ == all,
        decreases rest@.len(),
    {
        let ghost before = rest@ + r@;
        let e = rest.pop().unwrap();
        r.push_front(e);
        assert(rest@ + r@ =~= before);
    }
    assert(r@ =~= all);
    r
}

impl QueryDir {
    /// A batch is never empty for want of room.
    pub open spec fn wf(&self) -> bool {
        self.opts.clump >= 1
    }

    /// `after` is `before` with `n` sorted entries handed out.
    pub open spec fn handed_out(after: QueryDir, before: QueryDir, n: nat) -> bool {
        &&& after.opts == before.opts
        &&& after.dir_dev == before.dir_dev
        &&& after.fatal == before.fatal
        &&& before.sorted is Some
        &&& after.sorted is Some
        &&& n <= before.sorted->0@.len()
        &&& after.sorted->0@ == before.sorted->0@.skip(n as int)
    }

    /// How many sorted entries the next batch has.
    pub open spec fn batch(&self) -> nat {
        if self.opts.clump <= self.sorted->0@.len() {
            self.opts.clump as nat
        } else {
            self.sorted->0@.len()
        }
    }

    /// The next batch of sorted entries; none left is the end.
    fn next_sorted(&mut self) -> (r: QueryStep)
        requires
            old(self).wf(),
            old(self).sorted is Some,
        ensures
            final(self).wf(),
            Self::handed_out(*final(self), *old(self), old(self).batch()),
            match r {
                QueryStep::End => old(self).sorted->0@.len() == 0,
                QueryStep::Enrich(names) => old(self).sorted->0@.len() > 0 && names@ == old(
                    self,
                ).sorted->0@.take(old(self).batch() as int),
                _ => false,
            },
    {
        let mut q = self.sorted.take().unwrap();
        let n = if self.opts.clump <= q.len() {
            self.opts.clump
        } else {
            q.len()
        };
        let names = take_front(&mut q, n);
        self.sorted = Some(q);
        if names.len() == 0 {
            QueryStep::End
        } else {
            QueryStep::Enrich(names)
        }
    }

    /// The next batch. A listing that failed is over. In the stream's own
    /// order a batch is read as it is wanted; in another, everything is read
    /// and sorted first.
    pub fn next(&mut self) -> (r: QueryStep)
        requires
            old(self).wf(),
        ensures
            final(self).wf(),
            if old(self).fatal {
                r is End && *final(self) == *old(self)
            } else if old(self).opts.order == Order::Readdir {
                r == (QueryStep::Read { limit: old(self).opts.clump }) && *final(self) == *old(self)
            } else if old(self).sorted is None {
                r == (QueryStep::Read { limit: usize::MAX }) && *final(self) == *old(self)
            } else {
                &&& Self::handed_out(*final(self), *old(self), old(self).batch())
                &&& match r {
                    QueryStep::End => old(self).sorted->0@.len() == 0,
                    QueryStep::Enrich(names) => old(self).sorted->0@.len() > 0 && names@ == old(
                        self,
                    ).sorted->0@.take(old(self).batch() as int),
                    _ => false,
                }
            },
    {
        if self.fatal {
            return QueryStep::End;
        }
        if self.opts.order == Order::Readdir {
            return QueryStep::Read { limit: self.opts.clump };
        }
        if self.sorted.is_none() {
            return QueryStep::Read { limit: usize::MAX };
        }
        self.next_sorted()
    }

    /// The first batch of what was read, once it is arranged.
    pub open spec fn starts_with_arranged(
        after: QueryDir,
        before: QueryDir,
        all: Seq<Listed>,
        r: QueryStep,
    ) -> bool {
        exists|s: Seq<Listed>|
            {
                &&& #[trigger] arranged(
                    s,
                    all,
                    before.opts.by_path(),
                    opt_bytes(before.opts.start_after),
                )
                &&& after.opts == before.opts
                &&& after.dir_dev == before.dir_dev
                &&& after.fatal == before.fatal
                &&& after.sorted is Some
                &&& match r {
                    QueryStep::End => s.len() == 0 && after.sorted->0@.len() == 0,
                    QueryStep::Enrich(names) => {
                        let n = if before.opts.clump <= s.len() {
                            before.opts.clump as int
                        } else {
                            s.len() as int
                        };
                        s.len() > 0 && names@ == s.take(n) && after.sorted->0@ == s.skip(n)
                    },
                    _ => false,
                }
            }
    }

    fn arrange_and_start(&mut self, all: Vec<Listed>) -> (r: QueryStep)
        requires
            old(self).wf(),
        ensures
            final(self).wf(),
            Self::starts_with_arranged(*final(self), *old(self), all@, r),
    {
        let by_path = self.opts.order == Order::ByPathBytes;
        let ghost given = all@;
        let s = arrange(all, by_path, &self.opts.start_after);
        let ghost sorted = s@;
        self.sorted = Some(queued(s));
        let r = self.next_sorted();
        assert(arranged(
            sorted,
            given,
            old(self).opts.by_path(),
            opt_bytes(old(self).opts.start_after),
        ));
        r
    }

    /// What reading the stream came to. A failure ends the listing. By path,
    /// types the stream does not know are asked for before anything is sorted.
    pub fn read(&mut self, got: Result<Vec<Listed>, Error>) -> (r: QueryStep)
        requires
            old(self).wf(),
        ensures
            final(self).wf(),
            match got {
                Err(e) => r == QueryStep::Fail(e) && *final(self) == (QueryDir {
                    fatal: true,
                    ..*old(self)
                }),
                Ok(all) => match old(self).opts.order {
                    Order::Readdir => {
                        &&& *final(self) == *old(self)
                        &&& if all@.len() == 0 {
                            r is End
                        } else {
                            r == QueryStep::Enrich(all)
                        }
                    },
                    Order::ByName => Self::starts_with_arranged(*final(self), *old(self), all@, r),
                    Order::ByPathBytes => {
                        ||| {
                            &&& exists|i: int|
                                0 <= i < all@.len() && type_unknown(#[trigger] all@[i])
                            &&& *final(self) == *old(self)
                            &&& r is Resolve
                            &&& r->all == all
                            &&& asks_unknown(r->asked@, all@)
                        }
                        ||| {
                            &&& forall|i: int|
                                0 <= i < all@.len() ==> !type_unknown(#[trigger] all@[i])
                            &&& Self::starts_with_arranged(*final(self), *old(self), all@, r)
                        }
                    },
                },
            },
    {
        match got {
            Err(e) => {
                self.fatal = true;
                QueryStep::Fail(e)
            },
            Ok(all) => match self.opts.order {
                Order::Readdir => {
                    if all.len() == 0 {
                        QueryStep::End
                    } else {
                        QueryStep::Enrich(all)
                    }
                },
                Order::ByName => self.arrange_and_start(all),
                Order::ByPathBytes => {
                    let asked = unknown_types(&all);
                    if asked.len() > 0 {
                        assert(type_unknown(all@[asked@[0] as int]));
                        QueryStep::Resolve { all, asked }
                    } else {
                        self.arrange_and_start(all)
                    }
                },
            },
        }
    }

    /// The types asked for.
    pub fn resolved(
        &mut self,
        all: Vec<Listed>,
        asked: &Vec<usize>,
        answers: &Vec<Option<bool>>,
    ) -> (r: QueryStep)
        requires
            old(self).wf(),
            asked@.len() == answers@.len(),
            asks_unknown(asked@, all@),
        ensures
            final(self).wf(),
            exists|t: Seq<Listed>|
                {
                    &&& #[trigger] types_entered(t, all@, asked@, answers@)
                    &&& Self::starts_with_arranged(*final(self), *old(self), t, r)
                },
    {
        let ghost given = all@;
        let t = resolve_types(all, asked, answers);
        let ghost typed_all = t@;
        let r = self.arrange_and_start(t);
        assert(types_entered(typed_all, given, asked@, answers@));
        r
    }

    /// What enriching a batch came to. A failure ends the listing.
    pub fn enriched<E>(&mut self, got: Result<Vec<E>, Error>) -> (r: Result<Vec<E>, Error>)
        requires
            old(self).wf(),
        ensures
            final(self).wf(),
            r == got,
            *final(self) == (QueryDir { fatal: old(self).fatal || got is Err, ..*old(self) }),
    {
        if got.is_err() {
            self.fatal = true;
        }
        got
    }
}

/// One batch after the other, a sorted listing hands out all of its entries, in
/// their order: none is left out and none comes twice. `states` are those
/// between the batches, the last with nothing left.
pub proof fn law_batches_make_the_listing(states: Seq<QueryDir>, batches: Seq<Seq<Listed>>)
    requires
        states.len() == batches.len() + 1,
        states[0].sorted is Some,
        states.last().sorted->0@.len() == 0,
        forall|i: int|
            0 <= i < batches.len() ==> {
                &&& QueryDir::handed_out(states[i + 1], #[trigger] states[i], states[i].batch())
                &&& batches[i] == states[i].sorted->0@.take(states[i].batch() as int)
            },
    ensures
        batches.flatten() == states[0].sorted->0@,
    decreases batches.len(),
{
    let all = states[0].sorted->0@;
    if batches.len() == 0 {
        assert(batches.flatten() =~= all);
    } else {
        let n = states[0].batch() as int;
        let (later, rest) = (states.drop_first(), batches.drop_first());
        assert(QueryDir::handed_out(states[1], states[0], states[0].batch()));
        assert forall|i: int| 0 <= i < rest.len() implies {
            &&& QueryDir::handed_out(later[i + 1], #[trigger] later[i], later[i].batch())
            &&& rest[i] == later[i].sorted->0@.take(later[i].batch() as int)
        } by {
            assert(states[i + 1] == later[i]);
        }
        law_batches_make_the_listing(later, rest);
        assert(all =~= all.take(n) + all.skip(n));
    }
}

/// Begin to list a directory on the device `dir_dev`. A batch of none is taken
/// for a batch of one.
pub fn query_directory(opts: QueryOptions, dir_dev: Option<(u32, u32)>) -> (r: QueryDir)
    ensures
        r.wf(),
        r.opts == (QueryOptions {
            clump: if opts.clump == 0 {
                1
            } else {
                opts.clump
            },
            ..opts
        }),
        r.dir_dev == dir_dev,
        r.sorted is None,
        !r.fatal,
{
    let mut opts = opts;
    if opts.clump == 0 {
        opts.clump = 1;
    }
    QueryDir { opts, dir_dev, sorted: None, fatal: false }
}

/// `asked` is where the entries of unknown type stand, in order.
pub open spec fn asks_unknown(asked: Seq<usize>, all: Seq<Listed>) -> bool {
    &&& forall|j: int|
        0 <= j < asked.len() ==> #[trigger] asked[j] < all.len() && type_unknown(
            all[asked[j] as int],
        )
    &&& forall|j: int, k: int| 0 <= j < k < asked.len() ==> #[trigger] asked[j] < #[trigger] asked[k]
    &&& forall|i: int|
        0 <= i < all.len() && type_unknown(#[trigger] all[i]) ==> exists|j: int|
            0 <= j < asked.len() && #[trigger] asked[j] == i
}

/// `t` is `all` with the answers entered.
pub open spec fn types_entered(
    t: Seq<Listed>,
    all: Seq<Listed>,
    asked: Seq<usize>,
    answers: Seq<Option<bool>>,
) -> bool {
    &&& t.len() == all.len()
    &&& forall|j: int|
        0 <= j < asked.len() ==> t[#[trigger] asked[j] as int] == typed(
            all[asked[j] as int],
            answers[j],
        )
    &&& forall|i: int|
        0 <= i < all.len() && !type_unknown(all[i]) ==> #[trigger] t[i] == all[i]
}

/// An entry is listed unless it is named `.` or `..`, or does not begin with
/// the prefix, byte for byte; what is listed keeps the order it was read in.
pub proof fn law_listing_admits_by_name(read: Seq<Listed>, e: Listed, prefix: Option<Seq<u8>>)
    ensures
        ({
            let name = e.name@;
            let begins = match prefix {
                Some(p) => name.len() >= p.len() && forall|i: int|
                    0 <= i < p.len() ==> name[i] == #[trigger] p[i],
                None => true,
            };
            let dots = name == seq![0x2eu8] || name == seq![0x2eu8, 0x2eu8];
            &&& admits(Seq::empty(), prefix) == Seq::<Listed>::empty()
            &&& begins && !dots ==> admits(read.push(e), prefix) == admits(read, prefix).push(e)
            &&& !begins || dots ==> admits(read.push(e), prefix) == admits(read, prefix)
        }),
{
    reveal(Seq::filter);
    assert(read.push(e).drop_last() =~= read);
    assert(read.push(e).last() == e);
    assert(admits(Seq::empty(), prefix) =~= Seq::<Listed>::empty());
    if prefix is Some {
        let (p, name) = (prefix->0, e.name@);
        if p.is_prefix_of(name) {
            assert forall|i: int| 0 <= i < p.len() implies name[i] == #[trigger] p[i] by {
                assert(name.subrange(0, p.len() as int)[i] == p[i]);
            }
        } else if name.len() >= p.len() && forall|i: int|
            0 <= i < p.len() ==> name[i] == #[trigger] p[i] {
            assert(p =~= name.subrange(0, p.len() as int));
        }
    }
}

/// The key an entry is sorted by: its name; by path, a directory's with the
/// slash behind it.
pub proof fn law_entry_is_sorted_by_its_name(e: Listed)
    ensures
        e.key(false) == e.name@,
        e.dtype == 4 ==> e.key(true) == e.name@.push(0x2f),
        e.dtype != 4 ==> e.key(true) == e.name@,
{
}

/// A type that the stream does not tell is asked for, of every name that can be
/// asked about; the answer makes the entry a directory or a file and changes
/// nothing else, and without one it stays as it was.
pub proof fn law_types_are_as_answered(e: Listed, answer: Option<bool>)
    ensures
        type_unknown(e) <==> e.dtype == 0 && names::is_leaf(e.name@),
        typed(e, answer).name == e.name,
        answer == Some(true) ==> typed(e, answer).dtype == 4,
        answer == Some(false) ==> typed(e, answer).dtype == 8,
        answer is None ==> typed(e, answer) == e,
{
}

/// A sorted listing holds exactly the entries of the directory whose key comes
/// after the place it starts at, none before another that it comes after.
pub proof fn law_listing_holds_what_comes_after(
    r: Seq<Listed>,
    all: Seq<Listed>,
    by_path: bool,
    after: Option<Seq<u8>>,
    e: Listed,
)
    requires
        arranged(r, all, by_path, after),
    ensures
        r.contains(e) <==> all.contains(e) && match after {
            Some(a) => order::rank(a, e.key(by_path)) == Rank::Before,
            None => true,
        },
        forall|i: int, j: int|
            0 <= i < j < r.len() ==> order::rank(
                (#[trigger] r[j]).key(by_path),
                (#[trigger] r[i]).key(by_path),
            ) != Rank::Before,
{
    let k = e.key(by_path);
    sort::lemma_among_its_key(r, by_path, e);
    sort::lemma_among_its_key(all, by_path, e);
    assert(sort::with_key(r, by_path, k) == (if past(k, after) {
        sort::with_key(all, by_path, k)
    } else {
        Seq::empty()
    }));
    if after is Some {
        order::lemma_rank_flips(after->0, k);
    }
    assert forall|i: int, j: int| 0 <= i < j < r.len() implies order::rank(
        (#[trigger] r[j]).key(by_path),
        (#[trigger] r[i]).key(by_path),
    ) != Rank::Before by {
        order::lemma_rank_flips(r[j].key(by_path), r[i].key(by_path));
    }
}

/// A batch of a sorted listing has as many entries as were asked for, or all
/// that are left where these are fewer, from the front; the rest stay.
pub proof fn law_batch_is_the_next_entries(after: QueryDir, before: QueryDir)
    requires
        QueryDir::handed_out(after, before, before.batch()),
    ensures
        ({
            let (left, rest) = (before.sorted->0@, after.sorted->0@);
            let n = left.len() - rest.len();
            &&& 0 <= n <= before.opts.clump
            &&& n == before.opts.clump || rest.len() == 0
            &&& forall|i: int| 0 <= i < rest.len() ==> #[trigger] rest[i] == left[n + i]
        }),
{
}

/// A sorted listing begins with the first batch of the whole directory in the
/// order asked for, past the place asked for, and keeps the rest.
pub proof fn law_listing_starts_in_its_order(
    after: QueryDir,
    before: QueryDir,
    all: Seq<Listed>,
    names: Vec<Listed>,
)
    requires
        before.wf(),
        QueryDir::starts_with_arranged(after, before, all, QueryStep::Enrich(names)),
    ensures
        after.sorted is Some,
        names@.len() > 0,
        names@.len() <= before.opts.clump,
        names@.len() == before.opts.clump || after.sorted->0@.len() == 0,
        arranged(
            names@ + after.sorted->0@,
            all,
            before.opts.order == Order::ByPathBytes,
            opt_bytes(before.opts.start_after),
        ),
        forall|e: Listed| #[trigger]
            (names@ + after.sorted->0@).contains(e) ==> all.contains(e),
{
    let s = choose|s: Seq<Listed>|
        {
            &&& #[trigger] arranged(
                s,
                all,
                before.opts.by_path(),
                opt_bytes(before.opts.start_after),
            )
            &&& after.opts == before.opts
            &&& after.dir_dev == before.dir_dev
            &&& after.fatal == before.fatal
            &&& after.sorted is Some
            &&& {
                let n = if before.opts.clump <= s.len() {
                    before.opts.clump as int
                } else {
                    s.len() as int
                };
                s.len() > 0 && names@ == s.take(n) && after.sorted->0@ == s.skip(n)
            }
        };
    assert(s =~= names@ + after.sorted->0@);
    assert forall|e: Listed| #[trigger] (names@ + after.sorted->0@).contains(
        e,
    ) implies all.contains(e) by {
        law_listing_holds_what_comes_after(
            s,
            all,
            before.opts.by_path(),
            opt_bytes(before.opts.start_after),
            e,
        );
    }
}

/// Every entry whose type the stream does not tell is asked about, and has the
/// answer to its own question; every other keeps its type, and all keep their
/// names and places.
pub proof fn law_every_unknown_type_is_entered(
    all: Seq<Listed>,
    asked: Seq<usize>,
    answers: Seq<Option<bool>>,
    t: Seq<Listed>,
    i: int,
)
    requires
        asks_unknown(asked, all),
        asked.len() == answers.len(),
        types_entered(t, all, asked, answers),
        0 <= i < all.len(),
    ensures
        t.len() == all.len(),
        t[i].name == all[i].name,
        !(all[i].dtype == 0 && names::is_leaf(all[i].name@)) ==> t[i].dtype == all[i].dtype,
        all[i].dtype == 0 && names::is_leaf(all[i].name@) ==> exists|j: int|
            0 <= j < asked.len() && #[trigger] asked[j] == i && t[i].dtype == (match answers[j] {
                Some(true) => 4u8,
                Some(false) => 8u8,
                None => 0u8,
            }),
{
    if type_unknown(all[i]) {
        let j = choose|j: int| 0 <= j < asked.len() && #[trigger] asked[j] == i;
        assert(t[asked[j] as int] == typed(all[asked[j] as int], answers[j]));
    }
}

} // verus!
