//! The rules an operation passes before it is staged: which resolution flags
//! a path is opened with, which opens are guarded or refused, and which
//! attributes are written under the reactor's own credentials.
use crate::bytes;
use crate::bytes::{contains_byte, copied, starts_with};
use crate::errno::Error;
use crate::sys::{
    AT_SYMLINK_FOLLOW, AT_SYMLINK_NOFOLLOW, CONFINED_RESOLVE, O_CREAT, O_DIRECTORY, O_NONBLOCK,
    O_PATH, O_TMPFILE_ONLY, RESOLVE_BENEATH, RESOLVE_IN_ROOT, RESOLVE_NO_SYMLINKS, RESOLVE_NO_XDEV,
};
use vstd::prelude::*;

verus! {

/// The `AT_*` flags of a call that names a path.
#[derive(Clone, Copy, Debug, PartialEq, Eq, Structural)]
pub struct AtFlags {
    pub bits: u32,
}

impl AtFlags {
    pub fn empty() -> (r: AtFlags)
        ensures
            r.bits == 0,
    {
        AtFlags { bits: 0 }
    }
}

/// Whether a caller opted in to following a terminal symlink.
pub open spec fn follows(flags: u32) -> bool {
    flags & AT_SYMLINK_FOLLOW != 0 && flags & AT_SYMLINK_NOFOLLOW == 0
}

/// The flags a `statx` submits: the follow request itself is stripped, and
/// without it a terminal symlink is not followed.
pub open spec fn statx_flags(flags: u32) -> u32 {
    if follows(flags) {
        flags & !AT_SYMLINK_FOLLOW
    } else {
        (flags & !AT_SYMLINK_FOLLOW) | AT_SYMLINK_NOFOLLOW
    }
}

/// The `AT_*` flags an async `statx` submits.
pub fn statx_at_flags(flags: AtFlags) -> (r: u32)
    ensures
        r == statx_flags(flags.bits),
{
    let follow = flags.bits & AT_SYMLINK_FOLLOW != 0 && flags.bits & AT_SYMLINK_NOFOLLOW == 0;
    let base = flags.bits & !AT_SYMLINK_FOLLOW;
    if follow {
        base
    } else {
        base | AT_SYMLINK_NOFOLLOW
    }
}

/// A submitted `statx` never carries the follow request, and carries the
/// no-follow flag unless the caller opted in; every other flag is the
/// caller's own.
pub proof fn law_statx_does_not_follow_by_default(flags: u32)
    ensures
        statx_flags(flags) & AT_SYMLINK_FOLLOW == 0,
        (statx_flags(flags) & AT_SYMLINK_NOFOLLOW != 0) == !follows(flags),
        statx_flags(flags) & !(AT_SYMLINK_FOLLOW | AT_SYMLINK_NOFOLLOW) == flags & !(
        AT_SYMLINK_FOLLOW | AT_SYMLINK_NOFOLLOW),
{
    let r = statx_flags(flags);
    let f = follows(flags);
    assert(r & 0x400 == 0 && ((r & 0x100 != 0) == !f) && r & !(0x400u32 | 0x100u32) == flags & !(
    0x400u32 | 0x100u32)) by (bit_vector)
        requires
            f == (flags & 0x400 != 0 && flags & 0x100 == 0),
            f ==> r == flags & !0x400u32,
            !f ==> r == (flags & !0x400u32) | 0x100,
    ;
}

/// The three words of an `openat2` request.
#[derive(Clone, Copy, Debug, PartialEq, Eq, Structural)]
pub struct RawOpenHow {
    pub flags: u64,
    pub mode: u64,
    pub resolve: u64,
}

/// The resolution of an open whose caller stated none: beneath the anchor,
/// following no symlink.
pub open spec fn default_resolve(resolve: u64) -> u64 {
    if resolve == 0 {
        RESOLVE_BENEATH | RESOLVE_NO_SYMLINKS
    } else {
        resolve
    }
}

/// Why a path cannot be handed to the kernel, where it cannot: it is empty, or
/// holds a NUL, which would end it early.
pub open spec fn path_refusal(path: Seq<u8>, empty: Seq<char>) -> Option<Seq<char>> {
    if path.len() == 0 {
        Some(empty)
    } else if path.contains(0) {
        Some("path contains NUL"@)
    } else {
        None
    }
}

/// Why an open's path is refused, where it is.
pub open spec fn open_refusal(path: Seq<u8>) -> Option<Seq<char>> {
    path_refusal(path, "uring_fs open: empty path"@)
}

/// Validate an open's path and settle its resolution flags: a caller that
/// states none is confined to the anchor, one that states its own keeps them.
pub fn open_parts(path: &[u8], how: RawOpenHow) -> (r: Result<(Vec<u8>, RawOpenHow), Error>)
    ensures
        match r {
            Ok((p, raw)) => open_refusal(path@) is None && p@ == path@ && raw == (RawOpenHow {
                resolve: default_resolve(how.resolve),
                ..how
            }),
            Err(e) => e is Validation && open_refusal(path@) == Some(e->Validation_0@),
        },
{
    if path.len() == 0 {
        return Err(Error::Validation("uring_fs open: empty path".to_owned()));
    }
    if contains_byte(path, 0) {
        return Err(Error::Validation("path contains NUL".to_owned()));
    }
    let mut raw = how;
    if raw.resolve == 0 {
        raw.resolve = RESOLVE_BENEATH | RESOLVE_NO_SYMLINKS;
    }
    Ok((copied(path), raw))
}

/// Whether resolution flags state a confinement policy, as opposed to only
/// hardening whatever policy applies.
pub open spec fn states_policy(resolve: u64) -> bool {
    resolve & (RESOLVE_BENEATH | RESOLVE_IN_ROOT | RESOLVE_NO_SYMLINKS) != 0
}

/// The resolution of an open on the serving side: a caller that states no
/// policy gets the whole confinement set beside any hardening of its own; one
/// that does keeps it, and still may not cross a mount point.
pub open spec fn confined(resolve: u64) -> u64 {
    if states_policy(resolve) {
        resolve | RESOLVE_NO_XDEV
    } else {
        resolve | CONFINED_RESOLVE
    }
}

/// Settle the resolution flags of an open on the serving side.
pub fn confine_resolve(resolve: u64) -> (r: u64)
    ensures
        r == confined(resolve),
{
    if resolve & (RESOLVE_BENEATH | RESOLVE_IN_ROOT | RESOLVE_NO_SYMLINKS) != 0 {
        resolve | RESOLVE_NO_XDEV
    } else {
        resolve | CONFINED_RESOLVE
    }
}

/// An open on the serving side keeps every flag its caller stated, never
/// crosses a mount point, and is wholly confined where the caller stated no
/// policy.
pub proof fn law_confinement_only_adds(resolve: u64)
    ensures
        confined(resolve) & resolve == resolve,
        confined(resolve) & RESOLVE_NO_XDEV != 0,
        !states_policy(resolve) ==> confined(resolve) & CONFINED_RESOLVE == CONFINED_RESOLVE,
{
    let r = confined(resolve);
    let p = states_policy(resolve);
    assert(r & resolve == resolve && r & 0x01 != 0 && (!p ==> r & 0x0d == 0x0d)) by (bit_vector)
        requires
            p ==> r == resolve | 0x01,
            !p ==> r == resolve | 0x0d,
    ;
}

/// What an open does on a FIFO or a device: guarded against parking on it, or
/// opened as asked.
#[derive(Clone, Copy, Debug, PartialEq, Eq, Structural)]
pub enum SpecialFiles {
    Guard,
    Allow,
}

/// Whether the guard applies: not where the caller asked for the flag itself,
/// nor where the open cannot reach a special file's own `open`.
pub open spec fn guard_applies(flags: u64, special: SpecialFiles) -> bool {
    special == SpecialFiles::Guard && flags & (O_NONBLOCK | O_PATH | O_DIRECTORY) == 0
}

/// Add the special-file guard to an open; whether it was added, so that the
/// completion takes it back off the descriptor.
pub fn apply_special_file_guard(raw: &mut RawOpenHow, special: SpecialFiles) -> (guarded: bool)
    ensures
        guarded == guard_applies(old(raw).flags, special),
        *final(raw) == (if guarded {
            RawOpenHow { flags: old(raw).flags | O_NONBLOCK, ..*old(raw) }
        } else {
            *old(raw)
        }),
{
    match special {
        SpecialFiles::Allow => false,
        SpecialFiles::Guard => {
            if raw.flags & (O_NONBLOCK | O_PATH | O_DIRECTORY) == 0 {
                raw.flags = raw.flags | O_NONBLOCK;
                true
            } else {
                false
            }
        },
    }
}

/// Whether open flags make an inode, which no step of a walk may.
pub open spec fn creates(flags: u64) -> bool {
    flags & (O_CREAT | O_TMPFILE_ONLY) != 0
}

/// Whether open flags make an inode. `O_TMPFILE` carries the `O_DIRECTORY`
/// bit, which every plain directory open carries too, so only its own bit is
/// tested.
pub fn creation_refused(flags: u64) -> (r: bool)
    ensures
        r == creates(flags),
{
    flags & (O_CREAT | O_TMPFILE_ONLY) != 0
}

/// Forcing `O_DIRECTORY` onto an open does not make it look like a creating
/// one.
pub proof fn law_directory_open_is_not_creation(flags: u64)
    ensures
        creates(flags | O_DIRECTORY) == creates(flags),
{
    assert((flags | 0x1_0000) & (0x40u64 | 0x40_0000u64) == flags & (0x40u64 | 0x40_0000u64))
        by (bit_vector);
}

/// Whether a step's flags rule a confined walk out: it would make an inode,
/// or it is scoped to a root, which the kernel refuses to pair with the
/// confinement every step is given.
pub open spec fn step_refused(how: RawOpenHow) -> bool {
    creates(how.flags) || how.resolve & RESOLVE_IN_ROOT != 0
}

pub fn is_step_refused(how: RawOpenHow) -> (r: bool)
    ensures
        r == step_refused(how),
{
    creation_refused(how.flags) || how.resolve & RESOLVE_IN_ROOT != 0
}

/// The namespace every privileged prefix sits under.
pub open spec fn trusted_ns() -> Seq<u8> {
    seq![116u8, 114, 117, 115, 116, 101, 100, 46]
}

/// Whether a prefix is under `trusted.` and names at least one byte beyond
/// it.
pub open spec fn is_privileged_prefix(p: Seq<u8>) -> bool {
    trusted_ns().is_prefix_of(p) && p.len() > trusted_ns().len()
}

/// Which extended attributes are written under the reactor's own credentials
/// instead of the request's personality.
#[derive(Debug)]
pub struct PrivilegedXattrs {
    prefixes: Vec<Vec<u8>>,
}

impl PrivilegedXattrs {
    #[verifier::type_invariant]
    spec fn valid(self) -> bool {
        forall|i: int|
            0 <= i < self.prefixes@.len() ==> is_privileged_prefix(#[trigger] self.prefixes@[i]@)
    }

    /// The prefixes allowed, in the order they were given.
    pub closed spec fn spec_prefixes(&self) -> Seq<Seq<u8>> {
        bytes::views(self.prefixes@)
    }

    /// Whether a name is covered by one of the prefixes.
    pub open spec fn covers(&self, name: Seq<u8>) -> bool {
        exists|i: int|
            0 <= i < self.spec_prefixes().len() && (
            #[trigger] self.spec_prefixes()[i]).is_prefix_of(name)
    }

    /// An empty policy: no attribute is written with elevated credentials.
    pub fn new() -> (r: PrivilegedXattrs)
        ensures
            r.spec_prefixes() == Seq::<Seq<u8>>::empty(),
    {
        let r = PrivilegedXattrs { prefixes: Vec::new() };
        assert(r.spec_prefixes() =~= Seq::<Seq<u8>>::empty());
        r
    }

    /// Permit attributes whose name begins with `prefix`, which is under
    /// `trusted.` and names more than the bare namespace.
    pub fn allow_prefix(self, prefix: &[u8]) -> (r: Result<PrivilegedXattrs, Error>)
        ensures
            match r {
                Ok(p) => is_privileged_prefix(prefix@) && p.spec_prefixes()
                    == self.spec_prefixes().push(prefix@),
                Err(e) => !is_privileged_prefix(prefix@) && e is Validation && e->Validation_0@
                    == "PrivilegedXattrs: prefix must be under `trusted.` and name more than the bare namespace"@,
            },
    {
        let ns: [u8; 8] = [116, 114, 117, 115, 116, 101, 100, 46];
        assert(ns@ =~= trusted_ns());
        if !starts_with(prefix, &ns) || prefix.len() <= 8 {
            return Err(
                Error::Validation(
                    "PrivilegedXattrs: prefix must be under `trusted.` and name more than the bare namespace".to_owned(),
                ),
            );
        }
        proof {
            use_type_invariant(&self);
        }
        let ghost before = self.prefixes@;
        let mut prefixes = self.prefixes;
        let p = copied(prefix);
        prefixes.push(p);
        assert forall|i: int| 0 <= i < prefixes@.len() implies is_privileged_prefix(
            #[trigger] prefixes@[i]@,
        ) by {
            if i < before.len() {
                assert(prefixes@[i] == before[i]);
            }
        }
        let r = PrivilegedXattrs { prefixes };
        assert(r.spec_prefixes() =~= bytes::views(before).push(prefix@));
        Ok(r)
    }

    /// Whether `name` is covered. Always false for an empty policy.
    pub fn permits(&self, name: &[u8]) -> (r: bool)
        ensures
            r == self.covers(name@),
            r ==> trusted_ns().is_prefix_of(name@),
    {
        proof {
            use_type_invariant(self);
        }
        let mut i: usize = 0;
        while i < self.prefixes.len()
            invariant
                0 <= i <= self.prefixes@.len(),
                self.valid(),
                forall|j: int|
                    0 <= j < i ==> !(#[trigger] self.spec_prefixes()[j]).is_prefix_of(name@),
            decreases self.prefixes@.len() - i,
        {
            assert(self.spec_prefixes()[i as int] == self.prefixes@[i as int]@);
            if starts_with(name, self.prefixes[i].as_slice()) {
                proof {
                    let ps = self.spec_prefixes();
                    assert forall|j: int| 0 <= j < ps.len() implies is_privileged_prefix(
                        #[trigger] ps[j],
                    ) by {
                        assert(ps[j] == self.prefixes@[j]@);
                    }
                    law_privileged_names_are_trusted(ps, name@);
                }
                return true;
            }
            i = i + 1;
        }
        assert(self.spec_prefixes().len() == self.prefixes@.len());
        false
    }
}

/// No attribute outside `trusted.` is ever covered, whatever prefixes were
/// allowed: every one of them is under it.
pub proof fn law_privileged_names_are_trusted(prefixes: Seq<Seq<u8>>, name: Seq<u8>)
    requires
        forall|i: int| 0 <= i < prefixes.len() ==> is_privileged_prefix(#[trigger] prefixes[i]),
        exists|i: int| 0 <= i < prefixes.len() && (#[trigger] prefixes[i]).is_prefix_of(name),
    ensures
        trusted_ns().is_prefix_of(name),
{
    let i = choose|i: int| 0 <= i < prefixes.len() && (#[trigger] prefixes[i]).is_prefix_of(name);
    let p = prefixes[i];
    assert forall|k: int| 0 <= k < trusted_ns().len() implies trusted_ns()[k] == name[k] by {
        assert(p.subrange(0, trusted_ns().len() as int)[k] == trusted_ns()[k]);
        assert(name.subrange(0, p.len() as int)[k] == p[k]);
    }
    assert(trusted_ns() =~= name.subrange(0, trusted_ns().len() as int));
}

/// The words a served open comes to, in the kernel's own numbers.
pub proof fn lemma_open_bits(flags: u64, resolve: u64)
    ensures
        guard_applies(flags, SpecialFiles::Guard) == (flags & 0x21_0800 == 0),
        flags | O_NONBLOCK == flags | 0x800,
        states_policy(resolve) == (resolve & 0x1c != 0),
        confined(resolve) == if resolve & 0x1c != 0 {
            resolve | 0x01
        } else {
            resolve | 0x0d
        },
{
    assert(0x800u64 | 0x20_0000u64 | 0x1_0000u64 == 0x21_0800u64) by (bit_vector);
    assert(0x08u64 | 0x10u64 | 0x04u64 == 0x1cu64) by (bit_vector);
}

/// An open whose caller states no resolution stays beneath its anchor and
/// follows no symlink, one whose caller states its own keeps it, and the full
/// confinement adds up the same either way.
pub proof fn law_unstated_resolution_is_confined(resolve: u64)
    ensures
        default_resolve(0) == 0x0c,
        resolve != 0 ==> default_resolve(resolve) == resolve,
        default_resolve(resolve) | CONFINED_RESOLVE == resolve | 0x0d,
{
    assert(0x08u64 | 0x04u64 == 0x0cu64) by (bit_vector);
    assert(0x0cu64 | 0x0du64 == 0u64 | 0x0du64) by (bit_vector);
}

/// In the kernel's own numbers: which opens make an inode, which no walk may
/// take as a step, which are guarded, and which stats follow a symlink.
pub proof fn law_rules_in_the_kernels_numbers(flags: u64, resolve: u64, mode: u64, at: u32)
    ensures
        creates(flags) <==> (flags & 0x40 != 0 || flags & 0x40_0000 != 0),
        step_refused(RawOpenHow { flags, mode, resolve }) <==> (flags & 0x40 != 0 || flags
            & 0x40_0000 != 0 || resolve & 0x10 != 0),
        guard_applies(flags, SpecialFiles::Guard) <==> (flags & 0x800 == 0 && flags & 0x20_0000
            == 0 && flags & 0x1_0000 == 0),
        !guard_applies(flags, SpecialFiles::Allow),
        follows(at) <==> (at & 0x400 != 0 && at & 0x100 == 0),
{
    assert((flags & (0x40u64 | 0x40_0000u64) != 0) == (flags & 0x40 != 0 || flags & 0x40_0000 != 0)
        && (flags & (0x800u64 | 0x20_0000u64 | 0x1_0000u64) == 0) == (flags & 0x800 == 0 && flags
        & 0x20_0000 == 0 && flags & 0x1_0000 == 0)) by (bit_vector);
}

/// The guard against special files costs an open nothing: taken off again, the
/// flags are what the caller gave, and without it they were never changed.
pub proof fn law_guard_comes_off_again(flags: u64)
    ensures
        flags & 0x800 == 0 ==> (flags | O_NONBLOCK) & !O_NONBLOCK == flags,
        (flags | O_NONBLOCK) & 0x800 != 0,
{
    assert((flags & 0x800 == 0 ==> (flags | 0x800) & !0x800u64 == flags) && (flags | 0x800) & 0x800
        != 0) by (bit_vector);
}

/// A prefix may be written under with the reactor's credentials only if it is
/// `trusted.` and something more.
pub proof fn law_privileged_prefix_is_more_than_trusted(p: Seq<u8>)
    ensures
        is_privileged_prefix(p) <==> {
            &&& p.len() > 8
            &&& p[0] == 0x74 && p[1] == 0x72 && p[2] == 0x75 && p[3] == 0x73
            &&& p[4] == 0x74 && p[5] == 0x65 && p[6] == 0x64 && p[7] == 0x2e
        },
{
    if p.len() > 8 {
        let head = p.subrange(0, 8);
        assert(head[0] == p[0] && head[1] == p[1] && head[2] == p[2] && head[3] == p[3]);
        assert(head[4] == p[4] && head[5] == p[5] && head[6] == p[6] && head[7] == p[7]);
        if p[0] == 0x74 && p[1] == 0x72 && p[2] == 0x75 && p[3] == 0x73 && p[4] == 0x74 && p[5]
            == 0x65 && p[6] == 0x64 && p[7] == 0x2e {
            assert(head =~= trusted_ns());
        }
    }
}

} // verus!
