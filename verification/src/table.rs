//! The operation table: the owner of every kernel-visible payload from its
//! submission to its completion, the submission entries it stages, and the
//! routing of completions.
//!
//! - A payload stays in its operation's entry until the operation's own
//!   completion, whatever became of the caller.
//! - A descriptor closes with its last share, and each operation in flight
//!   holds one.
//! - An entry frees only at its own completion; its generation makes any
//!   other completion inert.
use crate::engine::{Engine, Operand, Sqe};
use crate::errno::Errno;
use crate::file::{share, Anchor, File, Statx};
use crate::kernel;
use crate::kernel::{Call, Memory};
use crate::policy::{PrivilegedXattrs, RawOpenHow};
use crate::sys;
use crate::sys::{
    gen_low, pack_raw, unpack_raw, AT_EMPTY_PATH, IORING_FSYNC_DATASYNC, IORING_OP_ASYNC_CANCEL,
    IORING_OP_FADVISE, IORING_OP_FALLOCATE, IORING_OP_FGETXATTR, IORING_OP_FSETXATTR,
    IORING_OP_FSYNC, IORING_OP_FTRUNCATE, IORING_OP_LINKAT, IORING_OP_MKDIRAT, IORING_OP_OPENAT2,
    IORING_OP_READV, IORING_OP_RENAMEAT, IORING_OP_SPLICE, IORING_OP_STATX, IORING_OP_SYMLINKAT,
    IORING_OP_TIMEOUT, IORING_OP_UNLINKAT, IORING_OP_WRITEV, IOSQE_BUFFER_SELECT, OPEN_HOW_SIZE,
    O_NONBLOCK, SLOT_MASK, SPLICE_F_MOVE, TAG_CANCEL, TAG_FADVISE, TAG_FALLOCATE, TAG_FGETXATTR,
    TAG_FSETXATTR, TAG_FSYNC, TAG_FTRUNCATE, TAG_LINKAT, TAG_MKDIRAT, TAG_OPEN, TAG_READV,
    TAG_RENAMEAT, TAG_SPLICE, TAG_STATX, TAG_SYMLINKAT, TAG_TIMEOUT, TAG_UNLINKAT, TAG_WAKE,
    TAG_WRITEV,
};
use crate::tally;
use crate::tally::Tally;
use std::collections::{HashMap, HashSet};
use std::sync::Arc;
use vstd::prelude::*;

verus! {

broadcast use vstd::std_specs::hash::group_hash_axioms;

/// The connection an operation runs for: its slot in the host's connection
/// table and that slot's generation. `None` where there is no connection.
pub type Owner = Option<(u32, u64)>;

/// One number per owner.
pub open spec fn owner_key(o: (u32, u64)) -> u128 {
    (o.0 as u128 * 0x1_0000_0000_0000_0000 + o.1 as u128) as u128
}

fn key_of(o: (u32, u64)) -> (r: u128)
    ensures
        r == owner_key(o),
{
    o.0 as u128 * 0x1_0000_0000_0000_0000 + o.1 as u128
}

/// Different owners have different numbers.
pub proof fn lemma_owner_key_injective(a: (u32, u64), b: (u32, u64))
    ensures
        owner_key(a) == owner_key(b) <==> a == b,
{
}

/// Where a completed operation's outcome goes. `R` is a reply channel's
/// sending end, `C` an on-loop callback, `S` the slot a refused submission
/// reports its reason to.
#[allow(inconsistent_fields)]
pub enum FsWaiter<R, C, S> {
    Channel(R),
    Embedded { owner: Owner, cb: C, on_fail: Option<Arc<S>> },
    Pump { owner: (u32, u64) },
}

impl<R, C, S> FsWaiter<R, C, S> {
    /// The connection whose teardown cancels the operation.
    pub open spec fn spec_owner(&self) -> Owner {
        match self {
            FsWaiter::Channel(_) => None,
            FsWaiter::Embedded { owner, .. } => *owner,
            FsWaiter::Pump { owner } => Some(*owner),
        }
    }

    pub fn owner(&self) -> (r: Owner)
        ensures
            r == self.spec_owner(),
    {
        match self {
            FsWaiter::Channel(_) => None,
            FsWaiter::Embedded { owner, .. } => *owner,
            FsWaiter::Pump { owner } => Some(*owner),
        }
    }

    /// The connection an on-loop callback runs for.
    pub open spec fn callback_owner(&self) -> Owner {
        match self {
            FsWaiter::Embedded { owner, .. } => *owner,
            _ => None,
        }
    }

    fn timer_owner(&self) -> (r: Owner)
        ensures
            r == self.callback_owner(),
    {
        match self {
            FsWaiter::Embedded { owner, .. } => *owner,
            _ => None,
        }
    }
}

/// What an operation's iovec array covers.
#[derive(Clone, Copy, Debug, PartialEq, Eq, Structural)]
pub enum IoVecs {
    Unused,
    /// One element per parked buffer, its whole length.
    Bufs,
    /// One element: a range of a leased receive buffer.
    Lease { at: usize, len: usize },
    /// One element: `want` bytes of the parked buffer's spare capacity, or
    /// of a buffer the kernel picks.
    Spare { want: usize },
}

/// A timer's relative duration.
#[derive(Clone, Copy, Debug, PartialEq, Eq, Structural)]
pub struct KernelTimespec {
    pub tv_sec: i64,
    pub tv_nsec: i64,
}

/// One delivery's claim on a receive-pool buffer, shared by every leased
/// write that reads from it.
#[derive(Clone, Copy, Debug, PartialEq, Eq, Structural)]
pub struct LeaseHold {
    /// Which claim.
    pub id: u64,
    /// The pool buffer it claims.
    pub bid: u16,
}

#[derive(Clone, Copy, Debug, PartialEq, Eq, Structural)]
pub enum FsOpState {
    Free,
    InFlight { tag: u8 },
}

/// One in-flight, or free, operation. It owns everything the kernel can see.
pub struct FsOpEntry<T, R, C, S> {
    pub state: FsOpState,
    pub waiter: Option<FsWaiter<R, C, S>>,
    /// Owned data buffers: read destinations, write sources, or the single
    /// value of an extended-attribute operation.
    pub bufs: Vec<Vec<u8>>,
    pub iov: IoVecs,
    pub path: Option<Vec<u8>>,
    pub path2: Option<Vec<u8>>,
    pub how: Option<RawOpenHow>,
    /// The open carries an `O_NONBLOCK` that the special-file guard added.
    pub strip_nonblock: bool,
    /// The `statx` result pad.
    pub stat: Option<Statx>,
    pub ts: Option<KernelTimespec>,
    /// The timer's cancellation was asked for by its caller.
    pub retracted: bool,
    pub anchor: Option<Anchor<T>>,
    pub anchor2: Option<Anchor<T>>,
    /// The file the operation targets, kept open until its completion.
    pub file: Option<Arc<T>>,
    /// The operation's share of a leased receive buffer.
    pub recv_lease: Option<LeaseHold>,
    /// The byte count a leased write asked for.
    pub lease_want: u32,
}

impl<T, R, C, S> FsOpEntry<T, R, C, S> {
    /// The entry holds nothing.
    pub open spec fn is_clear(&self) -> bool {
        &&& self.state == FsOpState::Free
        &&& self.waiter is None
        &&& self.bufs@.len() == 0
        &&& self.iov == IoVecs::Unused
        &&& self.path is None
        &&& self.path2 is None
        &&& self.how is None
        &&& !self.strip_nonblock
        &&& self.stat is None
        &&& self.ts is None
        &&& !self.retracted
        &&& self.anchor is None
        &&& self.anchor2 is None
        &&& self.file is None
        &&& self.recv_lease is None
        &&& self.lease_want == 0
    }

    /// The entry waits for a completion carrying `tag`, and holds no payload
    /// yet.
    pub open spec fn is_bare(&self, tag: u8, waiter: FsWaiter<R, C, S>) -> bool {
        &&& self.state == FsOpState::InFlight { tag }
        &&& self.waiter == Some(waiter)
        &&& self.bufs@.len() == 0
        &&& self.iov == IoVecs::Unused
        &&& self.path is None
        &&& self.path2 is None
        &&& self.how is None
        &&& !self.strip_nonblock
        &&& self.stat is None
        &&& self.ts is None
        &&& !self.retracted
        &&& self.anchor is None
        &&& self.anchor2 is None
        &&& self.file is None
        &&& self.recv_lease is None
        &&& self.lease_want == 0
    }

    /// A timer armed for the connection `o`.
    pub open spec fn is_timer_of(&self, o: (u32, u64)) -> bool {
        &&& self.state == FsOpState::InFlight { tag: TAG_TIMEOUT }
        &&& self.waiter is Some
        &&& self.waiter->Some_0.callback_owner() == Some(o)
    }

    /// A write holding a share of the claim `id`.
    pub open spec fn holds_lease(&self, id: u64) -> bool {
        self.recv_lease is Some && self.recv_lease->Some_0.id == id
    }

    /// An empty, free entry.
    pub fn new() -> (r: FsOpEntry<T, R, C, S>)
        ensures
            r.is_clear(),
    {
        FsOpEntry {
            state: FsOpState::Free,
            waiter: None,
            bufs: Vec::new(),
            iov: IoVecs::Unused,
            path: None,
            path2: None,
            how: None,
            strip_nonblock: false,
            stat: None,
            ts: None,
            retracted: false,
            anchor: None,
            anchor2: None,
            file: None,
            recv_lease: None,
            lease_want: 0,
        }
    }

    /// An entry in flight under `tag`, with no payload yet.
    fn in_flight(tag: u8, waiter: FsWaiter<R, C, S>) -> (r: FsOpEntry<T, R, C, S>)
        ensures
            r.is_bare(tag, waiter),
    {
        let mut e = FsOpEntry::new();
        e.state = FsOpState::InFlight { tag };
        e.waiter = Some(waiter);
        e
    }
}

/// A table slot: its generation, bumped each time the slot frees, and what it
/// holds.
pub struct SlotEntry<E> {
    pub generation: u64,
    pub state: E,
}

/// What crosses a reply channel for one completed operation.
pub struct FsOutcome<T> {
    pub res: Result<i32, Errno>,
    /// The owned buffers, handed back.
    pub bufs: Vec<Vec<u8>>,
    /// The file a successful open made.
    pub file: Option<File<T>>,
    /// The `statx` result pad.
    pub stat: Option<Statx>,
}

/// The outcome handed to an on-loop callback: the result, and what the
/// operation produced or was given.
pub struct FsDone<T> {
    pub result: Result<i32, Errno>,
    /// The outcome is a refusal to submit, not the kernel's answer.
    pub refused: bool,
    pub bufs: Vec<Vec<u8>>,
    pub file: Option<File<T>>,
    pub stat: Option<Statx>,
    /// The receive-pool buffer a leased write borrowed, owed back to the
    /// pool.
    pub recv_lease: Option<u16>,
}

/// What is left for the host to do with a routed outcome.
pub enum ReapedFs<T, R, C, S> {
    /// Nothing: the outcome was inert, or nobody is left to hear it.
    Nothing,
    /// Send the outcome over its reply channel.
    Reply(R, FsOutcome<T>),
    /// Report why a submission was refused, with the payload it was given;
    /// its callback has been dropped unfired.
    Refused(Arc<S>, Errno, Vec<Vec<u8>>),
    /// Fire the callback with the outcome, for its owner.
    Embedded(C, FsDone<T>, Owner),
    /// Hand a pump read's outcome to the connection it ran for.
    Pump(FsDone<T>, (u32, u64)),
}

/// Where an outcome that fires no callback goes: over its channel; to the
/// reason slot, where it is a refusal and there is one; nowhere otherwise.
pub open spec fn delivered<T, R, C, S>(
    waiter: Option<FsWaiter<R, C, S>>,
    res: Result<i32, Errno>,
    bufs: Vec<Vec<u8>>,
    file: Option<File<T>>,
    stat: Option<Statx>,
    refused: bool,
) -> ReapedFs<T, R, C, S> {
    match waiter {
        Some(FsWaiter::Channel(tx)) => ReapedFs::Reply(tx, FsOutcome { res, bufs, file, stat }),
        Some(FsWaiter::Embedded { cb, on_fail, owner }) => match (refused, on_fail, res) {
            (true, Some(sink), Err(errno)) => ReapedFs::Refused(sink, errno, bufs),
            _ => ReapedFs::Nothing,
        },
        Some(FsWaiter::Pump { owner }) => ReapedFs::Nothing,
        None => ReapedFs::Nothing,
    }
}

/// Route an outcome that fires no callback.
pub fn deliver<T, R, C, S>(
    waiter: Option<FsWaiter<R, C, S>>,
    res: Result<i32, Errno>,
    bufs: Vec<Vec<u8>>,
    file: Option<File<T>>,
    stat: Option<Statx>,
    refused: bool,
) -> (r: ReapedFs<T, R, C, S>)
    ensures
        r == delivered(waiter, res, bufs, file, stat, refused),
{
    match waiter {
        Some(FsWaiter::Channel(tx)) => ReapedFs::Reply(tx, FsOutcome { res, bufs, file, stat }),
        Some(FsWaiter::Embedded { cb: _, on_fail, owner: _ }) => {
            if refused {
                match (on_fail, res) {
                    (Some(sink), Err(errno)) => ReapedFs::Refused(sink, errno, bufs),
                    _ => ReapedFs::Nothing,
                }
            } else {
                ReapedFs::Nothing
            }
        },
        Some(FsWaiter::Pump { owner: _ }) => ReapedFs::Nothing,
        None => ReapedFs::Nothing,
    }
}

/// What a refused submission answers: its reason and the payloads it was
/// given.
pub open spec fn refusal<T, R, C, S>(
    waiter: FsWaiter<R, C, S>,
    err: Errno,
    bufs: Vec<Vec<u8>>,
) -> ReapedFs<T, R, C, S> {
    delivered(Some(waiter), Err(err), bufs, None, None, true)
}

fn fail<T, R, C, S>(waiter: FsWaiter<R, C, S>, err: Errno, bufs: Vec<Vec<u8>>) -> (r: ReapedFs<
    T,
    R,
    C,
    S,
>)
    ensures
        r == refusal::<T, R, C, S>(waiter, err, bufs),
{
    deliver(Some(waiter), Err(err), bufs, None, None, true)
}

/// What a reaped entry yields once its payloads are taken out.
pub struct Completed<R, C, S> {
    pub waiter: Option<FsWaiter<R, C, S>>,
    pub bufs: Vec<Vec<u8>>,
    pub stat: Option<Statx>,
    pub retracted: bool,
    /// The open's own flags, where the special-file guard's is to be taken
    /// back off the descriptor.
    pub strip_nonblock: Option<u64>,
    /// Whether the operation was a leased write.
    pub leased: bool,
    /// The leased buffer, surfaced by the completion that drops its last
    /// share.
    pub recv_lease: Option<u16>,
    pub lease_want: u32,
}

/// The reactor's tables.
pub struct FsCore<T, R, C, S> {
    pub ops: Vec<SlotEntry<FsOpEntry<T, R, C, S>>>,
    pub op_free: Vec<u32>,
    /// Attributes written under the reactor's own credentials.
    pub priv_xattrs: PrivilegedXattrs,
    /// This reactor's identity, so that a timer names the table that issued
    /// it.
    pub core_id: u64,
    /// The highest generation swept, per connection slot.
    pub closed_owners: HashMap<u32, u64>,
    /// Armed timers per owner.
    pub timers: Tally,
    /// The most timers one owner may have armed.
    pub timer_cap: Option<u32>,
    /// Shares of each leased receive buffer.
    pub leases: Tally,
    /// The next claim to mint.
    pub next_hold: u64,
}

/// With a free slot in hand, every count is below its width.
proof fn lemma_launch_counts<T, R, C, S>(before: FsCore<T, R, C, S>, slot: u32)
    requires
        before.wf(),
        before.op_free@.len() > 0,
        slot == before.op_free@.last(),
    ensures
        forall|o: (u32, u64)| before.timers.of(#[trigger] owner_key(o)) < u32::MAX,
        forall|id: u64| before.leases.of(#[trigger] (id as u128)) < u32::MAX,
{
    let n = before.op_free@.len() - 1;
    assert(before.op_free@[n] == slot);
    assert(before.ops@[slot as int].state.is_clear());
    assert forall|o: (u32, u64)| before.timers.of(#[trigger] owner_key(o)) < u32::MAX by {
        let p = FsCore::<T, R, C, S>::timer_pred(o);
        assert(!p(before.ops@[slot as int]));
        tally::lemma_count_bound(before.ops@, p);
    }
    assert forall|id: u64| before.leases.of(#[trigger] (id as u128)) < u32::MAX by {
        let p = FsCore::<T, R, C, S>::lease_pred(id);
        assert(!p(before.ops@[slot as int]));
        tally::lemma_count_bound(before.ops@, p);
    }
}

/// Taking the last free slot for an entry keeps the free list exact.
proof fn lemma_free_list_pop<T, R, C, S>(
    before: FsCore<T, R, C, S>,
    after: FsCore<T, R, C, S>,
    slot: u32,
    entry: SlotEntry<FsOpEntry<T, R, C, S>>,
)
    requires
        before.wf(),
        before.op_free@.len() > 0,
        slot == before.op_free@.last(),
        after.ops@ == before.ops@.update(slot as int, entry),
        after.op_free@ == before.op_free@.drop_last(),
        entry.state.state is InFlight,
        entry.state.waiter is Some,
    ensures
        after.free_list_wf(),
        after.slots_wf(),
{
    let n = before.op_free@.len() - 1;
    assert(before.op_free@[n] == slot);
    assert forall|i: int| 0 <= i < after.op_free@.len() implies (#[trigger] after.op_free@[i])
        < after.ops@.len() && after.ops@[after.op_free@[i] as int].state.state
        == FsOpState::Free by {
        assert(after.op_free@[i] == before.op_free@[i]);
        assert(before.op_free@[i] != slot);
    }
    assert forall|s: int|
        0 <= s < after.ops@.len() && (#[trigger] after.ops@[s]).state.state
            == FsOpState::Free implies after.op_free@.contains(s as u32) by {
        assert(s != slot);
        assert(before.ops@[s] == after.ops@[s]);
        let k = choose|k: int| 0 <= k < before.op_free@.len() && before.op_free@[k] == s as u32;
        assert(k != n);
        assert(after.op_free@[k] == s as u32);
    }
    assert forall|s: int| 0 <= s < after.ops@.len() implies if (#[trigger] after.ops@[s]).state.state
        == FsOpState::Free {
        after.ops@[s].state.is_clear()
    } else {
        after.ops@[s].state.waiter is Some
    } by {
        if s != slot {
            assert(before.ops@[s] == after.ops@[s]);
        }
    }
}

/// Bumping a free slot's generation keeps the invariant.
proof fn lemma_generation_bump<T, R, C, S>(
    before: FsCore<T, R, C, S>,
    after: FsCore<T, R, C, S>,
    slot: u32,
)
    requires
        before.wf(),
        before.op_free@.len() > 0,
        slot == before.op_free@.last(),
        after.ops@.len() == before.ops@.len(),
        after.ops@ == before.ops@.update(
            slot as int,
            SlotEntry {
                generation: after.ops@[slot as int].generation,
                state: before.ops@[slot as int].state,
            },
        ),
        after.op_free@ == before.op_free@,
        after.timers == before.timers,
        after.leases == before.leases,
    ensures
        after.wf(),
{
    let n = before.op_free@.len() - 1;
    assert(before.op_free@[n] == slot);
    let entry = after.ops@[slot as int];
    assert forall|i: int| 0 <= i < after.op_free@.len() implies (#[trigger] after.op_free@[i])
        < after.ops@.len() && after.ops@[after.op_free@[i] as int].state.state
        == FsOpState::Free by {
        assert(before.ops@[before.op_free@[i] as int].state.state == FsOpState::Free);
    }
    assert forall|s: int|
        0 <= s < after.ops@.len() && (#[trigger] after.ops@[s]).state.state
            == FsOpState::Free implies after.op_free@.contains(s as u32) by {
        assert(before.ops@[s].state.state == FsOpState::Free);
    }
    assert forall|s: int| 0 <= s < after.ops@.len() implies if (#[trigger] after.ops@[s]).state.state
        == FsOpState::Free {
        after.ops@[s].state.is_clear()
    } else {
        after.ops@[s].state.waiter is Some
    } by {
        assert(before.ops@[s].state == after.ops@[s].state);
    }
    assert forall|o: (u32, u64)|
        after.timers.of(#[trigger] owner_key(o)) == tally::count_where(
            after.ops@,
            FsCore::<T, R, C, S>::timer_pred(o),
        ) by {
        tally::lemma_count_update(
            before.ops@,
            slot as int,
            entry,
            FsCore::<T, R, C, S>::timer_pred(o),
        );
    }
    assert forall|id: u64|
        after.leases.of(id as u128) == tally::count_where(
            after.ops@,
            #[trigger] FsCore::<T, R, C, S>::lease_pred(id),
        ) by {
        tally::lemma_count_update(
            before.ops@,
            slot as int,
            entry,
            FsCore::<T, R, C, S>::lease_pred(id),
        );
    }
}

impl<T, R, C, S> FsCore<T, R, C, S> {
    pub open spec fn timer_pred(o: (u32, u64)) -> spec_fn(
        SlotEntry<FsOpEntry<T, R, C, S>>,
    ) -> bool {
        |e: SlotEntry<FsOpEntry<T, R, C, S>>| e.state.is_timer_of(o)
    }

    pub open spec fn lease_pred(id: u64) -> spec_fn(SlotEntry<FsOpEntry<T, R, C, S>>) -> bool {
        |e: SlotEntry<FsOpEntry<T, R, C, S>>| e.state.holds_lease(id)
    }

    /// The free list holds exactly the free slots, each once.
    pub open spec fn free_list_wf(&self) -> bool {
        &&& self.op_free@.no_duplicates()
        &&& forall|i: int|
            0 <= i < self.op_free@.len() ==> (#[trigger] self.op_free@[i]) < self.ops@.len()
                && self.ops@[self.op_free@[i] as int].state.state == FsOpState::Free
        &&& forall|s: int|
            0 <= s < self.ops@.len() && (#[trigger] self.ops@[s]).state.state == FsOpState::Free
                ==> self.op_free@.contains(s as u32)
    }

    /// A free slot holds nothing; one in flight has somebody to tell.
    pub open spec fn slots_wf(&self) -> bool {
        forall|s: int|
            0 <= s < self.ops@.len() ==> if (#[trigger] self.ops@[s]).state.state
                == FsOpState::Free {
                self.ops@[s].state.is_clear()
            } else {
                self.ops@[s].state.waiter is Some
            }
    }

    /// Each owner's timer count is the number of its timers in flight, and
    /// each claim's share count the number of writes in flight that hold it.
    pub open spec fn counts_wf(&self) -> bool {
        &&& self.timers.wf()
        &&& self.leases.wf()
        &&& forall|o: (u32, u64)|
            self.timers.of(#[trigger] owner_key(o)) == tally::count_where(
                self.ops@,
                Self::timer_pred(o),
            )
        &&& forall|id: u64|
            self.leases.of(id as u128) == tally::count_where(
                self.ops@,
                #[trigger] Self::lease_pred(id),
            )
    }

    /// The table's invariant.
    pub open spec fn wf(&self) -> bool {
        &&& self.ops@.len() <= u32::MAX
        &&& self.free_list_wf()
        &&& self.slots_wf()
        &&& self.counts_wf()
    }

    /// Nothing but the operation slots, the free list and the two counts
    /// differs.
    pub open spec fn same_rest(&self, other: Self) -> bool {
        &&& self.priv_xattrs == other.priv_xattrs
        &&& self.core_id == other.core_id
        &&& self.closed_owners == other.closed_owners
        &&& self.timer_cap == other.timer_cap
        &&& self.next_hold == other.next_hold
    }

    /// Whether a completion is the one its slot waits for.
    pub open spec fn completes(&self, tag: u8, slot: u32, gen32: u32) -> bool {
        &&& slot < self.ops@.len()
        &&& sys::low32(self.ops@[slot as int].generation) == gen32
        &&& self.ops@[slot as int].state.state == FsOpState::InFlight { tag }
    }

    /// Slot `slot` is freed: its entry released, its generation bumped, the
    /// slot on the free list, every other slot as it was.
    pub open spec fn frees(&self, before: Self, slot: u32) -> bool {
        &&& self.ops@.len() == before.ops@.len()
        &&& forall|j: int|
            0 <= j < self.ops@.len() && j != slot ==> #[trigger] self.ops@[j] == before.ops@[j]
        &&& self.ops@[slot as int].state.is_clear()
        &&& self.ops@[slot as int].generation == sys::next_generation(
            before.ops@[slot as int].generation,
        )
        &&& self.op_free@ == before.op_free@.push(slot)
    }

    /// The entry `e` has been launched: parked in the slot the free list gave
    /// and staged as `sqe` under that slot's routing word.
    pub open spec fn launched(
        &self,
        before: Self,
        eng: Engine,
        eng_before: Engine,
        e: FsOpEntry<T, R, C, S>,
        sqe: Sqe,
    ) -> bool {
        let slot = before.op_free@.last();
        let generation = before.ops@[slot as int].generation;
        &&& before.op_free@.len() > 0
        &&& eng_before.spec_has_room()
        &&& e.state is InFlight
        &&& self.ops@ == before.ops@.update(slot as int, SlotEntry { generation, state: e })
        &&& self.op_free@ == before.op_free@.drop_last()
        &&& self.same_rest(before)
        &&& eng.staged@ == eng_before.staged@.push(
            Sqe { user_data: sys::packed(e.state->tag, slot, sys::low32(generation)), ..sqe },
        )
        &&& eng.same_limits(eng_before)
    }

    /// Why a launch is refused now: no free slot, or a ring that is full.
    pub open spec fn launch_refusal(&self, eng: Engine) -> Option<Errno> {
        if self.op_free@.len() == 0 {
            Some(Errno::EBUSY)
        } else if !eng.spec_has_room() {
            Some(eng.refusal)
        } else {
            None
        }
    }

    /// A launch was refused: nothing is in flight that was not, and no slot
    /// was consumed. A slot that was tried has a new generation.
    pub open spec fn unlaunched(&self, before: Self, eng: Engine, eng_before: Engine) -> bool {
        &&& eng.staged@ == eng_before.staged@
        &&& eng.same_limits(eng_before)
        &&& self.op_free@ == before.op_free@
        &&& self.same_rest(before)
        &&& if before.op_free@.len() == 0 {
            self.ops@ == before.ops@
        } else {
            let slot = before.op_free@.last();
            let was = before.ops@[slot as int];
            self.ops@ == before.ops@.update(
                slot as int,
                SlotEntry { generation: sys::next_generation(was.generation), state: was.state },
            )
        }
    }

    /// A table of `op_slots` free slots.
    pub fn new(op_slots: u32, core_id: u64) -> (r: FsCore<T, R, C, S>)
        ensures
            r.wf(),
            r.ops@.len() == op_slots,
            forall|s: int|
                0 <= s < op_slots ==> (#[trigger] r.ops@[s]).generation == 0
                    && r.ops@[s].state.is_clear(),
            r.op_free@ == Seq::new(op_slots as nat, |i: int| (op_slots - 1 - i) as u32),
            r.core_id == core_id,
            r.timer_cap is None,
            r.closed_owners@ == Map::<u32, u64>::empty(),
            r.priv_xattrs.spec_prefixes() == Seq::<Seq<u8>>::empty(),
            forall|o: (u32, u64)| r.timers.of(#[trigger] owner_key(o)) == 0,
    {
        let mut ops: Vec<SlotEntry<FsOpEntry<T, R, C, S>>> = Vec::new();
        let mut op_free: Vec<u32> = Vec::new();
        let mut i: u32 = 0;
        while i < op_slots
            invariant
                0 <= i <= op_slots,
                ops@.len() == i,
                op_free@.len() == i,
                forall|s: int|
                    0 <= s < i ==> (#[trigger] ops@[s]).generation == 0 && ops@[s].state.is_clear(),
                forall|s: int| 0 <= s < i ==> #[trigger] op_free@[s] == op_slots - 1 - s,
            decreases op_slots - i,
        {
            ops.push(SlotEntry { generation: 0, state: FsOpEntry::new() });
            op_free.push(op_slots - 1 - i);
            i = i + 1;
        }
        let r = FsCore {
            ops,
            op_free,
            priv_xattrs: PrivilegedXattrs::new(),
            core_id,
            closed_owners: HashMap::new(),
            timers: Tally::new(),
            timer_cap: None,
            leases: Tally::new(),
            next_hold: 0,
        };
        proof {
            assert forall|s: int|
                0 <= s < r.ops@.len() && (#[trigger] r.ops@[s]).state.state
                    == FsOpState::Free implies r.op_free@.contains(s as u32) by {
                assert(r.op_free@[op_slots - 1 - s] == s as u32);
            }
            assert forall|o: (u32, u64)|
                r.timers.of(#[trigger] owner_key(o)) == tally::count_where(
                    r.ops@,
                    Self::timer_pred(o),
                ) by {
                tally::lemma_count_none(r.ops@, Self::timer_pred(o));
            }
            assert forall|id: u64|
                r.leases.of(id as u128) == tally::count_where(
                    r.ops@,
                    #[trigger] Self::lease_pred(id),
                ) by {
                tally::lemma_count_none(r.ops@, Self::lease_pred(id));
            }
            assert(r.op_free@ =~= Seq::new(op_slots as nat, |i: int| (op_slots - 1 - i) as u32));
        }
        r
    }

    /// Park an entry in a free slot and stage its submission, or give it back
    /// with the reason. A timer or a leased write is counted only once it is
    /// in flight.
    fn launch(&mut self, eng: &mut Engine, e: FsOpEntry<T, R, C, S>, sqe: Sqe) -> (r: Result<
        u32,
        (FsOpEntry<T, R, C, S>, Errno),
    >)
        requires
            old(self).wf(),
            e.state is InFlight,
            e.waiter is Some,
        ensures
            final(self).wf(),
            match r {
                Ok(slot) => old(self).op_free@.len() > 0 && slot == old(self).op_free@.last()
                    && final(self).launched(*old(self), *final(eng), *old(eng), e, sqe),
                Err((back, err)) => back == e && final(self).unlaunched(
                    *old(self),
                    *final(eng),
                    *old(eng),
                ) && old(self).launch_refusal(*old(eng)) == Some(err),
            },
            (r is Ok) == (old(self).launch_refusal(*old(eng)) is None),
    {
        let slot = match self.op_free.pop() {
            Some(slot) => slot,
            None => {
                return Err((e, Errno::EBUSY));
            },
        };
        let ghost before = *old(self);
        let tag: u8 = match e.state {
            FsOpState::InFlight { tag } => tag,
            FsOpState::Free => 0,
        };
        let generation: u64 = self.ops[slot as usize].generation;
        let mut entry = sqe;
        entry.user_data = pack_raw(tag, slot, gen_low(generation));
        match eng.stage(entry) {
            Ok(()) => {
                let timer: Owner = if tag == TAG_TIMEOUT {
                    match &e.waiter {
                        Some(w) => w.timer_owner(),
                        None => None,
                    }
                } else {
                    None
                };
                let hold = e.recv_lease;
                let ghost new_entry = SlotEntry { generation, state: e };
                proof {
                    lemma_launch_counts(before, slot);
                }
                match timer {
                    Some(o) => {
                        self.timers.bump(key_of(o));
                    },
                    None => {},
                }
                match hold {
                    Some(h) => {
                        self.leases.bump(h.id as u128);
                    },
                    None => {},
                }
                self.ops.set(slot as usize, SlotEntry { generation, state: e });
                proof {
                    lemma_free_list_pop(before, *self, slot, new_entry);
                    assert forall|o: (u32, u64)|
                        self.timers.of(#[trigger] owner_key(o)) == tally::count_where(
                            self.ops@,
                            Self::timer_pred(o),
                        ) by {
                        if timer is Some {
                            lemma_owner_key_injective(o, timer->Some_0);
                        }
                        tally::lemma_count_update(
                            before.ops@,
                            slot as int,
                            new_entry,
                            Self::timer_pred(o),
                        );
                    }
                    assert forall|id: u64|
                        self.leases.of(id as u128) == tally::count_where(
                            self.ops@,
                            #[trigger] Self::lease_pred(id),
                        ) by {
                        tally::lemma_count_update(
                            before.ops@,
                            slot as int,
                            new_entry,
                            Self::lease_pred(id),
                        );
                    }
                    assert(self.launched(before, *eng, *old(eng), e, sqe));
                }
                Ok(slot)
            },
            Err(err) => {
                let ghost was = self.ops@[slot as int];
                self.ops[slot as usize].generation = generation.wrapping_add(1);
                self.op_free.push(slot);
                proof {
                    assert(self.op_free@ =~= before.op_free@);
                    lemma_generation_bump(before, *self, slot);
                }
                Err((e, err))
            },
        }
    }
}

/// The result a completion code stands for. The kernel's internal restart
/// codes read as an interruption, the way its own read and write path folds
/// them; the code between them is none of them.
pub open spec fn mapped(res: i32) -> Result<i32, Errno> {
    if res == -512 || res == -513 || res == -514 || res == -516 {
        Err(Errno::EINTR)
    } else if res == i32::MIN {
        Err(Errno::of_code(i32::MIN))
    } else if res < 0 {
        Err(Errno::of_code((-res) as i32))
    } else {
        Ok(res)
    }
}

/// The result a completion code stands for.
pub fn map_res(res: i32) -> (r: Result<i32, Errno>)
    ensures
        r == mapped(res),
{
    if res == -512 || res == -513 || res == -514 || res == -516 {
        return Err(Errno::EINTR);
    }
    if res == i32::MIN {
        Err(Errno::from_raw(res))
    } else if res < 0 {
        Err(Errno::from_raw(-res))
    } else {
        Ok(res)
    }
}

/// A leased write that came up short is an error: by the time its caller
/// could retry, its source may hold another connection's bytes.
pub open spec fn lease_checked(r: Result<i32, Errno>, leased: bool, want: u32) -> Result<
    i32,
    Errno,
> {
    match r {
        Ok(n) => if leased && (n as u32) < want {
            Err(Errno::EIO)
        } else {
            r
        },
        Err(_) => r,
    }
}

fn check_lease(r: Result<i32, Errno>, leased: bool, want: u32) -> (o: Result<i32, Errno>)
    requires
        r is Ok ==> r->Ok_0 >= 0,
    ensures
        o == lease_checked(r, leased, want),
{
    match r {
        Ok(n) => if leased && (n as u32) < want {
            Err(Errno::EIO)
        } else {
            Ok(n)
        },
        Err(e) => Err(e),
    }
}

/// A timer's expiry is its success.
pub open spec fn timer_fired(tag: u8, r: Result<i32, Errno>) -> Result<i32, Errno> {
    if tag == TAG_TIMEOUT && r == Err::<i32, Errno>(Errno::ETIME) {
        Ok(0)
    } else {
        r
    }
}

/// The result a live completion answers with.
pub open spec fn settled(tag: u8, res: i32, leased: bool, want: u32) -> Result<i32, Errno> {
    lease_checked(timer_fired(tag, mapped(res)), leased, want)
}

/// The pad of an operation that had one, as the kernel left it.
pub open spec fn filled<T, R, C, S>(e: FsOpEntry<T, R, C, S>, pad: Statx) -> Option<Statx> {
    if e.stat is Some {
        Some(pad)
    } else {
        None
    }
}

/// The flags to restore on a freshly opened descriptor, where the
/// special-file guard's is to come off.
pub open spec fn restored_flags<T, R, C, S>(e: FsOpEntry<T, R, C, S>) -> Option<u64> {
    if e.strip_nonblock && e.how is Some {
        Some(e.how->Some_0.flags & !O_NONBLOCK)
    } else {
        None
    }
}

/// The leased buffer that surfaces with a completion: only where it drops the
/// last of `shares`.
pub open spec fn surfaced<T, R, C, S>(e: FsOpEntry<T, R, C, S>, shares: nat) -> Option<u16> {
    match e.recv_lease {
        Some(h) => if shares == 1 {
            Some(h.bid)
        } else {
            None
        },
        None => None,
    }
}

/// How a live completion of the entry `e` is routed.
pub open spec fn reaped<T, R, C, S>(
    e: FsOpEntry<T, R, C, S>,
    tag: u8,
    res: i32,
    pad: Statx,
    file: Option<File<T>>,
    shares: nat,
) -> ReapedFs<T, R, C, S> {
    let result = settled(tag, res, e.recv_lease is Some, e.lease_want);
    let done = FsDone {
        result,
        refused: e.retracted && result == Err::<i32, Errno>(Errno::ECANCELED),
        bufs: e.bufs,
        file,
        stat: filled(e, pad),
        recv_lease: surfaced(e, shares),
    };
    match e.waiter {
        Some(FsWaiter::Channel(tx)) => ReapedFs::Reply(
            tx,
            FsOutcome { res: result, bufs: e.bufs, file, stat: filled(e, pad) },
        ),
        Some(FsWaiter::Embedded { owner, cb, on_fail }) => ReapedFs::Embedded(cb, done, owner),
        Some(FsWaiter::Pump { owner }) => ReapedFs::Pump(done, owner),
        None => ReapedFs::Nothing,
    }
}

/// The file a completion makes: one around the descriptor it carries, where
/// it is a successful open; none otherwise.
pub open spec fn opened<T, F: FnOnce(i32, Option<u64>) -> Arc<T>>(
    file: Option<File<T>>,
    tag: u8,
    res: i32,
    strip: Option<u64>,
    adopt: F,
) -> bool {
    if tag == TAG_OPEN && res >= 0 {
        file is Some && file->Some_0.raw == res && call_ensures(
            adopt,
            (res, strip),
            file->Some_0.fd,
        )
    } else {
        file is None
    }
}

/// Freeing a slot keeps the free list exact.
proof fn lemma_free_list_push<T, R, C, S>(
    before: FsCore<T, R, C, S>,
    after: FsCore<T, R, C, S>,
    slot: u32,
)
    requires
        before.wf(),
        slot < before.ops@.len(),
        before.ops@[slot as int].state.state is InFlight,
        after.frees(before, slot),
    ensures
        after.free_list_wf(),
        after.slots_wf(),
{
    let n = before.op_free@.len() as int;
    assert(!before.op_free@.contains(slot)) by {
        if before.op_free@.contains(slot) {
            let k = choose|k: int| 0 <= k < n && before.op_free@[k] == slot;
            assert(before.ops@[before.op_free@[k] as int].state.state == FsOpState::Free);
        }
    }
    assert forall|i: int, j: int|
        0 <= i < after.op_free@.len() && 0 <= j < after.op_free@.len() && i
            != j implies after.op_free@[i] != after.op_free@[j] by {
        if i < n {
            assert(before.op_free@.contains(before.op_free@[i]));
        }
        if j < n {
            assert(before.op_free@.contains(before.op_free@[j]));
        }
    }
    assert forall|i: int| 0 <= i < after.op_free@.len() implies (#[trigger] after.op_free@[i])
        < after.ops@.len() && after.ops@[after.op_free@[i] as int].state.state
        == FsOpState::Free by {
        if i < n {
            assert(before.op_free@[i] == after.op_free@[i]);
            assert(before.op_free@.contains(before.op_free@[i]));
        }
    }
    assert forall|s: int|
        0 <= s < after.ops@.len() && (#[trigger] after.ops@[s]).state.state
            == FsOpState::Free implies after.op_free@.contains(s as u32) by {
        if s == slot {
            assert(after.op_free@[n] == slot);
        } else {
            assert(before.ops@[s] == after.ops@[s]);
            let k = choose|k: int| 0 <= k < n && before.op_free@[k] == s as u32;
            assert(after.op_free@[k] == s as u32);
        }
    }
    assert forall|s: int| 0 <= s < after.ops@.len() implies if (#[trigger] after.ops@[s]).state.state
        == FsOpState::Free {
        after.ops@[s].state.is_clear()
    } else {
        after.ops@[s].state.waiter is Some
    } by {
        if s != slot {
            assert(before.ops@[s] == after.ops@[s]);
        }
    }
}

impl<T, R, C, S> FsCore<T, R, C, S> {
    /// How many writes in flight share the buffer that slot `slot`'s
    /// operation reads from, itself among them.
    pub open spec fn shares_of(&self, slot: u32) -> nat {
        match self.ops@[slot as int].state.recv_lease {
            Some(h) => self.leases.of(h.id as u128),
            None => 0,
        }
    }

    /// Take a completed operation out: its waiter and payloads. The slot is
    /// freed before anybody hears of the completion.
    fn take_op(&mut self, tag: u8, op_slot: u32, gen32: u32) -> (r: Option<Completed<R, C, S>>)
        requires
            old(self).wf(),
        ensures
            final(self).wf(),
            match r {
                None => !old(self).completes(tag, op_slot, gen32) && *final(self) == *old(self),
                Some(done) => {
                    let e = old(self).ops@[op_slot as int].state;
                    &&& old(self).completes(tag, op_slot, gen32)
                    &&& final(self).frees(*old(self), op_slot)
                    &&& final(self).same_rest(*old(self))
                    &&& done.waiter == e.waiter
                    &&& done.bufs == e.bufs
                    &&& done.stat == e.stat
                    &&& done.retracted == e.retracted
                    &&& done.strip_nonblock == restored_flags(e)
                    &&& done.leased == (e.recv_lease is Some)
                    &&& done.recv_lease == surfaced(e, old(self).shares_of(op_slot))
                    &&& done.lease_want == e.lease_want
                },
            },
    {
        let i = op_slot as usize;
        if i >= self.ops.len() {
            return None;
        }
        let generation: u64 = self.ops[i].generation;
        if gen_low(generation) != gen32 {
            return None;
        }
        match self.ops[i].state.state {
            FsOpState::InFlight { tag: t } => {
                if t != tag {
                    return None;
                }
            },
            FsOpState::Free => {
                return None;
            },
        }
        let ghost before = *old(self);
        let ghost was = before.ops@[i as int];
        let mut e = SlotEntry {
            generation: generation.wrapping_add(1),
            state: FsOpEntry::new(),
        };
        std::mem::swap(&mut self.ops[i], &mut e);
        let e = e.state;
        assert(e == was.state);
        self.op_free.push(op_slot);
        proof {
            lemma_free_list_push(before, *self, op_slot);
        }
        let timer: Owner = if tag == TAG_TIMEOUT {
            match &e.waiter {
                Some(w) => w.timer_owner(),
                None => None,
            }
        } else {
            None
        };
        match timer {
            Some(o) => {
                proof {
                    tally::lemma_count_some(before.ops@, i as int, Self::timer_pred(o));
                }
                self.timers.release(key_of(o));
            },
            None => {},
        }
        let mut recv_lease: Option<u16> = None;
        let leased = e.recv_lease.is_some();
        match e.recv_lease {
            Some(h) => {
                proof {
                    tally::lemma_count_some(before.ops@, i as int, Self::lease_pred(h.id));
                }
                let left = self.leases.release(h.id as u128);
                if left == 0 {
                    recv_lease = Some(h.bid);
                }
            },
            None => {},
        }
        let strip_nonblock: Option<u64> = match e.how {
            Some(how) => if e.strip_nonblock {
                Some(how.flags & !O_NONBLOCK)
            } else {
                None
            },
            None => None,
        };
        proof {
            let freed = self.ops@[i as int];
            assert(self.ops@ =~= before.ops@.update(i as int, freed));
            assert forall|o: (u32, u64)|
                self.timers.of(#[trigger] owner_key(o)) == tally::count_where(
                    self.ops@,
                    Self::timer_pred(o),
                ) by {
                if timer is Some {
                    lemma_owner_key_injective(o, timer->Some_0);
                }
                tally::lemma_count_update(before.ops@, i as int, freed, Self::timer_pred(o));
            }
            assert forall|id: u64|
                self.leases.of(id as u128) == tally::count_where(
                    self.ops@,
                    #[trigger] Self::lease_pred(id),
                ) by {
                tally::lemma_count_update(before.ops@, i as int, freed, Self::lease_pred(id));
            }
        }
        Some(
            Completed {
                waiter: e.waiter,
                bufs: e.bufs,
                stat: e.stat,
                retracted: e.retracted,
                strip_nonblock,
                leased,
                recv_lease,
                lease_want: e.lease_want,
            },
        )
    }

    /// Route one completion. `pad` is what the kernel left in the operation's
    /// `statx` pad; `adopt` makes an owned descriptor of the one an open
    /// returned, first restoring its flags where it is told to. A completion
    /// that its slot does not wait for changes nothing.
    pub fn on_cqe<F: FnOnce(i32, Option<u64>) -> Arc<T>>(
        &mut self,
        tag: u8,
        op_slot: u32,
        gen32: u32,
        res: i32,
        pad: Statx,
        adopt: F,
    ) -> (r: ReapedFs<T, R, C, S>)
        requires
            old(self).wf(),
            tag == TAG_OPEN && res >= 0 && old(self).completes(tag, op_slot, gen32)
                ==> call_requires(
                adopt,
                (res, restored_flags(old(self).ops@[op_slot as int].state)),
            ),
        ensures
            final(self).wf(),
            tag == TAG_CANCEL || !old(self).completes(tag, op_slot, gen32) ==> r is Nothing
                && *final(self) == *old(self),
            tag != TAG_CANCEL && old(self).completes(tag, op_slot, gen32) ==> {
                let e = old(self).ops@[op_slot as int].state;
                &&& final(self).frees(*old(self), op_slot)
                &&& final(self).same_rest(*old(self))
                &&& exists|file: Option<File<T>>|
                    opened(file, tag, res, restored_flags(e), adopt) && r == #[trigger] reaped(
                        e,
                        tag,
                        res,
                        pad,
                        file,
                        old(self).shares_of(op_slot),
                    )
            },
    {
        if tag == TAG_CANCEL {
            return ReapedFs::Nothing;
        }
        let done = match self.take_op(tag, op_slot, gen32) {
            Some(done) => done,
            None => {
                return ReapedFs::Nothing;
            },
        };
        let ghost e = old(self).ops@[op_slot as int].state;
        let file: Option<File<T>> = if tag == TAG_OPEN && res >= 0 {
            Some(File { raw: res, fd: adopt(res, done.strip_nonblock) })
        } else {
            None
        };
        assert(opened(file, tag, res, restored_flags(e), adopt));
        let mut result = map_res(res);
        if tag == TAG_TIMEOUT {
            match result {
                Err(Errno::ETIME) => {
                    result = Ok(0);
                },
                _ => {},
            }
        }
        let result = check_lease(result, done.leased, done.lease_want);
        let cancelled = match result {
            Err(Errno::ECANCELED) => true,
            _ => false,
        };
        let refused = done.retracted && cancelled;
        let stat: Option<Statx> = match done.stat {
            Some(_) => Some(pad),
            None => None,
        };
        let r = match done.waiter {
            Some(FsWaiter::Channel(tx)) => ReapedFs::Reply(
                tx,
                FsOutcome { res: result, bufs: done.bufs, file, stat },
            ),
            Some(FsWaiter::Embedded { owner, cb, on_fail: _ }) => ReapedFs::Embedded(
                cb,
                FsDone {
                    result,
                    refused,
                    bufs: done.bufs,
                    file,
                    stat,
                    recv_lease: done.recv_lease,
                },
                owner,
            ),
            Some(FsWaiter::Pump { owner }) => ReapedFs::Pump(
                FsDone {
                    result,
                    refused,
                    bufs: done.bufs,
                    file,
                    stat,
                    recv_lease: done.recv_lease,
                },
                owner,
            ),
            None => ReapedFs::Nothing,
        };
        assert(r == reaped(e, tag, res, pad, file, old(self).shares_of(op_slot)));
        r
    }

    /// The table `old` once a completion was routed while the loop was being
    /// torn down, with what is to be reported.
    pub open spec fn drains<F: FnOnce(i32, Option<u64>) -> Arc<T>>(
        &self,
        old: FsCore<T, R, C, S>,
        user_data: u64,
        res: i32,
        pad: Statx,
        adopt: F,
        r: ReapedFs<T, R, C, S>,
    ) -> bool {
        let (tag, op_slot, gen32) = sys::unpacked(user_data);
        let routed = tag & 0x80 != 0 && tag != TAG_CANCEL && tag != TAG_WAKE && old.completes(
            tag,
            op_slot,
            gen32,
        );
        let e = old.ops@[op_slot as int].state;
        if routed {
            &&& self.frees(old, op_slot)
            &&& self.same_rest(old)
            &&& exists|file: Option<File<T>>|
                opened(file, tag, res, None, adopt) && r == #[trigger] delivered(
                    e.waiter,
                    lease_checked(mapped(res), e.recv_lease is Some, e.lease_want),
                    e.bufs,
                    file,
                    filled(e, pad),
                    false,
                )
        } else {
            r is Nothing && *self == old
        }
    }

    /// Route one completion while the loop is being torn down: report it and
    /// free its slot, staging nothing. An open's descriptor is owned here too,
    /// so that it closes if nobody takes it.
    pub fn on_drain_cqe<F: FnOnce(i32, Option<u64>) -> Arc<T>>(
        &mut self,
        user_data: u64,
        res: i32,
        pad: Statx,
        adopt: F,
    ) -> (r: ReapedFs<T, R, C, S>)
        requires
            old(self).wf(),
            ({
                let (tag, op_slot, gen32) = sys::unpacked(user_data);
                tag == TAG_OPEN && res >= 0 && old(self).completes(tag, op_slot, gen32)
                    ==> call_requires(adopt, (res, None::<u64>))
            }),
        ensures
            final(self).wf(),
            final(self).drains(*old(self), user_data, res, pad, adopt, r),
    {
        let (tag, op_slot, gen32) = unpack_raw(user_data);
        if tag & 0x80 == 0 || tag == TAG_CANCEL || tag == TAG_WAKE {
            return ReapedFs::Nothing;
        }
        let done = match self.take_op(tag, op_slot, gen32) {
            Some(done) => done,
            None => {
                return ReapedFs::Nothing;
            },
        };
        let result = check_lease(map_res(res), done.leased, done.lease_want);
        let file: Option<File<T>> = if tag == TAG_OPEN && res >= 0 {
            Some(File { raw: res, fd: adopt(res, None) })
        } else {
            None
        };
        assert(opened(file, tag, res, None, adopt));
        let stat: Option<Statx> = match done.stat {
            Some(_) => Some(pad),
            None => None,
        };
        deliver(done.waiter, result, done.bufs, file, stat, false)
    }
}

/// Where a pump read lands.
pub enum PumpDest {
    /// A buffer this side supplies, empty and with room for the read in its
    /// spare capacity; it comes back with the completion.
    Owned(Vec<u8>),
    /// A registered buffer group; the kernel picks one at completion.
    Group(u16),
}

impl PumpDest {
    /// The buffers this side supplies.
    pub open spec fn supplied(self) -> Seq<Vec<u8>> {
        match self {
            PumpDest::Owned(b) => seq![b],
            PumpDest::Group(_) => Seq::empty(),
        }
    }

    /// The group the kernel is to pick from.
    pub open spec fn group(self) -> Option<u16> {
        match self {
            PumpDest::Owned(_) => None,
            PumpDest::Group(g) => Some(g),
        }
    }
}

/// A refusal that hands back buffers holding `contents`.
pub open spec fn refused_with<T, R, C, S>(
    r: ReapedFs<T, R, C, S>,
    waiter: FsWaiter<R, C, S>,
    err: Errno,
    contents: Seq<Vec<u8>>,
) -> bool {
    exists|b: Vec<Vec<u8>>| b@ == contents && r == #[trigger] refusal::<T, R, C, S>(waiter, err, b)
}

/// An entry in flight under `tag` with no payload; its buffers are stated
/// apart.
pub open spec fn model<T, R, C, S>(tag: u8, waiter: FsWaiter<R, C, S>) -> FsOpEntry<T, R, C, S> {
    FsOpEntry {
        state: FsOpState::InFlight { tag },
        waiter: Some(waiter),
        bufs: arbitrary(),
        iov: IoVecs::Unused,
        path: None,
        path2: None,
        how: None,
        strip_nonblock: false,
        stat: None,
        ts: None,
        retracted: false,
        anchor: None,
        anchor2: None,
        file: None,
        recv_lease: None,
        lease_want: 0,
    }
}

/// An `openat2` against `dirfd`, its path and `open_how` parked.
pub open spec fn open_sqe(dirfd: i32, pers: u16) -> Sqe {
    Sqe {
        opcode: IORING_OP_OPENAT2,
        fd: dirfd,
        addr: Operand::Path,
        off_addr2: Operand::How,
        len: OPEN_HOW_SIZE,
        personality: pers,
        ..Sqe::spec_zeroed()
    }
}

/// A vectored read or write of `n` iovecs at `off`.
pub open spec fn rw_sqe(tag: u8, raw: i32, n: u32, off: u64, rw_flags: u32, pers: u16) -> Sqe {
    Sqe {
        opcode: if tag == TAG_READV {
            IORING_OP_READV
        } else {
            IORING_OP_WRITEV
        },
        fd: raw,
        addr: Operand::Iov,
        len: n,
        off_addr2: Operand::Value(off),
        op_flags: rw_flags,
        personality: pers,
        ..Sqe::spec_zeroed()
    }
}

/// A flush of `[offset, offset + length)`, of everything where both are 0.
pub open spec fn fsync_sqe(raw: i32, datasync: bool, offset: u64, length: u32, pers: u16) -> Sqe {
    Sqe {
        opcode: IORING_OP_FSYNC,
        fd: raw,
        off_addr2: Operand::Value(offset),
        len: length,
        op_flags: if datasync {
            IORING_FSYNC_DATASYNC
        } else {
            0
        },
        personality: pers,
        ..Sqe::spec_zeroed()
    }
}

/// One relative timer.
pub open spec fn timeout_sqe() -> Sqe {
    Sqe { opcode: IORING_OP_TIMEOUT, addr: Operand::Timespec, len: 1, ..Sqe::spec_zeroed() }
}

/// A reactor's own read for a response body: one iovec, no personality.
pub open spec fn pump_sqe(raw: i32, off: u64, group: Option<u16>) -> Sqe {
    let s = Sqe {
        opcode: IORING_OP_READV,
        fd: raw,
        addr: Operand::Iov,
        len: 1,
        off_addr2: Operand::Value(off),
        ..Sqe::spec_zeroed()
    };
    match group {
        Some(g) => Sqe { flags: IOSQE_BUFFER_SELECT, buf_index: g, ..s },
        None => s,
    }
}

/// Whether a tag is a metadata operation on an open file, and its opcode.
pub open spec fn meta_opcode(tag: u8) -> Option<u8> {
    if tag == TAG_FTRUNCATE {
        Some(IORING_OP_FTRUNCATE)
    } else if tag == TAG_FALLOCATE {
        Some(IORING_OP_FALLOCATE)
    } else if tag == TAG_FADVISE {
        Some(IORING_OP_FADVISE)
    } else if tag == TAG_SPLICE {
        Some(IORING_OP_SPLICE)
    } else if tag == TAG_FGETXATTR {
        Some(IORING_OP_FGETXATTR)
    } else if tag == TAG_FSETXATTR {
        Some(IORING_OP_FSETXATTR)
    } else {
        None
    }
}

/// A metadata operation on an open file. `off` is a length to truncate to or
/// an offset; `len64` a range's length, or a splice's source; `aux32` a mode,
/// an advice, flags, or a splice's byte count; `val_len` the value's length.
pub open spec fn meta_sqe(
    tag: u8,
    raw: i32,
    has_name: bool,
    val_len: u32,
    off: u64,
    len64: u64,
    aux32: u32,
    pers: u16,
) -> Sqe {
    let s = Sqe {
        opcode: meta_opcode(tag)->Some_0,
        fd: raw,
        personality: pers,
        ..Sqe::spec_zeroed()
    };
    if tag == TAG_FTRUNCATE {
        Sqe { off_addr2: Operand::Value(off), ..s }
    } else if tag == TAG_FALLOCATE {
        Sqe {
            off_addr2: Operand::Value(off),
            addr: Operand::Value(len64),
            len: aux32,
            ..s
        }
    } else if tag == TAG_FADVISE {
        Sqe {
            off_addr2: Operand::Value(off),
            addr: Operand::Value(len64),
            op_flags: aux32,
            ..s
        }
    } else if tag == TAG_SPLICE {
        Sqe {
            file_index: len64 as u32,
            off_addr2: Operand::Value(off),
            len: aux32,
            addr: Operand::Value(u64::MAX),
            op_flags: SPLICE_F_MOVE,
            ..s
        }
    } else {
        Sqe {
            addr: if has_name {
                Operand::Path
            } else {
                Operand::Value(0)
            },
            off_addr2: Operand::Buf,
            len: val_len,
            op_flags: aux32,
            ..s
        }
    }
}

/// Whether a tag is a path operation, and its opcode.
pub open spec fn path_opcode(tag: u8) -> Option<u8> {
    if tag == TAG_STATX {
        Some(IORING_OP_STATX)
    } else if tag == TAG_MKDIRAT {
        Some(IORING_OP_MKDIRAT)
    } else if tag == TAG_UNLINKAT {
        Some(IORING_OP_UNLINKAT)
    } else if tag == TAG_SYMLINKAT {
        Some(IORING_OP_SYMLINKAT)
    } else if tag == TAG_RENAMEAT {
        Some(IORING_OP_RENAMEAT)
    } else if tag == TAG_LINKAT {
        Some(IORING_OP_LINKAT)
    } else {
        None
    }
}

/// A path operation. A rename or link without a second anchor stays in the
/// first: it never falls back to the working directory.
pub open spec fn path_sqe(
    tag: u8,
    dfd1: i32,
    dfd2: Option<i32>,
    has_n2: bool,
    flags: u32,
    len_arg: u32,
    pers: u16,
) -> Sqe {
    let s = Sqe {
        opcode: path_opcode(tag)->Some_0,
        fd: dfd1,
        addr: Operand::Path,
        personality: pers,
        op_flags: flags,
        ..Sqe::spec_zeroed()
    };
    let second = if has_n2 {
        Operand::Path2
    } else {
        Operand::Value(0)
    };
    if tag == TAG_STATX {
        Sqe { len: len_arg, off_addr2: Operand::Stat, ..s }
    } else if tag == TAG_MKDIRAT {
        Sqe { len: len_arg, ..s }
    } else if tag == TAG_UNLINKAT {
        s
    } else if tag == TAG_SYMLINKAT {
        Sqe { off_addr2: second, ..s }
    } else {
        Sqe {
            off_addr2: second,
            len: (match dfd2 {
                Some(d) => d,
                None => dfd1,
            }) as u32,
            ..s
        }
    }
}

/// A link that names an already open file at a leaf of `new_dfd`.
pub open spec fn linkat_file_sqe(raw: i32, new_dfd: i32, pers: u16) -> Sqe {
    Sqe {
        opcode: IORING_OP_LINKAT,
        fd: raw,
        addr: Operand::Path,
        off_addr2: Operand::Path2,
        len: new_dfd as u32,
        op_flags: AT_EMPTY_PATH,
        personality: pers,
        ..Sqe::spec_zeroed()
    }
}

/// A cancellation of the operation whose routing word is `target`.
pub open spec fn cancel_sqe(target: u64) -> Sqe {
    Sqe {
        user_data: sys::packed(TAG_CANCEL, 0, 0),
        opcode: IORING_OP_ASYNC_CANCEL,
        addr: Operand::Value(target),
        ..Sqe::spec_zeroed()
    }
}

impl<T, R, C, S> FsCore<T, R, C, S> {
    /// A submission: `entry` is parked, its buffers holding `contents`, and
    /// `sqe` staged; or, where no slot or no room is left, the waiter is told
    /// and handed the buffers back.
    pub open spec fn submits(
        &self,
        before: Self,
        eng: Engine,
        eng_before: Engine,
        entry: FsOpEntry<T, R, C, S>,
        contents: Seq<Vec<u8>>,
        sqe: Sqe,
        r: ReapedFs<T, R, C, S>,
    ) -> bool {
        match before.launch_refusal(eng_before) {
            Some(err) => self.unlaunched(before, eng, eng_before) && refused_with(
                r,
                entry.waiter->Some_0,
                err,
                contents,
            ),
            None => {
                let bufs = self.ops@[before.op_free@.last() as int].state.bufs;
                &&& r is Nothing
                &&& bufs@ == contents
                &&& self.launched(before, eng, eng_before, FsOpEntry { bufs, ..entry }, sqe)
            },
        }
    }

    /// Nothing was submitted and nothing changed.
    pub open spec fn untouched(&self, before: Self, eng: Engine, eng_before: Engine) -> bool {
        &&& *self == before
        &&& eng == eng_before
    }

    /// An open, staged under `pers`; refused under personality 0.
    pub open spec fn open_staged(
        &self,
        before: Self,
        eng: Engine,
        eng_before: Engine,
        pers: u16,
        anchor: Anchor<T>,
        path: Vec<u8>,
        how: RawOpenHow,
        guarded: bool,
        waiter: FsWaiter<R, C, S>,
        r: ReapedFs<T, R, C, S>,
    ) -> bool {
        if pers == 0 {
            self.untouched(before, eng, eng_before) && refused_with(
                r,
                waiter,
                Errno::EINVAL,
                Seq::empty(),
            )
        } else {
            self.submits(
                before,
                eng,
                eng_before,
                (FsOpEntry {
                    path: Some(path),
                    how: Some(how),
                    strip_nonblock: guarded,
                    anchor: Some(anchor),
                    ..model(TAG_OPEN, waiter)
                }),
                Seq::empty(),
                open_sqe(anchor.raw, pers),
                r,
            )
        }
    }

    /// A vectored read or write, staged with its buffers parked.
    pub open spec fn rw_staged(
        &self,
        before: Self,
        eng: Engine,
        eng_before: Engine,
        tag: u8,
        pers: u16,
        file: File<T>,
        bufs: Seq<Vec<u8>>,
        off: u64,
        rw_flags: u32,
        waiter: FsWaiter<R, C, S>,
        r: ReapedFs<T, R, C, S>,
    ) -> bool {
        self.submits(
            before,
            eng,
            eng_before,
            (FsOpEntry { iov: IoVecs::Bufs, file: Some(file.fd), ..model(tag, waiter) }),
            bufs,
            rw_sqe(tag, file.raw, bufs.len() as u32, off, rw_flags, pers),
            r,
        )
    }

    /// A flush, staged.
    pub open spec fn fsync_staged(
        &self,
        before: Self,
        eng: Engine,
        eng_before: Engine,
        pers: u16,
        file: File<T>,
        datasync: bool,
        offset: u64,
        length: u32,
        waiter: FsWaiter<R, C, S>,
        r: ReapedFs<T, R, C, S>,
    ) -> bool {
        self.submits(
            before,
            eng,
            eng_before,
            (FsOpEntry { file: Some(file.fd), ..model(TAG_FSYNC, waiter) }),
            Seq::empty(),
            fsync_sqe(file.raw, datasync, offset, length, pers),
            r,
        )
    }

    /// A path operation, staged under `pers`; refused under personality 0 or
    /// with a tag that is no path operation.
    pub open spec fn path_staged(
        &self,
        before: Self,
        eng: Engine,
        eng_before: Engine,
        tag: u8,
        pers: u16,
        a1: Anchor<T>,
        n1: Vec<u8>,
        a2: Option<Anchor<T>>,
        n2: Option<Vec<u8>>,
        flags: u32,
        len_arg: u32,
        waiter: FsWaiter<R, C, S>,
        r: ReapedFs<T, R, C, S>,
    ) -> bool {
        if pers == 0 || path_opcode(tag) is None {
            self.untouched(before, eng, eng_before) && refused_with(
                r,
                waiter,
                Errno::EINVAL,
                Seq::empty(),
            )
        } else {
            self.submits(
                before,
                eng,
                eng_before,
                (FsOpEntry {
                    path: Some(n1),
                    path2: n2,
                    stat: if tag == TAG_STATX {
                        Some(Statx::spec_zeroed())
                    } else {
                        None
                    },
                    anchor: Some(a1),
                    anchor2: a2,
                    ..model(tag, waiter)
                }),
                Seq::empty(),
                path_sqe(
                    tag,
                    a1.raw,
                    match a2 {
                        Some(a) => Some(a.raw),
                        None => None,
                    },
                    n2 is Some,
                    flags,
                    len_arg,
                    pers,
                ),
                r,
            )
        }
    }

    /// A link that names an open file, staged under `pers`; refused under
    /// personality 0.
    pub open spec fn link_staged(
        &self,
        before: Self,
        eng: Engine,
        eng_before: Engine,
        pers: u16,
        file: File<T>,
        a2: Anchor<T>,
        n2: Vec<u8>,
        waiter: FsWaiter<R, C, S>,
        r: ReapedFs<T, R, C, S>,
    ) -> bool {
        if pers == 0 {
            self.untouched(before, eng, eng_before) && refused_with(
                r,
                waiter,
                Errno::EINVAL,
                Seq::empty(),
            )
        } else {
            exists|empty: Vec<u8>| #![auto]
                empty@.len() == 0 && self.submits(
                    before,
                    eng,
                    eng_before,
                    (FsOpEntry {
                        path: Some(empty),
                        path2: Some(n2),
                        file: Some(file.fd),
                        anchor2: Some(a2),
                        ..model(TAG_LINKAT, waiter)
                    }),
                    Seq::empty(),
                    linkat_file_sqe(file.raw, a2.raw, pers),
                    r,
                )
        }
    }

    /// A metadata operation, staged under the personality its name and tag
    /// call for; refused under personality 0.
    pub open spec fn meta_submitted(
        &self,
        before: Self,
        eng: Engine,
        eng_before: Engine,
        tag: u8,
        pers: u16,
        file: File<T>,
        name: Option<Vec<u8>>,
        value: Vec<u8>,
        off: u64,
        len64: u64,
        aux32: u32,
        waiter: FsWaiter<R, C, S>,
        r: ReapedFs<T, R, C, S>,
    ) -> bool {
        if pers == 0 {
            self.untouched(before, eng, eng_before) && refused_with(
                r,
                waiter,
                Errno::EINVAL,
                seq![value],
            )
        } else {
            self.meta_staged(
                before,
                eng,
                eng_before,
                tag,
                before.meta_personality(tag, name, pers),
                file,
                name,
                value,
                off,
                len64,
                aux32,
                waiter,
                r,
            )
        }
    }

    fn submit(&mut self, eng: &mut Engine, e: FsOpEntry<T, R, C, S>, sqe: Sqe) -> (r: ReapedFs<
        T,
        R,
        C,
        S,
    >)
        requires
            old(self).wf(),
            e.state is InFlight,
            e.waiter is Some,
        ensures
            final(self).wf(),
            final(self).submits(*old(self), *final(eng), *old(eng), e, e.bufs@, sqe, r),
    {
        match self.launch(eng, e, sqe) {
            Ok(_) => ReapedFs::Nothing,
            Err((back, err)) => {
                let ghost w = back.waiter->Some_0;
                let r = deliver(back.waiter, Err(err), back.bufs, None, None, true);
                assert(r == refusal::<T, R, C, S>(w, err, back.bufs));
                r
            },
        }
    }

    /// Whether the table has a slot left.
    pub fn has_free_op(&self) -> (r: bool)
        ensures
            r == (self.op_free@.len() > 0),
    {
        self.op_free.len() > 0
    }

    /// Bound armed timers per owner. For setup, before anything is in flight.
    pub fn set_timer_cap(&mut self, per_owner: u32)
        ensures
            *final(self) == (FsCore { timer_cap: Some(per_owner), ..*old(self) }),
    {
        self.timer_cap = Some(per_owner);
    }

    /// Install the policy of attributes written under the reactor's own
    /// credentials. For setup, before anything is in flight.
    pub fn set_privileged_xattrs(&mut self, policy: PrivilegedXattrs)
        ensures
            *final(self) == (FsCore { priv_xattrs: policy, ..*old(self) }),
    {
        self.priv_xattrs = policy;
    }

    /// Stage an `openat2`. Personality 0 would resolve the path under the
    /// reactor's own credentials, and is refused.
    pub fn submit_open(
        &mut self,
        eng: &mut Engine,
        pers: u16,
        anchor: Anchor<T>,
        path: Vec<u8>,
        how: RawOpenHow,
        guarded: bool,
        waiter: FsWaiter<R, C, S>,
    ) -> (r: ReapedFs<T, R, C, S>)
        requires
            old(self).wf(),
        ensures
            final(self).wf(),
            final(self).open_staged(
                *old(self),
                *final(eng),
                *old(eng),
                pers,
                anchor,
                path,
                how,
                guarded,
                waiter,
                r,
            ),
    {
        if pers == 0 {
            let none: Vec<Vec<u8>> = Vec::new();
            assert(none@ =~= Seq::<Vec<u8>>::empty());
            return fail(waiter, Errno::EINVAL, none);
        }
        let mut sqe = Sqe::zeroed();
        sqe.opcode = IORING_OP_OPENAT2;
        sqe.fd = anchor.raw_fd();
        sqe.addr = Operand::Path;
        sqe.off_addr2 = Operand::How;
        sqe.len = OPEN_HOW_SIZE;
        sqe.personality = pers;
        let mut e = FsOpEntry::in_flight(TAG_OPEN, waiter);
        e.path = Some(path);
        e.how = Some(how);
        e.strip_nonblock = guarded;
        e.anchor = Some(anchor);
        assert(e.bufs@ =~= Seq::<Vec<u8>>::empty());
        self.submit(eng, e, sqe)
    }

    /// Stage a vectored read or write, per `tag`, against an open file.
    pub fn submit_rw(
        &mut self,
        eng: &mut Engine,
        tag: u8,
        pers: u16,
        file: File<T>,
        bufs: Vec<Vec<u8>>,
        off: u64,
        rw_flags: u32,
        waiter: FsWaiter<R, C, S>,
    ) -> (r: ReapedFs<T, R, C, S>)
        requires
            old(self).wf(),
            tag == TAG_READV || tag == TAG_WRITEV,
        ensures
            final(self).wf(),
            final(self).rw_staged(
                *old(self),
                *final(eng),
                *old(eng),
                tag,
                pers,
                file,
                bufs@,
                off,
                rw_flags,
                waiter,
                r,
            ),
            old(self).op_free@.len() > 0 && old(eng).staged@.len() < old(eng).room ==> {
                let s = final(eng).staged@.last();
                &&& final(eng).staged@.len() == old(eng).staged@.len() + 1
                &&& s.opcode == if tag == TAG_READV {
                    1u8
                } else {
                    2u8
                }
                &&& s.fd == file.raw
                &&& s.addr == Operand::Iov
                &&& s.len == bufs@.len() as u32
                &&& s.off_addr2 == Operand::Value(off)
                &&& s.op_flags == rw_flags
                &&& s.personality == pers
            },
    {
        let mut sqe = Sqe::zeroed();
        sqe.opcode = if tag == TAG_READV {
            IORING_OP_READV
        } else {
            IORING_OP_WRITEV
        };
        sqe.fd = file.as_raw_fd();
        sqe.addr = Operand::Iov;
        sqe.len = #[verifier::truncate]
        (bufs.len() as u32);
        sqe.off_addr2 = Operand::Value(off);
        sqe.op_flags = rw_flags;
        sqe.personality = pers;
        let mut e = FsOpEntry::in_flight(tag, waiter);
        e.bufs = bufs;
        e.iov = IoVecs::Bufs;
        e.file = Some(file.fd);
        self.submit(eng, e, sqe)
    }

    /// Stage a flush of a byte range; `datasync` leaves out metadata that the
    /// data does not need.
    pub fn submit_fsync(
        &mut self,
        eng: &mut Engine,
        pers: u16,
        file: File<T>,
        datasync: bool,
        offset: u64,
        length: u32,
        waiter: FsWaiter<R, C, S>,
    ) -> (r: ReapedFs<T, R, C, S>)
        requires
            old(self).wf(),
        ensures
            final(self).wf(),
            final(self).fsync_staged(
                *old(self),
                *final(eng),
                *old(eng),
                pers,
                file,
                datasync,
                offset,
                length,
                waiter,
                r,
            ),
    {
        let mut sqe = Sqe::zeroed();
        sqe.opcode = IORING_OP_FSYNC;
        sqe.fd = file.as_raw_fd();
        sqe.off_addr2 = Operand::Value(offset);
        sqe.len = length;
        if datasync {
            sqe.op_flags = IORING_FSYNC_DATASYNC;
        }
        sqe.personality = pers;
        let mut e = FsOpEntry::in_flight(TAG_FSYNC, waiter);
        e.file = Some(file.fd);
        assert(e.bufs@ =~= Seq::<Vec<u8>>::empty());
        self.submit(eng, e, sqe)
    }
}

impl<T, R, C, S> FsCore<T, R, C, S> {
    /// The opcode a tag stages on an open file, or `None`. Decided before a
    /// slot is taken: an entry with no opcode would be the kernel's no-op,
    /// and report success for something that never ran.
    fn fd_meta_opcode(tag: u8) -> (r: Option<u8>)
        ensures
            r == meta_opcode(tag),
    {
        if tag == TAG_FTRUNCATE {
            Some(IORING_OP_FTRUNCATE)
        } else if tag == TAG_FALLOCATE {
            Some(IORING_OP_FALLOCATE)
        } else if tag == TAG_FADVISE {
            Some(IORING_OP_FADVISE)
        } else if tag == TAG_SPLICE {
            Some(IORING_OP_SPLICE)
        } else if tag == TAG_FGETXATTR {
            Some(IORING_OP_FGETXATTR)
        } else if tag == TAG_FSETXATTR {
            Some(IORING_OP_FSETXATTR)
        } else {
            None
        }
    }

    /// The opcode a tag stages on a path, or `None`.
    fn path_op_opcode(tag: u8) -> (r: Option<u8>)
        ensures
            r == path_opcode(tag),
    {
        if tag == TAG_STATX {
            Some(IORING_OP_STATX)
        } else if tag == TAG_MKDIRAT {
            Some(IORING_OP_MKDIRAT)
        } else if tag == TAG_UNLINKAT {
            Some(IORING_OP_UNLINKAT)
        } else if tag == TAG_SYMLINKAT {
            Some(IORING_OP_SYMLINKAT)
        } else if tag == TAG_RENAMEAT {
            Some(IORING_OP_RENAMEAT)
        } else if tag == TAG_LINKAT {
            Some(IORING_OP_LINKAT)
        } else {
            None
        }
    }

    /// The outcome of staging a metadata operation under the personality
    /// given, whatever it is.
    pub open spec fn meta_staged(
        &self,
        before: Self,
        eng: Engine,
        eng_before: Engine,
        tag: u8,
        pers: u16,
        file: File<T>,
        name: Option<Vec<u8>>,
        value: Vec<u8>,
        off: u64,
        len64: u64,
        aux32: u32,
        waiter: FsWaiter<R, C, S>,
        r: ReapedFs<T, R, C, S>,
    ) -> bool {
        if meta_opcode(tag) is None {
            self.untouched(before, eng, eng_before) && refused_with(
                r,
                waiter,
                Errno::EINVAL,
                seq![value],
            )
        } else {
            self.submits(
                before,
                eng,
                eng_before,
                (FsOpEntry { file: Some(file.fd), path: name, ..model(tag, waiter) }),
                seq![value],
                meta_sqe(
                    tag,
                    file.raw,
                    name is Some,
                    value@.len() as u32,
                    off,
                    len64,
                    aux32,
                    pers,
                ),
                r,
            )
        }
    }

    fn stage_fd_meta(
        &mut self,
        eng: &mut Engine,
        tag: u8,
        pers: u16,
        file: File<T>,
        name: Option<Vec<u8>>,
        value: Vec<u8>,
        off: u64,
        len64: u64,
        aux32: u32,
        waiter: FsWaiter<R, C, S>,
    ) -> (r: ReapedFs<T, R, C, S>)
        requires
            old(self).wf(),
        ensures
            final(self).wf(),
            final(self).meta_staged(
                *old(self),
                *final(eng),
                *old(eng),
                tag,
                pers,
                file,
                name,
                value,
                off,
                len64,
                aux32,
                waiter,
                r,
            ),
    {
        let ghost contents = seq![value];
        let val_len: u32 = #[verifier::truncate]
        (value.len() as u32);
        let mut bufs: Vec<Vec<u8>> = Vec::new();
        bufs.push(value);
        assert(bufs@ =~= contents);
        let opcode = match Self::fd_meta_opcode(tag) {
            Some(opcode) => opcode,
            None => {
                return fail(waiter, Errno::EINVAL, bufs);
            },
        };
        let mut sqe = Sqe::zeroed();
        sqe.opcode = opcode;
        sqe.fd = file.as_raw_fd();
        sqe.personality = pers;
        if tag == TAG_FTRUNCATE {
            sqe.off_addr2 = Operand::Value(off);
        } else if tag == TAG_FALLOCATE {
            sqe.off_addr2 = Operand::Value(off);
            sqe.addr = Operand::Value(len64);
            sqe.len = aux32;
        } else if tag == TAG_FADVISE {
            sqe.off_addr2 = Operand::Value(off);
            sqe.addr = Operand::Value(len64);
            sqe.op_flags = aux32;
        } else if tag == TAG_SPLICE {
            sqe.file_index = #[verifier::truncate]
            (len64 as u32);
            sqe.off_addr2 = Operand::Value(off);
            sqe.len = aux32;
            sqe.addr = Operand::Value(u64::MAX);
            sqe.op_flags = SPLICE_F_MOVE;
        } else {
            if name.is_some() {
                sqe.addr = Operand::Path;
            }
            sqe.off_addr2 = Operand::Buf;
            sqe.len = val_len;
            sqe.op_flags = aux32;
        }
        let mut e = FsOpEntry::in_flight(tag, waiter);
        e.file = Some(file.fd);
        e.path = name;
        e.bufs = bufs;
        self.submit(eng, e, sqe)
    }

    /// The personality a metadata operation runs under: the request's own,
    /// except that writing an attribute the server owns runs as the reactor.
    pub open spec fn meta_personality(&self, tag: u8, name: Option<Vec<u8>>, pers: u16) -> u16 {
        match name {
            Some(n) => if tag == TAG_FSETXATTR && self.priv_xattrs.covers(n@) {
                0
            } else {
                pers
            },
            None => pers,
        }
    }

    /// Stage a metadata operation on an open file. Personality 0 is refused;
    /// a write of an allowlisted attribute, and nothing else, is promoted to
    /// the reactor's own credentials.
    pub fn submit_fd_meta(
        &mut self,
        eng: &mut Engine,
        tag: u8,
        pers: u16,
        file: File<T>,
        name: Option<Vec<u8>>,
        value: Vec<u8>,
        off: u64,
        len64: u64,
        aux32: u32,
        waiter: FsWaiter<R, C, S>,
    ) -> (r: ReapedFs<T, R, C, S>)
        requires
            old(self).wf(),
        ensures
            final(self).wf(),
            final(self).meta_submitted(
                *old(self),
                *final(eng),
                *old(eng),
                tag,
                pers,
                file,
                name,
                value,
                off,
                len64,
                aux32,
                waiter,
                r,
            ),
    {
        if pers == 0 {
            let ghost contents = seq![value];
            let mut bufs: Vec<Vec<u8>> = Vec::new();
            bufs.push(value);
            assert(bufs@ =~= contents);
            return fail(waiter, Errno::EINVAL, bufs);
        }
        let promoted = match &name {
            Some(n) => tag == TAG_FSETXATTR && self.priv_xattrs.permits(n.as_slice()),
            None => false,
        };
        let pers = if promoted {
            0
        } else {
            pers
        };
        self.stage_fd_meta(eng, tag, pers, file, name, value, off, len64, aux32, waiter)
    }

    /// Read an attribute under the reactor's own credentials: the one read
    /// that no request identity governs.
    pub fn submit_fgetxattr_as_root(
        &mut self,
        eng: &mut Engine,
        file: File<T>,
        name: Vec<u8>,
        value: Vec<u8>,
        waiter: FsWaiter<R, C, S>,
    ) -> (r: ReapedFs<T, R, C, S>)
        requires
            old(self).wf(),
        ensures
            final(self).wf(),
            final(self).meta_staged(
                *old(self),
                *final(eng),
                *old(eng),
                TAG_FGETXATTR,
                0,
                file,
                Some(name),
                value,
                0,
                0,
                0,
                waiter,
                r,
            ),
    {
        self.stage_fd_meta(eng, TAG_FGETXATTR, 0, file, Some(name), value, 0, 0, 0, waiter)
    }

    /// Stage a `statx` or a directory-entry operation. Personality 0 and a
    /// tag that is none of them are refused before a slot is taken.
    pub fn submit_path_op(
        &mut self,
        eng: &mut Engine,
        tag: u8,
        pers: u16,
        a1: Anchor<T>,
        n1: Vec<u8>,
        a2: Option<Anchor<T>>,
        n2: Option<Vec<u8>>,
        flags: u32,
        len_arg: u32,
        waiter: FsWaiter<R, C, S>,
    ) -> (r: ReapedFs<T, R, C, S>)
        requires
            old(self).wf(),
        ensures
            final(self).wf(),
            final(self).path_staged(
                *old(self),
                *final(eng),
                *old(eng),
                tag,
                pers,
                a1,
                n1,
                a2,
                n2,
                flags,
                len_arg,
                waiter,
                r,
            ),
            final(eng).staged@.len() > old(eng).staged@.len() ==> {
                let s = final(eng).staged@.last();
                let e = final(self).ops@[old(self).op_free@.last() as int].state;
                &&& s.fd == a1.raw
                &&& s.addr == Operand::Path
                &&& e.path == Some(n1)
                &&& s.op_flags == flags
                &&& s.personality == pers
                &&& tag == TAG_STATX || tag == TAG_MKDIRAT ==> s.len == len_arg
                &&& tag == TAG_RENAMEAT || tag == TAG_LINKAT ==> s.len == (match a2 {
                    Some(a) => a.raw,
                    None => a1.raw,
                }) as u32
                &&& tag == TAG_RENAMEAT || tag == TAG_LINKAT || tag == TAG_SYMLINKAT ==> {
                    n2 is Some ==> s.off_addr2 == Operand::Path2 && e.path2 == n2
                }
            },
    {
        let none: Vec<Vec<u8>> = Vec::new();
        assert(none@ =~= Seq::<Vec<u8>>::empty());
        if pers == 0 {
            return fail(waiter, Errno::EINVAL, none);
        }
        let opcode = match Self::path_op_opcode(tag) {
            Some(opcode) => opcode,
            None => {
                return fail(waiter, Errno::EINVAL, none);
            },
        };
        let dfd1 = a1.raw_fd();
        let dfd2: i32 = match &a2 {
            Some(a) => a.raw_fd(),
            None => dfd1,
        };
        let second = if n2.is_some() {
            Operand::Path2
        } else {
            Operand::Value(0)
        };
        let mut sqe = Sqe::zeroed();
        sqe.opcode = opcode;
        sqe.fd = dfd1;
        sqe.addr = Operand::Path;
        sqe.personality = pers;
        sqe.op_flags = flags;
        if tag == TAG_STATX {
            sqe.len = len_arg;
            sqe.off_addr2 = Operand::Stat;
        } else if tag == TAG_MKDIRAT {
            sqe.len = len_arg;
        } else if tag == TAG_UNLINKAT {
        } else if tag == TAG_SYMLINKAT {
            sqe.off_addr2 = second;
        } else {
            sqe.off_addr2 = second;
            sqe.len = #[verifier::truncate]
            (dfd2 as u32);
        }
        let mut e = FsOpEntry::in_flight(tag, waiter);
        e.path = Some(n1);
        e.path2 = n2;
        if tag == TAG_STATX {
            e.stat = Some(Statx::zeroed());
        }
        e.anchor = Some(a1);
        e.anchor2 = a2;
        assert(e.bufs@ =~= Seq::<Vec<u8>>::empty());
        self.submit(eng, e, sqe)
    }

    /// Stage a link that gives an already open file a name at `a2` / `n2`.
    pub fn submit_linkat_file(
        &mut self,
        eng: &mut Engine,
        pers: u16,
        file: File<T>,
        a2: Anchor<T>,
        n2: Vec<u8>,
        waiter: FsWaiter<R, C, S>,
    ) -> (r: ReapedFs<T, R, C, S>)
        requires
            old(self).wf(),
        ensures
            final(self).wf(),
            final(self).link_staged(
                *old(self),
                *final(eng),
                *old(eng),
                pers,
                file,
                a2,
                n2,
                waiter,
                r,
            ),
    {
        if pers == 0 {
            let none: Vec<Vec<u8>> = Vec::new();
            assert(none@ =~= Seq::<Vec<u8>>::empty());
            return fail(waiter, Errno::EINVAL, none);
        }
        let mut sqe = Sqe::zeroed();
        sqe.opcode = IORING_OP_LINKAT;
        sqe.fd = file.as_raw_fd();
        sqe.addr = Operand::Path;
        sqe.off_addr2 = Operand::Path2;
        sqe.len = #[verifier::truncate]
        (a2.raw_fd() as u32);
        sqe.op_flags = AT_EMPTY_PATH;
        sqe.personality = pers;
        let empty: Vec<u8> = Vec::new();
        let ghost emp = empty;
        let mut e = FsOpEntry::in_flight(TAG_LINKAT, waiter);
        e.path = Some(empty);
        e.path2 = Some(n2);
        e.file = Some(file.fd);
        e.anchor2 = Some(a2);
        assert(e.bufs@ =~= Seq::<Vec<u8>>::empty());
        let r = self.submit(eng, e, sqe);
        proof {
            assert(emp@.len() == 0);
            assert(self.submits(
                *old(self),
                *eng,
                *old(eng),
                (FsOpEntry {
                    path: Some(emp),
                    path2: Some(n2),
                    file: Some(file.fd),
                    anchor2: Some(a2),
                    ..model(TAG_LINKAT, waiter)
                }),
                Seq::empty(),
                linkat_file_sqe(file.raw, a2.raw, pers),
                r,
            ));
        }
        r
    }
}

/// The most seconds a timer can be armed for.
pub open spec fn capped_secs(secs: u64) -> i64 {
    if secs > i64::MAX {
        i64::MAX
    } else {
        secs as i64
    }
}

/// Whether removing an attribute is for the blocking pool to run, or was
/// refused.
pub enum XattrRemoval<T, R> {
    /// The name is not one the server owns: send the refusal.
    Refused(R, FsOutcome<T>),
    /// Run the removal under the reactor's own credentials and send its
    /// result.
    Run { file: File<T>, name: Vec<u8>, reply: R },
}

/// The routing words of the operations in `ops` that run for one of `owners`,
/// in slot order.
pub open spec fn cancel_targets<T, R, C, S>(
    ops: Seq<SlotEntry<FsOpEntry<T, R, C, S>>>,
    owners: Set<(u32, u64)>,
) -> Seq<u64>
    decreases ops.len(),
{
    if ops.len() == 0 {
        Seq::empty()
    } else {
        let rest = cancel_targets(ops.drop_last(), owners);
        let slot = (ops.len() - 1) as u32;
        let e = ops.last();
        match e.state.state {
            FsOpState::InFlight { tag } => match e.state.waiter {
                Some(w) => match w.spec_owner() {
                    Some(o) => if owners.contains(o) {
                        rest.push(sys::packed(tag, slot, sys::low32(e.generation)))
                    } else {
                        rest
                    },
                    None => rest,
                },
                None => rest,
            },
            FsOpState::Free => rest,
        }
    }
}

/// What a full ring leaves of a batch of cancellations: as many as it has
/// room for, the first ones.
pub open spec fn staged_cancels(eng: Engine, targets: Seq<u64>) -> Seq<Sqe> {
    let room = if eng.spec_has_room() {
        eng.room - eng.staged@.len()
    } else {
        0
    };
    let n = if targets.len() <= room {
        targets.len() as int
    } else {
        room as int
    };
    eng.staged@ + targets.subrange(0, n).map_values(|t: u64| cancel_sqe(t))
}

/// The owners a list names.
pub open spec fn owner_set(owners: Seq<(u32, u64)>) -> Set<(u32, u64)> {
    owners.to_set()
}

fn submit_cancel(eng: &mut Engine, target_ud: u64)
    ensures
        final(eng).same_limits(*old(eng)),
        final(eng).staged@ == staged_cancels(*old(eng), seq![target_ud]),
{
    let mut sqe = Sqe::zeroed();
    sqe.user_data = pack_raw(TAG_CANCEL, 0, 0);
    sqe.opcode = IORING_OP_ASYNC_CANCEL;
    sqe.addr = Operand::Value(target_ud);
    let ghost before = *old(eng);
    let _ = eng.stage(sqe);
    proof {
        if before.spec_has_room() {
            assert(seq![target_ud].subrange(0, 1) =~= seq![target_ud]);
        }
        assert(eng.staged@ =~= staged_cancels(before, seq![target_ud]));
    }
}

impl<T, R, C, S> FsCore<T, R, C, S> {
    /// Whether the connection `o` has been swept: it, or a later tenant of
    /// its slot.
    pub open spec fn gone(&self, o: (u32, u64)) -> bool {
        self.closed_owners@.contains_key(o.0) && self.closed_owners@[o.0] >= o.1
    }

    /// Whether `owner`'s connection has already been swept. A reactor with no
    /// owners has no connection to lose.
    pub fn owner_is_gone(&self, owner: Owner) -> (r: bool)
        ensures
            r == (owner is Some && self.gone(owner->Some_0)),
    {
        match owner {
            None => false,
            Some((slot, generation)) => match self.closed_owners.get(&slot) {
                Some(swept) => *swept >= generation,
                None => false,
            },
        }
    }

    /// Mint the claim that a delivery's leased writes share.
    pub fn mint_hold(&mut self, bid: u16) -> (r: LeaseHold)
        ensures
            r == (LeaseHold { id: old(self).next_hold, bid }),
            *final(self) == (FsCore {
                next_hold: sys::next_generation(old(self).next_hold),
                ..*old(self)
            }),
    {
        let id: u64 = self.next_hold;
        self.next_hold = id.wrapping_add(1);
        LeaseHold { id, bid }
    }

    /// Whether a write still in flight holds a share of the claim.
    pub fn lease_is_live(&self, hold: LeaseHold) -> (r: bool)
        ensures
            r == (self.leases.of(hold.id as u128) > 0),
    {
        self.leases.get(hold.id as u128) > 0
    }

    /// Stage a write whose source is a range of a leased receive buffer.
    /// Where the table or the ring refuses it, the waiter comes back for the
    /// caller to fall back with.
    pub fn submit_pwritev2_leased(
        &mut self,
        eng: &mut Engine,
        pers: u16,
        file: File<T>,
        at: usize,
        len: usize,
        off: u64,
        rw_flags: u32,
        hold: LeaseHold,
        waiter: FsWaiter<R, C, S>,
    ) -> (r: Result<(), FsWaiter<R, C, S>>)
        requires
            old(self).wf(),
        ensures
            final(self).wf(),
            match r {
                Err(back) => {
                    &&& back == waiter
                    &&& old(self).launch_refusal(*old(eng)) is Some
                    &&& final(self).unlaunched(*old(self), *final(eng), *old(eng))
                },
                Ok(_) => {
                    let bufs = final(self).ops@[old(self).op_free@.last() as int].state.bufs;
                    &&& bufs@.len() == 0
                    &&& final(self).launched(
                        *old(self),
                        *final(eng),
                        *old(eng),
                        (FsOpEntry {
                            bufs,
                            iov: IoVecs::Lease { at, len },
                            file: Some(file.fd),
                            recv_lease: Some(hold),
                            lease_want: len as u32,
                            ..model(TAG_WRITEV, waiter)
                        }),
                        rw_sqe(TAG_WRITEV, file.raw, 1, off, rw_flags, pers),
                    )
                },
            },
            (r is Ok) == (old(self).launch_refusal(*old(eng)) is None),
            r is Ok ==> kernel::asked(
                *old(self),
                *old(eng),
                *final(self),
                *final(eng),
                pers,
                (Call::Write {
                    fd: file.raw,
                    from: Memory::Address { start: at, count: len },
                    at: off,
                    flags: rw_flags,
                }),
                set![file.fd],
                waiter,
            ),
    {
        let ghost w0 = waiter;
        let mut sqe = Sqe::zeroed();
        sqe.opcode = IORING_OP_WRITEV;
        sqe.fd = file.as_raw_fd();
        sqe.addr = Operand::Iov;
        sqe.len = 1;
        sqe.off_addr2 = Operand::Value(off);
        sqe.op_flags = rw_flags;
        sqe.personality = pers;
        let mut e = FsOpEntry::in_flight(TAG_WRITEV, waiter);
        e.iov = IoVecs::Lease { at, len };
        e.file = Some(file.fd);
        e.recv_lease = Some(hold);
        e.lease_want = #[verifier::truncate]
        (len as u32);
        let ghost none = e.bufs;
        match self.launch(eng, e, sqe) {
            Ok(_) => {
                proof {
                    kernel::law_leased_write_asks_for_its_range(
                        *old(self),
                        *old(eng),
                        *self,
                        *eng,
                        pers,
                        file,
                        at,
                        len,
                        off,
                        rw_flags,
                        hold,
                        w0,
                        none,
                    );
                }
                Ok(())
            },
            Err((back, _)) => match back.waiter {
                Some(w) => Err(w),
                None => {
                    assert(false);
                    Ok(())
                },
            },
        }
    }

    /// Stage a read for a response body, completing to its connection rather
    /// than to a callback. A refusal is the caller's to hear at once: a read
    /// that was silently dropped would strand its connection.
    pub fn submit_pump_read(
        &mut self,
        eng: &mut Engine,
        file: &File<T>,
        dest: PumpDest,
        want: usize,
        off: u64,
        owner: (u32, u64),
    ) -> (r: Result<(), Errno>)
        requires
            old(self).wf(),
            dest is Owned ==> dest->Owned_0@.len() == 0,
        ensures
            final(self).wf(),
            match r {
                Err(err) => {
                    &&& old(self).launch_refusal(*old(eng)) == Some(err)
                    &&& final(self).unlaunched(*old(self), *final(eng), *old(eng))
                },
                Ok(_) => {
                    let bufs = final(self).ops@[old(self).op_free@.last() as int].state.bufs;
                    &&& bufs@ == dest.supplied()
                    &&& final(self).launched(
                        *old(self),
                        *final(eng),
                        *old(eng),
                        (FsOpEntry {
                            bufs,
                            iov: IoVecs::Spare { want },
                            file: Some(file.fd),
                            ..model(TAG_READV, FsWaiter::Pump { owner })
                        }),
                        pump_sqe(file.raw, off, dest.group()),
                    )
                },
            },
            (r is Ok) == (old(self).launch_refusal(*old(eng)) is None),
            r is Ok ==> kernel::asked(
                *old(self),
                *old(eng),
                *final(self),
                *final(eng),
                0,
                (Call::Read {
                    fd: file.raw,
                    into: match dest {
                        PumpDest::Owned(_) => Memory::Spare { count: want },
                        PumpDest::Group(group) => Memory::Group { group, count: want },
                    },
                    at: off,
                    flags: 0,
                }),
                set![file.fd],
                FsWaiter::Pump { owner },
            ),
    {
        let ghost dest0 = dest;
        let mut sqe = Sqe::zeroed();
        sqe.opcode = IORING_OP_READV;
        sqe.fd = file.as_raw_fd();
        sqe.addr = Operand::Iov;
        sqe.len = 1;
        sqe.off_addr2 = Operand::Value(off);
        let mut e = FsOpEntry::in_flight(TAG_READV, FsWaiter::Pump { owner });
        e.iov = IoVecs::Spare { want };
        e.file = Some(share(&file.fd));
        let ghost contents = dest.supplied();
        let mut bufs: Vec<Vec<u8>> = Vec::new();
        match dest {
            PumpDest::Owned(b) => {
                bufs.push(b);
            },
            PumpDest::Group(g) => {
                sqe.flags = IOSQE_BUFFER_SELECT;
                sqe.buf_index = g;
            },
        }
        assert(bufs@ =~= contents);
        e.bufs = bufs;
        match self.launch(eng, e, sqe) {
            Ok(_) => {
                proof {
                    kernel::law_pump_read_asks_for_its_offset(
                        *old(self),
                        *old(eng),
                        *self,
                        *eng,
                        *file,
                        dest0,
                        want,
                        off,
                        owner,
                        bufs,
                    );
                }
                Ok(())
            },
            Err((_, err)) => Err(err),
        }
    }

    /// Why a timer is refused before a slot is tried: its connection is gone,
    /// or has as many timers armed as it may.
    pub open spec fn timer_screen(&self, waiter: FsWaiter<R, C, S>) -> Option<Errno> {
        match waiter.callback_owner() {
            Some(o) => if self.gone(o) {
                Some(Errno::ECANCELED)
            } else if self.timer_cap is Some && self.timers.of(owner_key(o))
                >= self.timer_cap->Some_0 {
                Some(Errno::EBUSY)
            } else {
                None
            },
            None => None,
        }
    }

    /// No owner has more timers armed than it may.
    pub open spec fn cap_respected(&self) -> bool {
        self.timer_cap is Some ==> forall|o: (u32, u64)|
            self.timers.of(#[trigger] owner_key(o)) <= self.timer_cap->Some_0
    }

    /// A timer, armed; or refused, or passed over because its connection is
    /// gone.
    pub open spec fn timer_staged(
        &self,
        before: Self,
        eng: Engine,
        eng_before: Engine,
        secs: u64,
        nanos: u32,
        waiter: FsWaiter<R, C, S>,
        r: (ReapedFs<T, R, C, S>, Option<(u32, u64)>),
    ) -> bool {
        match before.timer_screen(waiter) {
            Some(err) => {
                &&& self.untouched(before, eng, eng_before)
                &&& r.1 is None
                &&& err == Errno::ECANCELED ==> r.0 is Nothing
                &&& err != Errno::ECANCELED ==> refused_with(r.0, waiter, err, Seq::empty())
            },
            None => {
                &&& self.submits(
                    before,
                    eng,
                    eng_before,
                    (FsOpEntry {
                        ts: Some(
                            KernelTimespec { tv_sec: capped_secs(secs), tv_nsec: nanos as i64 },
                        ),
                        ..model(TAG_TIMEOUT, waiter)
                    }),
                    Seq::empty(),
                    timeout_sqe(),
                    r.0,
                )
                &&& r.1 == match before.launch_refusal(eng_before) {
                    Some(_) => None,
                    None => Some(
                        (
                            before.op_free@.last(),
                            before.ops@[before.op_free@.last() as int].generation,
                        ),
                    ),
                }
            },
        }
    }

    /// Arm a timer: one relative, one-shot wait of `secs` and `nanos`. Returns
    /// the slot and full-width generation it was armed under, or `None` where
    /// the arm was refused.
    ///
    /// A connection that was swept may not park time on the table: it gets the
    /// sweep's own verdict, which is not a refusal. One with as many timers as
    /// it may have, a full table and a full ring are refusals.
    pub fn submit_timeout(
        &mut self,
        eng: &mut Engine,
        secs: u64,
        nanos: u32,
        waiter: FsWaiter<R, C, S>,
    ) -> (r: (ReapedFs<T, R, C, S>, Option<(u32, u64)>))
        requires
            old(self).wf(),
        ensures
            final(self).wf(),
            old(self).cap_respected() ==> final(self).cap_respected(),
            final(self).timer_staged(*old(self), *final(eng), *old(eng), secs, nanos, waiter, r),
    {
        let none: Vec<Vec<u8>> = Vec::new();
        assert(none@ =~= Seq::<Vec<u8>>::empty());
        match waiter.timer_owner() {
            Some(o) => {
                if self.owner_is_gone(Some(o)) {
                    return (
                        deliver(Some(waiter), Err(Errno::ECANCELED), none, None, None, false),
                        None,
                    );
                }
                match self.timer_cap {
                    Some(cap) => {
                        if self.timers.get(key_of(o)) >= cap {
                            return (fail(waiter, Errno::EBUSY, none), None);
                        }
                    },
                    None => {},
                }
            },
            None => {},
        }
        let tv_sec: i64 = if secs > i64::MAX as u64 {
            i64::MAX
        } else {
            secs as i64
        };
        let mut sqe = Sqe::zeroed();
        sqe.opcode = IORING_OP_TIMEOUT;
        sqe.addr = Operand::Timespec;
        sqe.len = 1;
        let mut e = FsOpEntry::in_flight(TAG_TIMEOUT, waiter);
        e.ts = Some(KernelTimespec { tv_sec, tv_nsec: nanos as i64 });
        assert(e.bufs@ =~= Seq::<Vec<u8>>::empty());
        let ghost before = *old(self);
        let ghost entry = e;
        match self.launch(eng, e, sqe) {
            Ok(slot) => {
                let generation: u64 = self.ops[slot as usize].generation;
                proof {
                    let new_entry = self.ops@[slot as int];
                    assert(before.op_free@[before.op_free@.len() - 1] == slot);
                    assert(before.ops@[slot as int].state.is_clear());
                    assert forall|o: (u32, u64)|
                        before.cap_respected() && self.timer_cap is Some implies self.timers.of(
                        #[trigger] owner_key(o),
                    ) <= self.timer_cap->Some_0 by {
                        tally::lemma_count_update(
                            before.ops@,
                            slot as int,
                            new_entry,
                            Self::timer_pred(o),
                        );
                    }
                }
                (ReapedFs::Nothing, Some((slot, generation)))
            },
            Err((back, err)) => {
                let ghost w = back.waiter->Some_0;
                let r = deliver(back.waiter, Err(err), back.bufs, None, None, true);
                proof {
                    assert(r == refusal::<T, R, C, S>(w, err, back.bufs));
                    assert forall|o: (u32, u64)|
                        before.cap_respected() && self.timer_cap is Some implies self.timers.of(
                        #[trigger] owner_key(o),
                    ) <= self.timer_cap->Some_0 by {
                        if before.op_free@.len() > 0 {
                            let slot = before.op_free@.last();
                            assert(before.op_free@[before.op_free@.len() - 1] == slot);
                            tally::lemma_count_update(
                                before.ops@,
                                slot as int,
                                self.ops@[slot as int],
                                Self::timer_pred(o),
                            );
                        }
                    }
                }
                (r, None)
            },
        }
    }

    /// Whether a timer token still names a live timer of this table.
    pub open spec fn names_timer(&self, core: u64, slot: u32, generation: u64) -> bool {
        &&& core == self.core_id
        &&& slot < self.ops@.len()
        &&& self.ops@[slot as int].generation == generation
        &&& self.ops@[slot as int].state.state == FsOpState::InFlight { tag: TAG_TIMEOUT }
    }

    /// Retract a timer: mark it, so that its cancellation reads as one its
    /// caller asked for, and stage the cancel. A token that names no live
    /// timer of this table does nothing.
    pub fn retract_timeout(&mut self, eng: &mut Engine, core: u64, slot: u32, generation: u64)
        requires
            old(self).wf(),
        ensures
            final(self).wf(),
            !old(self).names_timer(core, slot, generation) ==> final(self).untouched(
                *old(self),
                *final(eng),
                *old(eng),
            ),
            old(self).names_timer(core, slot, generation) ==> {
                let was = old(self).ops@[slot as int];
                &&& final(self).ops@ == old(self).ops@.update(
                    slot as int,
                    SlotEntry {
                        generation,
                        state: FsOpEntry { retracted: true, ..was.state },
                    },
                )
                &&& final(self).op_free@ == old(self).op_free@
                &&& final(self).same_rest(*old(self))
                &&& final(eng).same_limits(*old(eng))
                &&& final(eng).staged@ == staged_cancels(
                    *old(eng),
                    seq![sys::packed(TAG_TIMEOUT, slot, sys::low32(generation))],
                )
            },
    {
        if core != self.core_id {
            return;
        }
        let i = slot as usize;
        if i >= self.ops.len() {
            return;
        }
        if self.ops[i].generation != generation {
            return;
        }
        match self.ops[i].state.state {
            FsOpState::InFlight { tag } => {
                if tag != TAG_TIMEOUT {
                    return;
                }
            },
            FsOpState::Free => {
                return;
            },
        }
        let ghost before = *old(self);
        self.ops[i].state.retracted = true;
        proof {
            let marked = self.ops@[i as int];
            lemma_marked_keeps_wf(before, *self, slot);
        }
        submit_cancel(eng, pack_raw(TAG_TIMEOUT, slot, gen_low(generation)));
    }

    /// Cancel every operation in flight that runs for one of `owners`, whose
    /// connections have closed, and record them as gone. The record comes
    /// first and whether or not anything is in flight; an operation is
    /// cancelled, never dropped, since the kernel may still touch what it
    /// holds.
    pub fn cancel_owned_by(&mut self, eng: &mut Engine, owners: &Vec<(u32, u64)>)
        requires
            old(self).wf(),
        ensures
            final(self).wf(),
            final(self).ops@ == old(self).ops@,
            final(self).op_free@ == old(self).op_free@,
            final(self).priv_xattrs == old(self).priv_xattrs,
            final(self).core_id == old(self).core_id,
            final(self).timer_cap == old(self).timer_cap,
            final(self).next_hold == old(self).next_hold,
            forall|o: (u32, u64)| #[trigger]
                final(self).gone(o) == (old(self).gone(o) || exists|i: int|
                    0 <= i < owners@.len() && (#[trigger] owners@[i]).0 == o.0 && owners@[i].1
                        >= o.1),
            final(eng).same_limits(*old(eng)),
            final(eng).staged@ == staged_cancels(
                *old(eng),
                cancel_targets(old(self).ops@, owner_set(owners@)),
            ),
    {
        let ghost before = *old(self);
        let mut i: usize = 0;
        let mut keys: HashSet<u128> = HashSet::new();
        while i < owners.len()
            invariant
                0 <= i <= owners@.len(),
                self.ops@ == before.ops@,
                self.op_free@ == before.op_free@,
                self.timers == before.timers,
                self.leases == before.leases,
                self.priv_xattrs == before.priv_xattrs,
                self.core_id == before.core_id,
                self.timer_cap == before.timer_cap,
                self.next_hold == before.next_hold,
                before.wf(),
                *eng == *old(eng),
                forall|o: (u32, u64)| #[trigger]
                    self.gone(o) == (before.gone(o) || exists|j: int|
                        0 <= j < i && (#[trigger] owners@[j]).0 == o.0 && owners@[j].1 >= o.1),
                forall|o: (u32, u64)|
                    keys@.contains(#[trigger] owner_key(o)) == exists|j: int|
                        0 <= j < i && #[trigger] owners@[j] == o,
            decreases owners@.len() - i,
        {
            let (slot, generation) = owners[i];
            let ghost was = *self;
            let swept: u64 = match self.closed_owners.get(&slot) {
                Some(s) => if *s > generation {
                    *s
                } else {
                    generation
                },
                None => generation,
            };
            self.closed_owners.insert(slot, swept);
            let ghost old_keys = keys@;
            keys.insert(key_of((slot, generation)));
            proof {
                assert forall|o: (u32, u64)| #[trigger]
                    self.gone(o) == (before.gone(o) || exists|j: int|
                        0 <= j < i + 1 && (#[trigger] owners@[j]).0 == o.0 && owners@[j].1
                            >= o.1) by {
                    let now = owners@[i as int].0 == o.0 && owners@[i as int].1 >= o.1;
                    assert(self.gone(o) == (was.gone(o) || now));
                    if exists|j: int|
                        0 <= j < i + 1 && (#[trigger] owners@[j]).0 == o.0 && owners@[j].1 >= o.1 {
                        let j = choose|j: int|
                            0 <= j < i + 1 && (#[trigger] owners@[j]).0 == o.0 && owners@[j].1
                                >= o.1;
                        if j < i {
                            assert(was.gone(o));
                        }
                    }
                }
                assert forall|o: (u32, u64)|
                    keys@.contains(#[trigger] owner_key(o)) == exists|j: int|
                        0 <= j < i + 1 && #[trigger] owners@[j] == o by {
                    lemma_owner_key_injective(o, owners@[i as int]);
                    assert(keys@.contains(owner_key(o)) == (old_keys.contains(owner_key(o)) || o
                        == owners@[i as int]));
                }
            }
            i = i + 1;
        }
        let ghost set = owner_set(owners@);
        proof {
            assert forall|o: (u32, u64)| keys@.contains(#[trigger] owner_key(o)) == set.contains(
                o,
            ) by {
                assert(set.contains(o) == owners@.contains(o));
                if keys@.contains(owner_key(o)) {
                    let j = choose|j: int| 0 <= j < owners@.len() && #[trigger] owners@[j] == o;
                    assert(owners@.contains(o));
                }
            }
            lemma_closed_owners_keep_wf(before, *self);
        }
        if self.op_free.len() == self.ops.len() {
            proof {
                lemma_all_free(before);
                lemma_no_targets(before.ops@, set);
                assert(staged_cancels(*old(eng), Seq::<u64>::empty()) =~= old(eng).staged@);
            }
            return;
        }
        let mut k: usize = 0;
        let ghost eng0 = *eng;
        assert(before.ops@.subrange(0, 0) =~= Seq::empty());
        assert(staged_cancels(eng0, Seq::<u64>::empty()) =~= eng0.staged@);
        while k < self.ops.len()
            invariant
                0 <= k <= self.ops@.len(),
                self.ops@ == before.ops@,
                self.ops@.len() <= u32::MAX,
                eng.same_limits(eng0),
                eng0 == *old(eng),
                forall|o: (u32, u64)| keys@.contains(#[trigger] owner_key(o)) == set.contains(o),
                eng.staged@ == staged_cancels(
                    eng0,
                    cancel_targets(before.ops@.subrange(0, k as int), set),
                ),
            decreases self.ops@.len() - k,
        {
            let ghost sofar = cancel_targets(before.ops@.subrange(0, k as int), set);
            proof {
                let next = before.ops@.subrange(0, k + 1);
                assert(next.drop_last() =~= before.ops@.subrange(0, k as int));
                assert(next.last() == self.ops@[k as int]);
            }
            match self.ops[k].state.state {
                FsOpState::InFlight { tag } => match &self.ops[k].state.waiter {
                    Some(w) => match w.owner() {
                        Some(o) => {
                            if keys.contains(&key_of(o)) {
                                let ud = pack_raw(
                                    tag,
                                    k as u32,
                                    gen_low(self.ops[k].generation),
                                );
                                let ghost mid = *eng;
                                submit_cancel(eng, ud);
                                proof {
                                    lemma_cancel_push(eng0, mid, sofar, ud);
                                }
                            }
                        },
                        None => {},
                    },
                    None => {},
                },
                FsOpState::Free => {},
            }
            k = k + 1;
        }
        assert(before.ops@.subrange(0, before.ops@.len() as int) =~= before.ops@);
    }

    /// Remove an attribute the server owns: refused with `EPERM` unless the
    /// name is allowlisted, since the removal runs under the reactor's own
    /// credentials and no request identity governs it.
    pub fn remove_priv_xattr(&self, file: File<T>, name: Vec<u8>, reply: R) -> (r: XattrRemoval<
        T,
        R,
    >)
        ensures
            match r {
                XattrRemoval::Refused(to, out) => {
                    &&& !self.priv_xattrs.covers(name@)
                    &&& to == reply
                    &&& out.res == Err::<i32, Errno>(Errno::EPERM)
                    &&& out.bufs@.len() == 0
                    &&& out.file is None
                    &&& out.stat is None
                },
                XattrRemoval::Run { file: f, name: n, reply: to } => {
                    &&& self.priv_xattrs.covers(name@)
                    &&& f == file
                    &&& n == name
                    &&& to == reply
                },
            },
    {
        if !self.priv_xattrs.permits(name.as_slice()) {
            return XattrRemoval::Refused(
                reply,
                FsOutcome { res: Err(Errno::EPERM), bufs: Vec::new(), file: None, stat: None },
            );
        }
        XattrRemoval::Run { file, name, reply }
    }
}

/// Marking a timer retracted keeps the invariant.
proof fn lemma_marked_keeps_wf<T, R, C, S>(
    before: FsCore<T, R, C, S>,
    after: FsCore<T, R, C, S>,
    slot: u32,
)
    requires
        before.wf(),
        slot < before.ops@.len(),
        before.ops@[slot as int].state.state is InFlight,
        after.ops@ == before.ops@.update(
            slot as int,
            SlotEntry {
                generation: before.ops@[slot as int].generation,
                state: FsOpEntry { retracted: true, ..before.ops@[slot as int].state },
            },
        ),
        after.op_free@ == before.op_free@,
        after.timers == before.timers,
        after.leases == before.leases,
    ensures
        after.wf(),
{
    let marked = after.ops@[slot as int];
    assert forall|i: int| 0 <= i < after.op_free@.len() implies (#[trigger] after.op_free@[i])
        < after.ops@.len() && after.ops@[after.op_free@[i] as int].state.state
        == FsOpState::Free by {
        assert(before.ops@[before.op_free@[i] as int].state.state == FsOpState::Free);
    }
    assert forall|s: int|
        0 <= s < after.ops@.len() && (#[trigger] after.ops@[s]).state.state
            == FsOpState::Free implies after.op_free@.contains(s as u32) by {
        assert(before.ops@[s].state.state == FsOpState::Free);
    }
    assert forall|s: int| 0 <= s < after.ops@.len() implies if (#[trigger] after.ops@[s]).state.state
        == FsOpState::Free {
        after.ops@[s].state.is_clear()
    } else {
        after.ops@[s].state.waiter is Some
    } by {
        assert(before.ops@[s].state.state == after.ops@[s].state.state);
    }
    assert forall|o: (u32, u64)|
        after.timers.of(#[trigger] owner_key(o)) == tally::count_where(
            after.ops@,
            FsCore::<T, R, C, S>::timer_pred(o),
        ) by {
        tally::lemma_count_update(
            before.ops@,
            slot as int,
            marked,
            FsCore::<T, R, C, S>::timer_pred(o),
        );
    }
    assert forall|id: u64|
        after.leases.of(id as u128) == tally::count_where(
            after.ops@,
            #[trigger] FsCore::<T, R, C, S>::lease_pred(id),
        ) by {
        tally::lemma_count_update(
            before.ops@,
            slot as int,
            marked,
            FsCore::<T, R, C, S>::lease_pred(id),
        );
    }
}

/// The record of closed connections is no part of the table's invariant.
proof fn lemma_closed_owners_keep_wf<T, R, C, S>(
    before: FsCore<T, R, C, S>,
    after: FsCore<T, R, C, S>,
)
    requires
        before.wf(),
        after.ops@ == before.ops@,
        after.op_free@ == before.op_free@,
        after.timers == before.timers,
        after.leases == before.leases,
    ensures
        after.wf(),
{
    assert forall|o: (u32, u64)|
        after.timers.of(#[trigger] owner_key(o)) == tally::count_where(
            after.ops@,
            FsCore::<T, R, C, S>::timer_pred(o),
        ) by {}
    assert forall|id: u64|
        after.leases.of(id as u128) == tally::count_where(
            after.ops@,
            #[trigger] FsCore::<T, R, C, S>::lease_pred(id),
        ) by {}
}

/// A free list as long as the table leaves nothing in flight.
proof fn lemma_all_free<T, R, C, S>(core: FsCore<T, R, C, S>)
    requires
        core.wf(),
        core.op_free@.len() == core.ops@.len(),
    ensures
        forall|s: int|
            0 <= s < core.ops@.len() ==> (#[trigger] core.ops@[s]).state.state == FsOpState::Free,
{
    let n = core.ops@.len();
    let free = core.op_free@.map_values(|s: u32| s as int);
    assert(free.no_duplicates());
    let set = free.to_set();
    free.unique_seq_to_set();
    let all = vstd::set_lib::set_int_range(0, n as int);
    vstd::set_lib::lemma_int_range(0, n as int);
    assert(set.subset_of(all)) by {
        assert forall|x: int| set.contains(x) implies all.contains(x) by {
            let i = choose|i: int| 0 <= i < free.len() && free[i] == x;
            assert(core.op_free@[i] < core.ops@.len());
        }
    }
    vstd::set_lib::lemma_subset_equality(set, all);
    assert forall|s: int| 0 <= s < n implies (#[trigger] core.ops@[s]).state.state
        == FsOpState::Free by {
        assert(all.contains(s));
        assert(set.contains(s));
        let i = choose|i: int| 0 <= i < free.len() && free[i] == s;
        assert(core.ops@[core.op_free@[i] as int].state.state == FsOpState::Free);
    }
}

/// Where every slot is free, there is nothing to cancel.
proof fn lemma_no_targets<T, R, C, S>(
    ops: Seq<SlotEntry<FsOpEntry<T, R, C, S>>>,
    owners: Set<(u32, u64)>,
)
    requires
        forall|s: int| 0 <= s < ops.len() ==> (#[trigger] ops[s]).state.state == FsOpState::Free,
    ensures
        cancel_targets(ops, owners) == Seq::<u64>::empty(),
    decreases ops.len(),
{
    if ops.len() > 0 {
        assert forall|s: int| 0 <= s < ops.drop_last().len() implies (
        #[trigger] ops.drop_last()[s]).state.state == FsOpState::Free by {
            assert(ops.drop_last()[s] == ops[s]);
        }
        lemma_no_targets(ops.drop_last(), owners);
        assert(ops[ops.len() - 1].state.state == FsOpState::Free);
    }
}

/// Staging one more cancellation extends the batch by it, or leaves it out
/// where the ring is full.
proof fn lemma_cancel_push(eng0: Engine, mid: Engine, sofar: Seq<u64>, ud: u64)
    requires
        mid.same_limits(eng0),
        mid.staged@ == staged_cancels(eng0, sofar),
    ensures
        staged_cancels(mid, seq![ud]) == staged_cancels(eng0, sofar.push(ud)),
{
    assert(seq![ud].subrange(0, 1) =~= seq![ud]);
    assert(seq![ud].subrange(0, 0) =~= Seq::<u64>::empty());
    let all = sofar.push(ud);
    assert(all.subrange(0, all.len() as int) =~= all);
    assert(sofar.subrange(0, sofar.len() as int) =~= sofar);
    assert(staged_cancels(mid, seq![ud]) =~= staged_cancels(eng0, all));
}

/// A completion is delivered once: after it, no completion at all matches its
/// slot until the slot is used again.
pub proof fn law_completion_is_delivered_once<T, R, C, S>(
    before: FsCore<T, R, C, S>,
    after: FsCore<T, R, C, S>,
    slot: u32,
    tag: u8,
    gen32: u32,
)
    requires
        slot < before.ops@.len(),
        after.frees(before, slot),
    ensures
        !after.completes(tag, slot, gen32),
{
}

/// A slot's next use does not answer to its last: the routing word of the
/// operation before names another generation.
pub proof fn law_reused_slot_ignores_its_last_use<T, R, C, S>(
    before: FsCore<T, R, C, S>,
    freed: FsCore<T, R, C, S>,
    reused: FsCore<T, R, C, S>,
    eng: Engine,
    eng_before: Engine,
    e: FsOpEntry<T, R, C, S>,
    sqe: Sqe,
    slot: u32,
    tag: u8,
)
    requires
        slot < before.ops@.len(),
        freed.frees(before, slot),
        reused.launched(freed, eng, eng_before, e, sqe),
        freed.op_free@.last() == slot,
    ensures
        !reused.completes(tag, slot, sys::low32(before.ops@[slot as int].generation)),
{
    sys::lemma_next_generation_differs(before.ops@[slot as int].generation);
}

/// An operation is answered by its own completion: the entry staged for it
/// carries the word that its slot waits for, for as long as nothing else has
/// completed there; and what its waiter is then given is what it parked.
pub proof fn law_completion_answers_its_submission<T, R, C, S>(
    before: FsCore<T, R, C, S>,
    after: FsCore<T, R, C, S>,
    eng: Engine,
    eng_before: Engine,
    e: FsOpEntry<T, R, C, S>,
    sqe: Sqe,
    later: FsCore<T, R, C, S>,
    res: i32,
    pad: Statx,
    file: Option<File<T>>,
    shares: nat,
)
    requires
        before.wf(),
        before.ops@.len() <= SLOT_MASK + 1,
        after.launched(before, eng, eng_before, e, sqe),
        later.ops@.len() == after.ops@.len(),
        later.ops@[before.op_free@.last() as int] == after.ops@[before.op_free@.last() as int],
    ensures
        ({
            let slot = before.op_free@.last();
            let (t, s, g) = sys::unpacked(eng.staged@.last().user_data);
            &&& t == e.state->tag
            &&& s == slot
            &&& later.completes(t, s, g)
            &&& match (e.waiter, reaped(later.ops@[slot as int].state, t, res, pad, file, shares)) {
                (Some(FsWaiter::Channel(tx)), ReapedFs::Reply(to, out)) => {
                    to == tx && out.bufs == e.bufs && out.file == file
                },
                (
                    Some(FsWaiter::Embedded { owner, cb, .. }),
                    ReapedFs::Embedded(to, done, o),
                ) => to == cb && o == owner && done.bufs == e.bufs && done.file == file,
                (Some(FsWaiter::Pump { owner }), ReapedFs::Pump(done, o)) => {
                    o == owner && done.bufs == e.bufs
                },
                (None, r) => r is Nothing,
                _ => false,
            }
        }),
{
    let n = before.op_free@.len() - 1;
    let slot = before.op_free@.last();
    assert(before.op_free@[n] == slot);
    sys::law_routing_word_round_trip(
        e.state->tag,
        slot,
        sys::low32(before.ops@[slot as int].generation),
    );
}

/// What an operation parked stays parked, whatever else is submitted.
pub proof fn law_payload_outlives_other_submissions<T, R, C, S>(
    before: FsCore<T, R, C, S>,
    after: FsCore<T, R, C, S>,
    eng: Engine,
    eng_before: Engine,
    e: FsOpEntry<T, R, C, S>,
    sqe: Sqe,
    slot: u32,
)
    requires
        before.wf(),
        slot < before.ops@.len(),
        before.ops@[slot as int].state.state is InFlight,
        after.launched(before, eng, eng_before, e, sqe),
    ensures
        after.ops@[slot as int] == before.ops@[slot as int],
{
    let taken = before.op_free@.last();
    assert(before.op_free@[before.op_free@.len() - 1] == taken);
    assert(before.ops@[taken as int].state.state == FsOpState::Free);
}

/// What an operation parked stays parked, whatever else completes.
pub proof fn law_payload_outlives_other_completions<T, R, C, S>(
    before: FsCore<T, R, C, S>,
    after: FsCore<T, R, C, S>,
    other: u32,
    slot: u32,
)
    requires
        slot < before.ops@.len(),
        other < before.ops@.len(),
        other != slot,
        after.frees(before, other),
    ensures
        after.ops@[slot as int] == before.ops@[slot as int],
{
}

/// With nothing in flight, the free list holds every slot, each once.
pub proof fn law_idle_table_is_whole<T, R, C, S>(core: FsCore<T, R, C, S>)
    requires
        core.wf(),
        forall|s: int|
            0 <= s < core.ops@.len() ==> (#[trigger] core.ops@[s]).state.state == FsOpState::Free,
    ensures
        core.op_free@.no_duplicates(),
        core.op_free@.len() == core.ops@.len(),
        forall|s: u32| s < core.ops@.len() ==> #[trigger] core.op_free@.contains(s),
{
    let n = core.ops@.len();
    let free = core.op_free@.map_values(|s: u32| s as int);
    let set = free.to_set();
    let all = vstd::set_lib::set_int_range(0, n as int);
    vstd::set_lib::lemma_int_range(0, n as int);
    assert(free.no_duplicates());
    free.unique_seq_to_set();
    assert forall|s: u32| s < core.ops@.len() implies #[trigger] core.op_free@.contains(s) by {
        assert(core.ops@[s as int].state.state == FsOpState::Free);
    }
    assert(set =~= all) by {
        assert forall|x: int| set.contains(x) == all.contains(x) by {
            if set.contains(x) {
                let i = choose|i: int| 0 <= i < free.len() && free[i] == x;
                assert(core.op_free@[i] < core.ops@.len());
            }
            if all.contains(x) {
                assert(core.op_free@.contains(x as u32));
                let i = choose|i: int| 0 <= i < free.len() && core.op_free@[i] == x as u32;
                assert(free[i] == x);
            }
        }
    }
}

/// Completions never take an owner past the most timers it may have armed.
pub proof fn law_completion_keeps_timer_cap<T, R, C, S>(
    before: FsCore<T, R, C, S>,
    after: FsCore<T, R, C, S>,
    slot: u32,
)
    requires
        before.wf(),
        after.wf(),
        slot < before.ops@.len(),
        after.frees(before, slot),
        after.same_rest(before),
        before.cap_respected(),
    ensures
        after.cap_respected(),
{
    let freed = after.ops@[slot as int];
    assert(after.ops@ =~= before.ops@.update(slot as int, freed));
    assert forall|o: (u32, u64)| after.timer_cap is Some implies after.timers.of(
        #[trigger] owner_key(o),
    ) <= after.timer_cap->Some_0 by {
        tally::lemma_count_update(
            before.ops@,
            slot as int,
            freed,
            FsCore::<T, R, C, S>::timer_pred(o),
        );
    }
}

/// A leased buffer surfaces exactly once: with the completion after which no
/// write in flight shares it.
pub proof fn law_last_share_surfaces_the_buffer<T, R, C, S>(
    before: FsCore<T, R, C, S>,
    after: FsCore<T, R, C, S>,
    slot: u32,
    hold: LeaseHold,
)
    requires
        before.wf(),
        after.wf(),
        slot < before.ops@.len(),
        after.frees(before, slot),
        before.ops@[slot as int].state.recv_lease == Some(hold),
    ensures
        after.leases.of(hold.id as u128) == before.leases.of(hold.id as u128) - 1,
        surfaced(before.ops@[slot as int].state, before.shares_of(slot)) == (if after.leases.of(
            hold.id as u128,
        ) == 0 {
            Some(hold.bid)
        } else {
            None
        }),
{
    let freed = after.ops@[slot as int];
    let p = FsCore::<T, R, C, S>::lease_pred(hold.id);
    assert(after.ops@ =~= before.ops@.update(slot as int, freed));
    tally::lemma_count_update(before.ops@, slot as int, freed, p);
    assert(p(before.ops@[slot as int]));
}

/// Only a write of an attribute the server owns runs under the reactor's own
/// credentials; everything else keeps the identity it came with.
pub proof fn law_promotion_is_for_server_owned_writes<T, R, C, S>(
    core: FsCore<T, R, C, S>,
    tag: u8,
    name: Option<Vec<u8>>,
    pers: u16,
)
    requires
        pers != 0,
    ensures
        core.meta_personality(tag, name, pers) == 0 <==> (tag == TAG_FSETXATTR && name is Some
            && core.priv_xattrs.covers(name->Some_0@)),
        core.meta_personality(tag, name, pers) == 0 || core.meta_personality(tag, name, pers)
            == pers,
{
}

/// An unmarked cancellation is never one its caller asked for, and a
/// completion is marked only where the operation was retracted and did not
/// finish first.
pub proof fn law_retraction_is_marked<T, R, C, S>(
    e: FsOpEntry<T, R, C, S>,
    res: i32,
    pad: Statx,
    file: Option<File<T>>,
    shares: nat,
)
    requires
        e.waiter is Some,
        e.waiter->Some_0 is Embedded,
        e.recv_lease is None,
    ensures
        reaped(e, TAG_TIMEOUT, res, pad, file, shares) is Embedded,
        ({
            let done = reaped(e, TAG_TIMEOUT, res, pad, file, shares)->Embedded_1;
            &&& done.refused == (e.retracted && mapped(res) == Err::<i32, Errno>(Errno::ECANCELED))
            &&& mapped(res) == Err::<i32, Errno>(Errno::ETIME) ==> done.result == Ok::<
                i32,
                Errno,
            >(0) && !done.refused
        }),
{
}

/// A guarded open leaves its descriptor with the flags its caller gave: what
/// is restored is those, the guard's own taken off.
pub proof fn law_guarded_open_restores_its_flags<T, R, C, S>(
    e: FsOpEntry<T, R, C, S>,
    flags: u64,
)
    requires
        e.how is Some,
        e.how->Some_0.flags == flags | O_NONBLOCK,
        flags & 0x800 == 0,
    ensures
        e.strip_nonblock ==> restored_flags(e) == Some(flags),
        !e.strip_nonblock ==> restored_flags(e) is None,
{
    crate::policy::law_guard_comes_off_again(flags);
}

/// A successful open makes a file of the descriptor it returned; nothing else
/// makes one.
pub proof fn law_only_an_open_makes_a_file<T, F: FnOnce(i32, Option<u64>) -> Arc<T>>(
    file: Option<File<T>>,
    tag: u8,
    res: i32,
    strip: Option<u64>,
    adopt: F,
)
    requires
        opened(file, tag, res, strip, adopt),
    ensures
        file is Some <==> tag == 0x80 && res >= 0,
        file is Some ==> file->Some_0.raw == res && call_ensures(
            adopt,
            (res, strip),
            file->Some_0.fd,
        ),
{
}

/// A submission that is refused leaves everything in flight as it was, and
/// takes no slot.
pub proof fn law_refused_launch_disturbs_nothing<T, R, C, S>(
    before: FsCore<T, R, C, S>,
    after: FsCore<T, R, C, S>,
    eng: Engine,
    eng_before: Engine,
    s: int,
)
    requires
        before.wf(),
        after.unlaunched(before, eng, eng_before),
        0 <= s < before.ops@.len(),
    ensures
        after.ops@.len() == before.ops@.len(),
        after.ops@[s].state == before.ops@[s].state,
        before.ops@[s].state.state is InFlight ==> after.ops@[s] == before.ops@[s],
        after.op_free@ == before.op_free@,
        eng.staged@ == eng_before.staged@,
{
    if before.op_free@.len() > 0 {
        let n = before.op_free@.len() - 1;
        assert(before.op_free@[n] == before.op_free@.last());
    }
}

/// A timer's token names that arming and nothing else: the table that armed it,
/// its slot, its whole generation, and a timer still in flight there.
pub proof fn law_token_names_one_arming<T, R, C, S>(
    core: FsCore<T, R, C, S>,
    id: u64,
    slot: u32,
    generation: u64,
)
    ensures
        core.names_timer(id, slot, generation) <==> {
            &&& id == core.core_id
            &&& slot < core.ops@.len()
            &&& core.ops@[slot as int].generation == generation
            &&& core.ops@[slot as int].state.state is InFlight
            &&& core.ops@[slot as int].state.state->tag == 0x92
        },
{
}

/// A timer is one of a connection's by the callback that waits for it.
pub proof fn law_timer_is_its_callbacks<T, R, C, S>(e: FsOpEntry<T, R, C, S>, o: (u32, u64))
    ensures
        e.is_timer_of(o) <==> {
            &&& e.state == (FsOpState::InFlight { tag: 0x92 })
            &&& match e.waiter {
                Some(FsWaiter::Embedded { owner, .. }) => owner == Some(o),
                _ => false,
            }
        },
{
}

} // verus!
