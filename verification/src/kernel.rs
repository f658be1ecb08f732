//! What the kernel is asked for: the system call a staged entry stands for,
//! read off its fields in the ring's own numbering and off the payloads parked
//! in its slot; and, for every submission, that this is the call its caller
//! meant.
use crate::engine::{Engine, Operand, Sqe};
use crate::errno::Errno;
use crate::file::{Anchor, File};
use crate::handle::{FsHandle, FsInject};
use crate::host::{Routed, UringFs};
use crate::policy::RawOpenHow;
use crate::sys;
use crate::table;
use crate::table::{FsCore, FsOpEntry, FsWaiter, IoVecs, LeaseHold, PumpDest, ReapedFs};
use std::sync::Arc;
use vstd::prelude::*;

verus! {

/// The memory a vectored read fills or a vectored write drains.
pub enum Memory {
    /// Buffers in turn, each over its whole length; what they hold is given.
    Buffers(Seq<Seq<u8>>),
    /// The bytes from an address on.
    Address { start: usize, count: usize },
    /// The spare capacity of the one buffer supplied.
    Spare { count: usize },
    /// A buffer of a registered group.
    Group { group: u16, count: usize },
}

/// A system call, by its arguments. A name is relative to the directory
/// before it.
#[allow(inconsistent_fields)]
pub enum Call {
    /// An open; `guarded` where the flag that guards against special files
    /// comes off the descriptor again.
    Open { dir: i32, name: Seq<u8>, how: RawOpenHow, guarded: bool },
    Read { fd: i32, into: Memory, at: u64, flags: u32 },
    Write { fd: i32, from: Memory, at: u64, flags: u32 },
    /// A flush of a range, of all where the range is empty at 0.
    Sync { fd: i32, data_only: bool, at: u64, count: u32 },
    /// A wait of this long from now.
    Sleep { secs: i64, nanos: i64 },
    Statx { dir: i32, name: Seq<u8>, flags: u32, mask: u32 },
    Mkdir { dir: i32, name: Seq<u8>, mode: u32 },
    Unlink { dir: i32, name: Seq<u8>, flags: u32 },
    /// Make `name` in `dir` a symbolic link holding `target`.
    Symlink { target: Seq<u8>, dir: i32, name: Seq<u8> },
    Rename { old_dir: i32, old_name: Seq<u8>, dir: i32, name: Seq<u8>, flags: u32 },
    /// Make `name` in `dir` another name of the file `old_name` names.
    Link { old_dir: i32, old_name: Seq<u8>, dir: i32, name: Seq<u8>, flags: u32 },
    Truncate { fd: i32, size: u64 },
    Allocate { fd: i32, mode: u32, at: u64, count: u64 },
    Advise { fd: i32, at: u64, count: u64, advice: u32 },
    /// Move bytes from where the source stands to an offset of `fd`.
    Splice { source: u32, fd: i32, at: u64, count: u32, flags: u32 },
    GetXattr { fd: i32, name: Seq<u8>, room: nat, flags: u32 },
    SetXattr { fd: i32, name: Seq<u8>, value: Seq<u8>, flags: u32 },
}

/// The bytes a string operand points at.
pub open spec fn string_at<T, R, C, S>(operand: Operand, e: FsOpEntry<T, R, C, S>) -> Option<
    Seq<u8>,
> {
    match operand {
        Operand::Path => match e.path {
            Some(p) => Some(p@),
            None => None,
        },
        Operand::Path2 => match e.path2 {
            Some(p) => Some(p@),
            None => None,
        },
        _ => None,
    }
}

/// What each of some buffers holds.
pub open spec fn contents_of(bufs: Seq<Vec<u8>>) -> Seq<Seq<u8>> {
    Seq::new(bufs.len(), |i: int| bufs[i]@)
}

/// The memory an entry's vectors cover, and how many vectors there are.
pub open spec fn vectors_of<T, R, C, S>(sqe: Sqe, e: FsOpEntry<T, R, C, S>) -> Option<
    (Memory, nat),
> {
    match e.iov {
        IoVecs::Unused => None,
        IoVecs::Bufs => Some((Memory::Buffers(contents_of(e.bufs@)), e.bufs@.len())),
        IoVecs::Lease { at, len } => Some((Memory::Address { start: at, count: len }, 1)),
        IoVecs::Spare { want } => if sqe.flags == 0x20 {
            Some((Memory::Group { group: sqe.buf_index, count: want }, 1))
        } else if e.bufs@.len() == 1 {
            Some((Memory::Spare { count: want }, 1))
        } else {
            None
        },
    }
}

/// The descriptor a 32-bit field carries.
pub open spec fn descriptor(field: u32) -> i32 {
    field as i32
}

/// The call a staged entry stands for, with its slot holding `e`; none where
/// its operands do not fit its operation.
pub open spec fn call_of<T, R, C, S>(sqe: Sqe, e: FsOpEntry<T, R, C, S>) -> Option<Call> {
    let first = string_at(sqe.addr, e);
    let second = string_at(sqe.off_addr2, e);
    if sqe.opcode == 1 || sqe.opcode == 2 {
        match (sqe.addr, sqe.off_addr2, vectors_of(sqe, e)) {
            (Operand::Iov, Operand::Value(at), Some((memory, n))) => if sqe.len != n {
                None
            } else if sqe.opcode == 1 {
                Some(Call::Read { fd: sqe.fd, into: memory, at, flags: sqe.op_flags })
            } else {
                Some(Call::Write { fd: sqe.fd, from: memory, at, flags: sqe.op_flags })
            },
            _ => None,
        }
    } else if sqe.opcode == 3 {
        match sqe.off_addr2 {
            Operand::Value(at) => if sqe.op_flags <= 1 {
                Some(
                    Call::Sync { fd: sqe.fd, data_only: sqe.op_flags == 1, at, count: sqe.len },
                )
            } else {
                None
            },
            _ => None,
        }
    } else if sqe.opcode == 11 {
        match (sqe.addr, e.ts, sqe.off_addr2) {
            (Operand::Timespec, Some(ts), Operand::Value(0)) => if sqe.len == 1 && sqe.op_flags
                == 0 {
                Some(Call::Sleep { secs: ts.tv_sec, nanos: ts.tv_nsec })
            } else {
                None
            },
            _ => None,
        }
    } else if sqe.opcode == 17 {
        match (sqe.off_addr2, sqe.addr) {
            (Operand::Value(at), Operand::Value(count)) => Some(
                Call::Allocate { fd: sqe.fd, mode: sqe.len, at, count },
            ),
            _ => None,
        }
    } else if sqe.opcode == 21 {
        match (first, sqe.off_addr2, e.stat) {
            (Some(name), Operand::Stat, Some(_)) => Some(
                Call::Statx { dir: sqe.fd, name, flags: sqe.op_flags, mask: sqe.len },
            ),
            _ => None,
        }
    } else if sqe.opcode == 24 {
        match (sqe.off_addr2, sqe.addr) {
            (Operand::Value(at), Operand::Value(count)) => Some(
                Call::Advise { fd: sqe.fd, at, count, advice: sqe.op_flags },
            ),
            _ => None,
        }
    } else if sqe.opcode == 28 {
        match (first, sqe.off_addr2, e.how) {
            (Some(name), Operand::How, Some(how)) => if sqe.len == 24 {
                Some(Call::Open { dir: sqe.fd, name, how, guarded: e.strip_nonblock })
            } else {
                None
            },
            _ => None,
        }
    } else if sqe.opcode == 30 {
        match (sqe.addr, sqe.off_addr2) {
            (Operand::Value(no_offset), Operand::Value(at)) => if no_offset
                == 0xffff_ffff_ffff_ffff {
                Some(
                    Call::Splice {
                        source: sqe.file_index,
                        fd: sqe.fd,
                        at,
                        count: sqe.len,
                        flags: sqe.op_flags,
                    },
                )
            } else {
                None
            },
            _ => None,
        }
    } else if sqe.opcode == 35 {
        match (first, second) {
            (Some(old_name), Some(name)) => Some(
                Call::Rename {
                    old_dir: sqe.fd,
                    old_name,
                    dir: descriptor(sqe.len),
                    name,
                    flags: sqe.op_flags,
                },
            ),
            _ => None,
        }
    } else if sqe.opcode == 36 {
        match first {
            Some(name) => Some(Call::Unlink { dir: sqe.fd, name, flags: sqe.op_flags }),
            None => None,
        }
    } else if sqe.opcode == 37 {
        match first {
            Some(name) => Some(Call::Mkdir { dir: sqe.fd, name, mode: sqe.len }),
            None => None,
        }
    } else if sqe.opcode == 38 {
        match (first, second) {
            (Some(target), Some(name)) => Some(Call::Symlink { target, dir: sqe.fd, name }),
            _ => None,
        }
    } else if sqe.opcode == 39 {
        match (first, second) {
            (Some(old_name), Some(name)) => Some(
                Call::Link {
                    old_dir: sqe.fd,
                    old_name,
                    dir: descriptor(sqe.len),
                    name,
                    flags: sqe.op_flags,
                },
            ),
            _ => None,
        }
    } else if sqe.opcode == 41 {
        match (first, sqe.off_addr2) {
            (Some(name), Operand::Buf) => if e.bufs@.len() == 1 && sqe.len == e.bufs@[0]@.len() {
                Some(
                    Call::SetXattr {
                        fd: sqe.fd,
                        name,
                        value: e.bufs@[0]@,
                        flags: sqe.op_flags,
                    },
                )
            } else {
                None
            },
            _ => None,
        }
    } else if sqe.opcode == 43 {
        match (first, sqe.off_addr2) {
            (Some(name), Operand::Buf) => if e.bufs@.len() == 1 && sqe.len == e.bufs@[0]@.len() {
                Some(
                    Call::GetXattr {
                        fd: sqe.fd,
                        name,
                        room: e.bufs@[0]@.len(),
                        flags: sqe.op_flags,
                    },
                )
            } else {
                None
            },
            _ => None,
        }
    } else if sqe.opcode == 55 {
        match sqe.off_addr2 {
            Operand::Value(size) => Some(Call::Truncate { fd: sqe.fd, size }),
            _ => None,
        }
    } else {
        None
    }
}

/// The open descriptors an entry keeps from closing.
pub open spec fn kept_open<T, R, C, S>(e: FsOpEntry<T, R, C, S>) -> Set<Arc<T>> {
    Set::new(
        |fd: Arc<T>|
            e.file == Some(fd) || (e.anchor is Some && e.anchor->Some_0.fd == fd) || (
            e.anchor2 is Some && e.anchor2->Some_0.fd == fd),
    )
}

/// One more entry is staged, behind all there were: `call`, under personality
/// `who`, with everything in `keeps` open until it completes and `waiter` to
/// hear of it.
pub open spec fn asked<T, R, C, S>(
    before: FsCore<T, R, C, S>,
    eng_before: Engine,
    after: FsCore<T, R, C, S>,
    eng: Engine,
    who: u16,
    call: Call,
    keeps: Set<Arc<T>>,
    waiter: FsWaiter<R, C, S>,
) -> bool {
    let e = after.ops@[before.op_free@.last() as int].state;
    &&& eng.staged@.len() == eng_before.staged@.len() + 1
    &&& forall|i: int|
        0 <= i < eng_before.staged@.len() ==> #[trigger] eng.staged@[i] == eng_before.staged@[i]
    &&& call_of(eng.staged@.last(), e) == Some(call)
    &&& eng.staged@.last().personality == who
    &&& kept_open(e) == keeps
    &&& e.waiter == Some(waiter)
}

/// Nothing is staged; a channel is sent the reason and the payloads back, a
/// callback's reason slot, where it has one, is given them.
pub open spec fn turned_away<T, R, C, S>(
    eng_before: Engine,
    eng: Engine,
    waiter: FsWaiter<R, C, S>,
    why: Errno,
    payload: Seq<Vec<u8>>,
    r: ReapedFs<T, R, C, S>,
) -> bool {
    &&& eng.staged@ == eng_before.staged@
    &&& match waiter {
        FsWaiter::Channel(tx) => match r {
            ReapedFs::Reply(to, out) => {
                &&& to == tx
                &&& out.res == Err::<i32, Errno>(why)
                &&& out.bufs@ == payload
                &&& out.file is None
                &&& out.stat is None
            },
            _ => false,
        },
        FsWaiter::Embedded { on_fail: Some(sink), .. } => match r {
            ReapedFs::Refused(to, err, bufs) => to == sink && err == why && bufs@ == payload,
            _ => false,
        },
        _ => r is Nothing,
    }
}

/// The call is staged where the table has a slot and the ring has room, and
/// its caller is told which was missing otherwise.
pub open spec fn submitted<T, R, C, S>(
    before: FsCore<T, R, C, S>,
    eng_before: Engine,
    after: FsCore<T, R, C, S>,
    eng: Engine,
    who: u16,
    call: Call,
    keeps: Set<Arc<T>>,
    payload: Seq<Vec<u8>>,
    waiter: FsWaiter<R, C, S>,
    r: ReapedFs<T, R, C, S>,
) -> bool {
    if before.op_free@.len() == 0 {
        turned_away(eng_before, eng, waiter, Errno::EBUSY, payload, r)
    } else if eng_before.staged@.len() >= eng_before.room {
        turned_away(eng_before, eng, waiter, eng_before.refusal, payload, r)
    } else {
        r is Nothing && asked(before, eng_before, after, eng, who, call, keeps, waiter)
    }
}

/// The same, of a call that is never run under the reactor's own credentials.
pub open spec fn submitted_as<T, R, C, S>(
    before: FsCore<T, R, C, S>,
    eng_before: Engine,
    after: FsCore<T, R, C, S>,
    eng: Engine,
    who: u16,
    call: Call,
    keeps: Set<Arc<T>>,
    payload: Seq<Vec<u8>>,
    waiter: FsWaiter<R, C, S>,
    r: ReapedFs<T, R, C, S>,
) -> bool {
    if who == 0 {
        turned_away(eng_before, eng, waiter, Errno::EINVAL, payload, r)
    } else {
        submitted(before, eng_before, after, eng, who, call, keeps, payload, waiter, r)
    }
}

proof fn lemma_descriptor_round_trip(fd: i32)
    ensures
        descriptor(fd as u32) == fd,
{
    assert((fd as u32) as i32 == fd) by (bit_vector);
}

/// What a submission leaves: the entry and the payload it was given, or the
/// refusal.
proof fn lemma_submits<T, R, C, S>(
    before: FsCore<T, R, C, S>,
    eng_before: Engine,
    after: FsCore<T, R, C, S>,
    eng: Engine,
    entry: FsOpEntry<T, R, C, S>,
    payload: Seq<Vec<u8>>,
    sqe: Sqe,
    waiter: FsWaiter<R, C, S>,
    r: ReapedFs<T, R, C, S>,
)
    requires
        before.wf(),
        after.submits(before, eng, eng_before, entry, payload, sqe, r),
        entry.waiter == Some(waiter),
    ensures
        before.op_free@.len() == 0 ==> turned_away(
            eng_before,
            eng,
            waiter,
            Errno::EBUSY,
            payload,
            r,
        ),
        before.op_free@.len() > 0 && eng_before.staged@.len() >= eng_before.room ==> turned_away(
            eng_before,
            eng,
            waiter,
            eng_before.refusal,
            payload,
            r,
        ),
        before.op_free@.len() > 0 && eng_before.staged@.len() < eng_before.room ==> ({
            let e = after.ops@[before.op_free@.last() as int].state;
            &&& r is Nothing
            &&& e == (FsOpEntry { bufs: e.bufs, ..entry })
            &&& e.bufs@ == payload
            &&& eng.staged@.len() == eng_before.staged@.len() + 1
            &&& forall|i: int|
                0 <= i < eng_before.staged@.len() ==> #[trigger] eng.staged@[i]
                    == eng_before.staged@[i]
            &&& eng.staged@.last() == (Sqe { user_data: eng.staged@.last().user_data, ..sqe })
        }),
{
    if before.op_free@.len() > 0 {
        let n = before.op_free@.len() - 1;
        assert(before.op_free@[n] == before.op_free@.last());
    }
}

/// The directory a new name goes to: the second where one is given, the first
/// otherwise.
pub open spec fn second_dir<T>(first: Anchor<T>, second: Option<Anchor<T>>) -> Anchor<T> {
    match second {
        Some(a) => a,
        None => first,
    }
}

/// An open asks for its own name below its own directory, with its own flags,
/// mode and resolution, and never as the reactor.
pub proof fn law_open_asks_for_its_name_under_its_anchor<T, R, C, S>(
    before: FsCore<T, R, C, S>,
    eng_before: Engine,
    after: FsCore<T, R, C, S>,
    eng: Engine,
    pers: u16,
    anchor: Anchor<T>,
    path: Vec<u8>,
    how: RawOpenHow,
    guarded: bool,
    waiter: FsWaiter<R, C, S>,
    r: ReapedFs<T, R, C, S>,
)
    requires
        before.wf(),
        after.open_staged(before, eng, eng_before, pers, anchor, path, how, guarded, waiter, r),
    ensures
        submitted_as(
            before,
            eng_before,
            after,
            eng,
            pers,
            Call::Open { dir: anchor.raw, name: path@, how, guarded },
            set![anchor.fd],
            Seq::<Vec<u8>>::empty(),
            waiter,
            r,
        ),
{
    if pers != 0 {
        lemma_submits(
            before,
            eng_before,
            after,
            eng,
            FsOpEntry {
                path: Some(path),
                how: Some(how),
                strip_nonblock: guarded,
                anchor: Some(anchor),
                ..table::model(sys::TAG_OPEN, waiter)
            },
            Seq::<Vec<u8>>::empty(),
            table::open_sqe(anchor.raw, pers),
            waiter,
            r,
        );
        if before.op_free@.len() > 0 && eng_before.staged@.len() < eng_before.room {
            let e = after.ops@[before.op_free@.last() as int].state;
            assert(kept_open(e) =~= set![anchor.fd]);
        }
    }
}

/// A read asks for the bytes of its own file at its own offset, into its own
/// buffers, under its own flags and personality.
pub proof fn law_read_asks_for_its_offset<T, R, C, S>(
    before: FsCore<T, R, C, S>,
    eng_before: Engine,
    after: FsCore<T, R, C, S>,
    eng: Engine,
    pers: u16,
    file: File<T>,
    bufs: Seq<Vec<u8>>,
    off: u64,
    rw_flags: u32,
    waiter: FsWaiter<R, C, S>,
    r: ReapedFs<T, R, C, S>,
)
    requires
        before.wf(),
        after.rw_staged(
            before,
            eng,
            eng_before,
            sys::TAG_READV,
            pers,
            file,
            bufs,
            off,
            rw_flags,
            waiter,
            r,
        ),
        bufs.len() <= u32::MAX,
    ensures
        submitted(
            before,
            eng_before,
            after,
            eng,
            pers,
            (Call::Read {
                fd: file.raw,
                into: Memory::Buffers(contents_of(bufs)),
                at: off,
                flags: rw_flags,
            }),
            set![file.fd],
            bufs,
            waiter,
            r,
        ),
{
    lemma_submits(
        before,
        eng_before,
        after,
        eng,
        FsOpEntry {
            iov: IoVecs::Bufs,
            file: Some(file.fd),
            ..table::model(sys::TAG_READV, waiter)
        },
        bufs,
        table::rw_sqe(sys::TAG_READV, file.raw, bufs.len() as u32, off, rw_flags, pers),
        waiter,
        r,
    );
    if before.op_free@.len() > 0 && eng_before.staged@.len() < eng_before.room {
        let e = after.ops@[before.op_free@.last() as int].state;
        assert(kept_open(e) =~= set![file.fd]);
    }
}

/// A write puts its own buffers into its own file at its own offset, under
/// its own flags and personality.
pub proof fn law_write_asks_for_its_offset<T, R, C, S>(
    before: FsCore<T, R, C, S>,
    eng_before: Engine,
    after: FsCore<T, R, C, S>,
    eng: Engine,
    pers: u16,
    file: File<T>,
    bufs: Seq<Vec<u8>>,
    off: u64,
    rw_flags: u32,
    waiter: FsWaiter<R, C, S>,
    r: ReapedFs<T, R, C, S>,
)
    requires
        before.wf(),
        after.rw_staged(
            before,
            eng,
            eng_before,
            sys::TAG_WRITEV,
            pers,
            file,
            bufs,
            off,
            rw_flags,
            waiter,
            r,
        ),
        bufs.len() <= u32::MAX,
    ensures
        submitted(
            before,
            eng_before,
            after,
            eng,
            pers,
            (Call::Write {
                fd: file.raw,
                from: Memory::Buffers(contents_of(bufs)),
                at: off,
                flags: rw_flags,
            }),
            set![file.fd],
            bufs,
            waiter,
            r,
        ),
{
    lemma_submits(
        before,
        eng_before,
        after,
        eng,
        FsOpEntry {
            iov: IoVecs::Bufs,
            file: Some(file.fd),
            ..table::model(sys::TAG_WRITEV, waiter)
        },
        bufs,
        table::rw_sqe(sys::TAG_WRITEV, file.raw, bufs.len() as u32, off, rw_flags, pers),
        waiter,
        r,
    );
    if before.op_free@.len() > 0 && eng_before.staged@.len() < eng_before.room {
        let e = after.ops@[before.op_free@.last() as int].state;
        assert(kept_open(e) =~= set![file.fd]);
    }
}

/// A flush asks for its own range of its own file, for the data alone exactly
/// where that was asked for.
pub proof fn law_flush_asks_for_its_range<T, R, C, S>(
    before: FsCore<T, R, C, S>,
    eng_before: Engine,
    after: FsCore<T, R, C, S>,
    eng: Engine,
    pers: u16,
    file: File<T>,
    datasync: bool,
    offset: u64,
    length: u32,
    waiter: FsWaiter<R, C, S>,
    r: ReapedFs<T, R, C, S>,
)
    requires
        before.wf(),
        after.fsync_staged(
            before,
            eng,
            eng_before,
            pers,
            file,
            datasync,
            offset,
            length,
            waiter,
            r,
        ),
    ensures
        submitted(
            before,
            eng_before,
            after,
            eng,
            pers,
            (Call::Sync { fd: file.raw, data_only: datasync, at: offset, count: length }),
            set![file.fd],
            Seq::<Vec<u8>>::empty(),
            waiter,
            r,
        ),
{
    lemma_submits(
        before,
        eng_before,
        after,
        eng,
        FsOpEntry { file: Some(file.fd), ..table::model(sys::TAG_FSYNC, waiter) },
        Seq::<Vec<u8>>::empty(),
        table::fsync_sqe(file.raw, datasync, offset, length, pers),
        waiter,
        r,
    );
    if before.op_free@.len() > 0 && eng_before.staged@.len() < eng_before.room {
        let e = after.ops@[before.op_free@.last() as int].state;
        assert(kept_open(e) =~= set![file.fd]);
    }
}

/// Naming an open file makes another name of that very file, with the name
/// given in the directory given.
pub proof fn law_naming_an_open_file_makes_the_name<T, R, C, S>(
    before: FsCore<T, R, C, S>,
    eng_before: Engine,
    after: FsCore<T, R, C, S>,
    eng: Engine,
    pers: u16,
    file: File<T>,
    a2: Anchor<T>,
    n2: Vec<u8>,
    waiter: FsWaiter<R, C, S>,
    r: ReapedFs<T, R, C, S>,
)
    requires
        before.wf(),
        after.link_staged(before, eng, eng_before, pers, file, a2, n2, waiter, r),
    ensures
        submitted_as(
            before,
            eng_before,
            after,
            eng,
            pers,
            (Call::Link {
                old_dir: file.raw,
                old_name: Seq::empty(),
                dir: a2.raw,
                name: n2@,
                flags: 0x1000,
            }),
            set![file.fd, a2.fd],
            Seq::<Vec<u8>>::empty(),
            waiter,
            r,
        ),
{
    lemma_descriptor_round_trip(a2.raw);
    if pers != 0 {
        let empty = choose|empty: Vec<u8>| #![auto]
            empty@.len() == 0 && after.submits(
            before,
            eng,
            eng_before,
            (FsOpEntry {
                    path: Some(empty),
                    path2: Some(n2),
                    file: Some(file.fd),
                    anchor2: Some(a2),
                    ..table::model(sys::TAG_LINKAT, waiter)
            }),
            Seq::empty(),
            table::linkat_file_sqe(file.raw, a2.raw, pers),
            r,
        );
        assert(empty@ =~= Seq::<u8>::empty());
        lemma_submits(
            before,
            eng_before,
            after,
            eng,
            FsOpEntry {
                path: Some(empty),
                path2: Some(n2),
                file: Some(file.fd),
                anchor2: Some(a2),
                ..table::model(sys::TAG_LINKAT, waiter)
            },
            Seq::empty(),
            table::linkat_file_sqe(file.raw, a2.raw, pers),
            waiter,
            r,
        );
        if before.op_free@.len() > 0 && eng_before.staged@.len() < eng_before.room {
            let e = after.ops@[before.op_free@.last() as int].state;
            assert(kept_open(e) =~= set![file.fd, a2.fd]);
        }
    }
}

/// A stat asks for its own name in its own directory, with its own flags and
/// mask.
pub proof fn law_statx_asks_for_its_name<T, R, C, S>(
    before: FsCore<T, R, C, S>,
    eng_before: Engine,
    after: FsCore<T, R, C, S>,
    eng: Engine,
    pers: u16,
    a1: Anchor<T>,
    n1: Vec<u8>,
    flags: u32,
    len_arg: u32,
    waiter: FsWaiter<R, C, S>,
    r: ReapedFs<T, R, C, S>,
)
    requires
        before.wf(),
        after.path_staged(
            before,
            eng,
            eng_before,
            sys::TAG_STATX,
            pers,
            a1,
            n1,
            None,
            None,
            flags,
            len_arg,
            waiter,
            r,
        ),
    ensures
        submitted_as(
            before,
            eng_before,
            after,
            eng,
            pers,
            (Call::Statx { dir: a1.raw, name: n1@, flags, mask: len_arg }),
            set![a1.fd],
            Seq::<Vec<u8>>::empty(),
            waiter,
            r,
        ),
{
    if pers != 0 {
        lemma_submits(
            before,
            eng_before,
            after,
            eng,
            FsOpEntry {
                path: Some(n1),
                path2: None,
                stat: Some(crate::file::Statx::spec_zeroed()),
                anchor: Some(a1),
                anchor2: None,
                ..table::model(sys::TAG_STATX, waiter)
            },
            Seq::<Vec<u8>>::empty(),
            table::path_sqe(
                sys::TAG_STATX,
                a1.raw,
                None,
                false,
                flags,
                len_arg,
                pers,
            ),
            waiter,
            r,
        );
        if before.op_free@.len() > 0 && eng_before.staged@.len() < eng_before.room {
            let e = after.ops@[before.op_free@.last() as int].state;
            assert(kept_open(e) =~= set![a1.fd]);
        }
    }
}

/// A directory is made under its own name in its own directory, with its own
/// mode.
pub proof fn law_mkdir_makes_its_name<T, R, C, S>(
    before: FsCore<T, R, C, S>,
    eng_before: Engine,
    after: FsCore<T, R, C, S>,
    eng: Engine,
    pers: u16,
    a1: Anchor<T>,
    n1: Vec<u8>,
    flags: u32,
    len_arg: u32,
    waiter: FsWaiter<R, C, S>,
    r: ReapedFs<T, R, C, S>,
)
    requires
        before.wf(),
        after.path_staged(
            before,
            eng,
            eng_before,
            sys::TAG_MKDIRAT,
            pers,
            a1,
            n1,
            None,
            None,
            flags,
            len_arg,
            waiter,
            r,
        ),
    ensures
        submitted_as(
            before,
            eng_before,
            after,
            eng,
            pers,
            (Call::Mkdir { dir: a1.raw, name: n1@, mode: len_arg }),
            set![a1.fd],
            Seq::<Vec<u8>>::empty(),
            waiter,
            r,
        ),
{
    if pers != 0 {
        lemma_submits(
            before,
            eng_before,
            after,
            eng,
            FsOpEntry {
                path: Some(n1),
                path2: None,
                stat: None,
                anchor: Some(a1),
                anchor2: None,
                ..table::model(sys::TAG_MKDIRAT, waiter)
            },
            Seq::<Vec<u8>>::empty(),
            table::path_sqe(
                sys::TAG_MKDIRAT,
                a1.raw,
                None,
                false,
                flags,
                len_arg,
                pers,
            ),
            waiter,
            r,
        );
        if before.op_free@.len() > 0 && eng_before.staged@.len() < eng_before.room {
            let e = after.ops@[before.op_free@.last() as int].state;
            assert(kept_open(e) =~= set![a1.fd]);
        }
    }
}

/// A removal removes its own name from its own directory.
pub proof fn law_unlink_removes_its_name<T, R, C, S>(
    before: FsCore<T, R, C, S>,
    eng_before: Engine,
    after: FsCore<T, R, C, S>,
    eng: Engine,
    pers: u16,
    a1: Anchor<T>,
    n1: Vec<u8>,
    flags: u32,
    len_arg: u32,
    waiter: FsWaiter<R, C, S>,
    r: ReapedFs<T, R, C, S>,
)
    requires
        before.wf(),
        after.path_staged(
            before,
            eng,
            eng_before,
            sys::TAG_UNLINKAT,
            pers,
            a1,
            n1,
            None,
            None,
            flags,
            len_arg,
            waiter,
            r,
        ),
    ensures
        submitted_as(
            before,
            eng_before,
            after,
            eng,
            pers,
            (Call::Unlink { dir: a1.raw, name: n1@, flags }),
            set![a1.fd],
            Seq::<Vec<u8>>::empty(),
            waiter,
            r,
        ),
{
    if pers != 0 {
        lemma_submits(
            before,
            eng_before,
            after,
            eng,
            FsOpEntry {
                path: Some(n1),
                path2: None,
                stat: None,
                anchor: Some(a1),
                anchor2: None,
                ..table::model(sys::TAG_UNLINKAT, waiter)
            },
            Seq::<Vec<u8>>::empty(),
            table::path_sqe(
                sys::TAG_UNLINKAT,
                a1.raw,
                None,
                false,
                flags,
                len_arg,
                pers,
            ),
            waiter,
            r,
        );
        if before.op_free@.len() > 0 && eng_before.staged@.len() < eng_before.room {
            let e = after.ops@[before.op_free@.last() as int].state;
            assert(kept_open(e) =~= set![a1.fd]);
        }
    }
}

/// A symbolic link is made under the second name and holds the first.
pub proof fn law_symlink_holds_its_target<T, R, C, S>(
    before: FsCore<T, R, C, S>,
    eng_before: Engine,
    after: FsCore<T, R, C, S>,
    eng: Engine,
    pers: u16,
    a1: Anchor<T>,
    n1: Vec<u8>,
    n2: Vec<u8>,
    flags: u32,
    len_arg: u32,
    waiter: FsWaiter<R, C, S>,
    r: ReapedFs<T, R, C, S>,
)
    requires
        before.wf(),
        after.path_staged(
            before,
            eng,
            eng_before,
            sys::TAG_SYMLINKAT,
            pers,
            a1,
            n1,
            None,
            Some(n2),
            flags,
            len_arg,
            waiter,
            r,
        ),
    ensures
        submitted_as(
            before,
            eng_before,
            after,
            eng,
            pers,
            (Call::Symlink { target: n1@, dir: a1.raw, name: n2@ }),
            set![a1.fd],
            Seq::<Vec<u8>>::empty(),
            waiter,
            r,
        ),
{
    if pers != 0 {
        lemma_submits(
            before,
            eng_before,
            after,
            eng,
            FsOpEntry {
                path: Some(n1),
                path2: Some(n2),
                stat: None,
                anchor: Some(a1),
                anchor2: None,
                ..table::model(sys::TAG_SYMLINKAT, waiter)
            },
            Seq::<Vec<u8>>::empty(),
            table::path_sqe(
                sys::TAG_SYMLINKAT,
                a1.raw,
                None,
                true,
                flags,
                len_arg,
                pers,
            ),
            waiter,
            r,
        );
        if before.op_free@.len() > 0 && eng_before.staged@.len() < eng_before.room {
            let e = after.ops@[before.op_free@.last() as int].state;
            assert(kept_open(e) =~= set![a1.fd]);
        }
    }
}

/// A rename takes the first name out of the first directory and makes the
/// second name in the second directory, or in the first where there is no
/// second.
pub proof fn law_rename_moves_to_the_second_name<T, R, C, S>(
    before: FsCore<T, R, C, S>,
    eng_before: Engine,
    after: FsCore<T, R, C, S>,
    eng: Engine,
    pers: u16,
    a1: Anchor<T>,
    n1: Vec<u8>,
    a2: Option<Anchor<T>>,
    n2: Vec<u8>,
    flags: u32,
    len_arg: u32,
    waiter: FsWaiter<R, C, S>,
    r: ReapedFs<T, R, C, S>,
)
    requires
        before.wf(),
        after.path_staged(
            before,
            eng,
            eng_before,
            sys::TAG_RENAMEAT,
            pers,
            a1,
            n1,
            a2,
            Some(n2),
            flags,
            len_arg,
            waiter,
            r,
        ),
    ensures
        submitted_as(
            before,
            eng_before,
            after,
            eng,
            pers,
            (Call::Rename {
                old_dir: a1.raw,
                old_name: n1@,
                dir: second_dir(a1, a2).raw,
                name: n2@,
                flags,
            }),
            set![a1.fd, second_dir(a1, a2).fd],
            Seq::<Vec<u8>>::empty(),
            waiter,
            r,
        ),
{
    lemma_descriptor_round_trip(second_dir(a1, a2).raw);
    if pers != 0 {
        lemma_submits(
            before,
            eng_before,
            after,
            eng,
            FsOpEntry {
                path: Some(n1),
                path2: Some(n2),
                stat: None,
                anchor: Some(a1),
                anchor2: a2,
                ..table::model(sys::TAG_RENAMEAT, waiter)
            },
            Seq::<Vec<u8>>::empty(),
            table::path_sqe(
                sys::TAG_RENAMEAT,
                a1.raw,
                (match a2 {
                        Some(a) => Some(a.raw),
                        None => None,
                }),
                true,
                flags,
                len_arg,
                pers,
            ),
            waiter,
            r,
        );
        if before.op_free@.len() > 0 && eng_before.staged@.len() < eng_before.room {
            let e = after.ops@[before.op_free@.last() as int].state;
            assert(kept_open(e) =~= set![a1.fd, second_dir(a1, a2).fd]);
        }
    }
}

/// A link makes the second name, in the second directory or in the first where
/// there is no second, of the file that the first name in the first directory
/// names.
pub proof fn law_link_makes_the_second_name<T, R, C, S>(
    before: FsCore<T, R, C, S>,
    eng_before: Engine,
    after: FsCore<T, R, C, S>,
    eng: Engine,
    pers: u16,
    a1: Anchor<T>,
    n1: Vec<u8>,
    a2: Option<Anchor<T>>,
    n2: Vec<u8>,
    flags: u32,
    len_arg: u32,
    waiter: FsWaiter<R, C, S>,
    r: ReapedFs<T, R, C, S>,
)
    requires
        before.wf(),
        after.path_staged(
            before,
            eng,
            eng_before,
            sys::TAG_LINKAT,
            pers,
            a1,
            n1,
            a2,
            Some(n2),
            flags,
            len_arg,
            waiter,
            r,
        ),
    ensures
        submitted_as(
            before,
            eng_before,
            after,
            eng,
            pers,
            (Call::Link {
                old_dir: a1.raw,
                old_name: n1@,
                dir: second_dir(a1, a2).raw,
                name: n2@,
                flags,
            }),
            set![a1.fd, second_dir(a1, a2).fd],
            Seq::<Vec<u8>>::empty(),
            waiter,
            r,
        ),
{
    lemma_descriptor_round_trip(second_dir(a1, a2).raw);
    if pers != 0 {
        lemma_submits(
            before,
            eng_before,
            after,
            eng,
            FsOpEntry {
                path: Some(n1),
                path2: Some(n2),
                stat: None,
                anchor: Some(a1),
                anchor2: a2,
                ..table::model(sys::TAG_LINKAT, waiter)
            },
            Seq::<Vec<u8>>::empty(),
            table::path_sqe(
                sys::TAG_LINKAT,
                a1.raw,
                (match a2 {
                        Some(a) => Some(a.raw),
                        None => None,
                }),
                true,
                flags,
                len_arg,
                pers,
            ),
            waiter,
            r,
        );
        if before.op_free@.len() > 0 && eng_before.staged@.len() < eng_before.room {
            let e = after.ops@[before.op_free@.last() as int].state;
            assert(kept_open(e) =~= set![a1.fd, second_dir(a1, a2).fd]);
        }
    }
}

/// A truncation sets its own file to its own size.
pub proof fn law_truncate_asks_for_its_size<T, R, C, S>(
    before: FsCore<T, R, C, S>,
    eng_before: Engine,
    after: FsCore<T, R, C, S>,
    eng: Engine,
    pers: u16,
    file: File<T>,
    value: Vec<u8>,
    off: u64,
    len64: u64,
    aux32: u32,
    waiter: FsWaiter<R, C, S>,
    r: ReapedFs<T, R, C, S>,
)
    requires
        before.wf(),
        after.meta_submitted(
            before,
            eng,
            eng_before,
            sys::TAG_FTRUNCATE,
            pers,
            file,
            None,
            value,
            off,
            len64,
            aux32,
            waiter,
            r,
        ),
    ensures
        submitted_as(
            before,
            eng_before,
            after,
            eng,
            pers,
            (Call::Truncate { fd: file.raw, size: off }),
            set![file.fd],
            seq![value],
            waiter,
            r,
        ),
{
    if pers != 0 {
        lemma_submits(
            before,
            eng_before,
            after,
            eng,
            FsOpEntry {
                file: Some(file.fd),
                path: None,
                ..table::model(sys::TAG_FTRUNCATE, waiter)
            },
            seq![value],
            table::meta_sqe(
                sys::TAG_FTRUNCATE,
                file.raw,
                false,
                value@.len() as u32,
                off,
                len64,
                aux32,
                pers,
            ),
            waiter,
            r,
        );
        if before.op_free@.len() > 0 && eng_before.staged@.len() < eng_before.room {
            let e = after.ops@[before.op_free@.last() as int].state;
            assert(kept_open(e) =~= set![file.fd]);
        }
    }
}

/// An allocation asks for its own range of its own file in its own mode.
pub proof fn law_allocate_asks_for_its_range<T, R, C, S>(
    before: FsCore<T, R, C, S>,
    eng_before: Engine,
    after: FsCore<T, R, C, S>,
    eng: Engine,
    pers: u16,
    file: File<T>,
    value: Vec<u8>,
    off: u64,
    len64: u64,
    aux32: u32,
    waiter: FsWaiter<R, C, S>,
    r: ReapedFs<T, R, C, S>,
)
    requires
        before.wf(),
        after.meta_submitted(
            before,
            eng,
            eng_before,
            sys::TAG_FALLOCATE,
            pers,
            file,
            None,
            value,
            off,
            len64,
            aux32,
            waiter,
            r,
        ),
    ensures
        submitted_as(
            before,
            eng_before,
            after,
            eng,
            pers,
            (Call::Allocate { fd: file.raw, mode: aux32, at: off, count: len64 }),
            set![file.fd],
            seq![value],
            waiter,
            r,
        ),
{
    if pers != 0 {
        lemma_submits(
            before,
            eng_before,
            after,
            eng,
            FsOpEntry {
                file: Some(file.fd),
                path: None,
                ..table::model(sys::TAG_FALLOCATE, waiter)
            },
            seq![value],
            table::meta_sqe(
                sys::TAG_FALLOCATE,
                file.raw,
                false,
                value@.len() as u32,
                off,
                len64,
                aux32,
                pers,
            ),
            waiter,
            r,
        );
        if before.op_free@.len() > 0 && eng_before.staged@.len() < eng_before.room {
            let e = after.ops@[before.op_free@.last() as int].state;
            assert(kept_open(e) =~= set![file.fd]);
        }
    }
}

/// Advice is given on its own range of its own file.
pub proof fn law_advise_asks_for_its_range<T, R, C, S>(
    before: FsCore<T, R, C, S>,
    eng_before: Engine,
    after: FsCore<T, R, C, S>,
    eng: Engine,
    pers: u16,
    file: File<T>,
    value: Vec<u8>,
    off: u64,
    len64: u64,
    aux32: u32,
    waiter: FsWaiter<R, C, S>,
    r: ReapedFs<T, R, C, S>,
)
    requires
        before.wf(),
        after.meta_submitted(
            before,
            eng,
            eng_before,
            sys::TAG_FADVISE,
            pers,
            file,
            None,
            value,
            off,
            len64,
            aux32,
            waiter,
            r,
        ),
    ensures
        submitted_as(
            before,
            eng_before,
            after,
            eng,
            pers,
            (Call::Advise { fd: file.raw, at: off, count: len64, advice: aux32 }),
            set![file.fd],
            seq![value],
            waiter,
            r,
        ),
{
    if pers != 0 {
        lemma_submits(
            before,
            eng_before,
            after,
            eng,
            FsOpEntry {
                file: Some(file.fd),
                path: None,
                ..table::model(sys::TAG_FADVISE, waiter)
            },
            seq![value],
            table::meta_sqe(
                sys::TAG_FADVISE,
                file.raw,
                false,
                value@.len() as u32,
                off,
                len64,
                aux32,
                pers,
            ),
            waiter,
            r,
        );
        if before.op_free@.len() > 0 && eng_before.staged@.len() < eng_before.room {
            let e = after.ops@[before.op_free@.last() as int].state;
            assert(kept_open(e) =~= set![file.fd]);
        }
    }
}

/// A splice moves its own count of bytes out of its own pipe to its own offset
/// of its own file.
pub proof fn law_splice_drains_its_pipe<T, R, C, S>(
    before: FsCore<T, R, C, S>,
    eng_before: Engine,
    after: FsCore<T, R, C, S>,
    eng: Engine,
    pers: u16,
    file: File<T>,
    value: Vec<u8>,
    off: u64,
    len64: u64,
    aux32: u32,
    waiter: FsWaiter<R, C, S>,
    r: ReapedFs<T, R, C, S>,
)
    requires
        before.wf(),
        after.meta_submitted(
            before,
            eng,
            eng_before,
            sys::TAG_SPLICE,
            pers,
            file,
            None,
            value,
            off,
            len64,
            aux32,
            waiter,
            r,
        ),
    ensures
        submitted_as(
            before,
            eng_before,
            after,
            eng,
            pers,
            (Call::Splice {
                source: len64 as u32,
                fd: file.raw,
                at: off,
                count: aux32,
                flags: 1,
            }),
            set![file.fd],
            seq![value],
            waiter,
            r,
        ),
{
    if pers != 0 {
        lemma_submits(
            before,
            eng_before,
            after,
            eng,
            FsOpEntry {
                file: Some(file.fd),
                path: None,
                ..table::model(sys::TAG_SPLICE, waiter)
            },
            seq![value],
            table::meta_sqe(
                sys::TAG_SPLICE,
                file.raw,
                false,
                value@.len() as u32,
                off,
                len64,
                aux32,
                pers,
            ),
            waiter,
            r,
        );
        if before.op_free@.len() > 0 && eng_before.staged@.len() < eng_before.room {
            let e = after.ops@[before.op_free@.last() as int].state;
            assert(kept_open(e) =~= set![file.fd]);
        }
    }
}

/// An attribute is read by its own name from its own file, with the room its
/// buffer has.
pub proof fn law_attribute_read_asks_for_its_name<T, R, C, S>(
    before: FsCore<T, R, C, S>,
    eng_before: Engine,
    after: FsCore<T, R, C, S>,
    eng: Engine,
    pers: u16,
    file: File<T>,
    name: Vec<u8>,
    value: Vec<u8>,
    off: u64,
    len64: u64,
    aux32: u32,
    waiter: FsWaiter<R, C, S>,
    r: ReapedFs<T, R, C, S>,
)
    requires
        before.wf(),
        after.meta_submitted(
            before,
            eng,
            eng_before,
            sys::TAG_FGETXATTR,
            pers,
            file,
            Some(name),
            value,
            off,
            len64,
            aux32,
            waiter,
            r,
        ),
        value@.len() <= u32::MAX,
    ensures
        submitted_as(
            before,
            eng_before,
            after,
            eng,
            pers,
            (Call::GetXattr { fd: file.raw, name: name@, room: value@.len(), flags: aux32 }),
            set![file.fd],
            seq![value],
            waiter,
            r,
        ),
{
    if pers != 0 {
        lemma_submits(
            before,
            eng_before,
            after,
            eng,
            FsOpEntry {
                file: Some(file.fd),
                path: Some(name),
                ..table::model(sys::TAG_FGETXATTR, waiter)
            },
            seq![value],
            table::meta_sqe(
                sys::TAG_FGETXATTR,
                file.raw,
                true,
                value@.len() as u32,
                off,
                len64,
                aux32,
                pers,
            ),
            waiter,
            r,
        );
        if before.op_free@.len() > 0 && eng_before.staged@.len() < eng_before.room {
            let e = after.ops@[before.op_free@.last() as int].state;
            assert(kept_open(e) =~= set![file.fd]);
        }
    }
}

/// The same read, under the personality it names whatever that is.
pub proof fn law_attribute_read_as_reactor_asks_for_its_name<T, R, C, S>(
    before: FsCore<T, R, C, S>,
    eng_before: Engine,
    after: FsCore<T, R, C, S>,
    eng: Engine,
    pers: u16,
    file: File<T>,
    name: Vec<u8>,
    value: Vec<u8>,
    off: u64,
    len64: u64,
    aux32: u32,
    waiter: FsWaiter<R, C, S>,
    r: ReapedFs<T, R, C, S>,
)
    requires
        before.wf(),
        after.meta_staged(
            before,
            eng,
            eng_before,
            sys::TAG_FGETXATTR,
            pers,
            file,
            Some(name),
            value,
            off,
            len64,
            aux32,
            waiter,
            r,
        ),
        value@.len() <= u32::MAX,
    ensures
        submitted(
            before,
            eng_before,
            after,
            eng,
            pers,
            (Call::GetXattr { fd: file.raw, name: name@, room: value@.len(), flags: aux32 }),
            set![file.fd],
            seq![value],
            waiter,
            r,
        ),
{
    lemma_submits(
        before,
        eng_before,
        after,
        eng,
        FsOpEntry {
            file: Some(file.fd),
            path: Some(name),
            ..table::model(sys::TAG_FGETXATTR, waiter)
        },
        seq![value],
        table::meta_sqe(
            sys::TAG_FGETXATTR,
            file.raw,
            true,
            value@.len() as u32,
            off,
            len64,
            aux32,
            pers,
        ),
        waiter,
        r,
    );
    if before.op_free@.len() > 0 && eng_before.staged@.len() < eng_before.room {
        let e = after.ops@[before.op_free@.last() as int].state;
        assert(kept_open(e) =~= set![file.fd]);
    }
}

/// An attribute is written under its own name to its own file, with the value
/// given: as the reactor where the server owns the name, as the caller
/// otherwise, and for no caller without an identity.
pub proof fn law_attribute_write_asks_for_its_value<T, R, C, S>(
    before: FsCore<T, R, C, S>,
    eng_before: Engine,
    after: FsCore<T, R, C, S>,
    eng: Engine,
    pers: u16,
    file: File<T>,
    name: Vec<u8>,
    value: Vec<u8>,
    off: u64,
    len64: u64,
    aux32: u32,
    by: u16,
    waiter: FsWaiter<R, C, S>,
    r: ReapedFs<T, R, C, S>,
)
    requires
        before.wf(),
        after.meta_submitted(
            before,
            eng,
            eng_before,
            sys::TAG_FSETXATTR,
            pers,
            file,
            Some(name),
            value,
            off,
            len64,
            aux32,
            waiter,
            r,
        ),
        value@.len() <= u32::MAX,
        by == if before.priv_xattrs.covers(name@) {
            0u16
        } else {
            pers
        },
        pers != 0,
    ensures
        submitted(
            before,
            eng_before,
            after,
            eng,
            by,
            (Call::SetXattr { fd: file.raw, name: name@, value: value@, flags: aux32 }),
            set![file.fd],
            seq![value],
            waiter,
            r,
        ),
{
    lemma_submits(
        before,
        eng_before,
        after,
        eng,
        FsOpEntry {
            file: Some(file.fd),
            path: Some(name),
            ..table::model(sys::TAG_FSETXATTR, waiter)
        },
        seq![value],
        table::meta_sqe(
            sys::TAG_FSETXATTR,
            file.raw,
            true,
            value@.len() as u32,
            off,
            len64,
            aux32,
            by,
        ),
        waiter,
        r,
    );
    if before.op_free@.len() > 0 && eng_before.staged@.len() < eng_before.room {
        let e = after.ops@[before.op_free@.last() as int].state;
        assert(kept_open(e) =~= set![file.fd]);
    }
}

/// A timer waits for its own duration, capped at what the kernel can hold.
/// One whose connection was swept, or has as many armed as it may, is not
/// armed at all: the first is passed over, the second is told.
pub proof fn law_timer_sleeps_for_its_duration<T, R, C, S>(
    before: FsCore<T, R, C, S>,
    eng_before: Engine,
    after: FsCore<T, R, C, S>,
    eng: Engine,
    secs: u64,
    nanos: u32,
    waiter: FsWaiter<R, C, S>,
    r: (ReapedFs<T, R, C, S>, Option<(u32, u64)>),
)
    requires
        before.wf(),
        after.timer_staged(before, eng, eng_before, secs, nanos, waiter, r),
    ensures
        ({
            let call = Call::Sleep {
                secs: if secs <= 0x7fff_ffff_ffff_ffff {
                    secs as i64
                } else {
                    0x7fff_ffff_ffff_ffff
                },
                nanos: nanos as i64,
            };
            let goes = submitted(
                before,
                eng_before,
                after,
                eng,
                0,
                call,
                Set::empty(),
                Seq::empty(),
                waiter,
                r.0,
            ) && if before.op_free@.len() > 0 && eng_before.staged@.len() < eng_before.room {
                &&& r.1 is Some
                &&& after.names_timer(before.core_id, r.1->Some_0.0, r.1->Some_0.1)
                &&& r.1->Some_0.0 == before.op_free@.last()
            } else {
                r.1 is None
            };
            match waiter {
                FsWaiter::Embedded { owner: Some(o), .. } => {
                    let swept = before.closed_owners@.contains_key(o.0)
                        && before.closed_owners@[o.0] >= o.1;
                    let armed = crate::tally::count_where(
                        before.ops@,
                        FsCore::<T, R, C, S>::timer_pred(o),
                    );
                    if swept {
                        r.0 is Nothing && r.1 is None && eng == eng_before && after == before
                    } else if before.timer_cap is Some && armed >= before.timer_cap->Some_0 {
                        r.1 is None && turned_away(
                            eng_before,
                            eng,
                            waiter,
                            Errno::EBUSY,
                            Seq::empty(),
                            r.0,
                        )
                    } else {
                        goes
                    }
                },
                _ => goes,
            }
        }),
{
    match waiter {
        FsWaiter::Embedded { owner: Some(o), .. } => {
            assert(before.timers.of(table::owner_key(o)) == crate::tally::count_where(
                before.ops@,
                FsCore::<T, R, C, S>::timer_pred(o),
            ));
        },
        _ => {},
    }
    if before.timer_screen(waiter) is None {
        lemma_submits(
            before,
            eng_before,
            after,
            eng,
            FsOpEntry {
                ts: Some(
                    table::KernelTimespec {
                        tv_sec: table::capped_secs(secs),
                        tv_nsec: nanos as i64,
                    },
                ),
                ..table::model(sys::TAG_TIMEOUT, waiter)
            },
            Seq::empty(),
            table::timeout_sqe(),
            waiter,
            r.0,
        );
        if before.op_free@.len() > 0 && eng_before.staged@.len() < eng_before.room {
            let e = after.ops@[before.op_free@.last() as int].state;
            assert(kept_open(e) =~= Set::<Arc<T>>::empty());
        }
    }
}

/// A launched entry that writes out of a leased buffer asks for that range at
/// its own offset of its own file, and holds its share of the buffer.
pub proof fn law_leased_write_asks_for_its_range<T, R, C, S>(
    before: FsCore<T, R, C, S>,
    eng_before: Engine,
    after: FsCore<T, R, C, S>,
    eng: Engine,
    pers: u16,
    file: File<T>,
    at: usize,
    len: usize,
    off: u64,
    rw_flags: u32,
    hold: LeaseHold,
    waiter: FsWaiter<R, C, S>,
    bufs: Vec<Vec<u8>>,
)
    requires
        before.wf(),
        after.launched(
            before,
            eng,
            eng_before,
            (FsOpEntry {
                bufs,
                iov: IoVecs::Lease { at, len },
                file: Some(file.fd),
                recv_lease: Some(hold),
                lease_want: len as u32,
                ..table::model(sys::TAG_WRITEV, waiter)
            }),
            table::rw_sqe(sys::TAG_WRITEV, file.raw, 1, off, rw_flags, pers),
        ),
    ensures
        asked(
            before,
            eng_before,
            after,
            eng,
            pers,
            (Call::Write {
                fd: file.raw,
                from: Memory::Address { start: at, count: len },
                at: off,
                flags: rw_flags,
            }),
            set![file.fd],
            waiter,
        ),
        after.ops@[before.op_free@.last() as int].state.recv_lease == Some(hold),
{
    let n = before.op_free@.len() - 1;
    assert(before.op_free@[n] == before.op_free@.last());
    let e = after.ops@[before.op_free@.last() as int].state;
    assert(kept_open(e) =~= set![file.fd]);
}

/// Where a pump read puts its bytes.
pub open spec fn pump_memory(dest: PumpDest, want: usize) -> Memory {
    match dest {
        PumpDest::Owned(_) => Memory::Spare { count: want },
        PumpDest::Group(group) => Memory::Group { group, count: want },
    }
}

/// A launched entry that reads for a response body asks for its own bytes at
/// its own offset of its own file, where its destination says, as the reactor.
pub proof fn law_pump_read_asks_for_its_offset<T, R, C, S>(
    before: FsCore<T, R, C, S>,
    eng_before: Engine,
    after: FsCore<T, R, C, S>,
    eng: Engine,
    file: File<T>,
    dest: PumpDest,
    want: usize,
    off: u64,
    owner: (u32, u64),
    bufs: Vec<Vec<u8>>,
)
    requires
        before.wf(),
        bufs@ == dest.supplied(),
        after.launched(
            before,
            eng,
            eng_before,
            (FsOpEntry {
                bufs,
                iov: IoVecs::Spare { want },
                file: Some(file.fd),
                ..table::model(sys::TAG_READV, FsWaiter::Pump { owner })
            }),
            table::pump_sqe(file.raw, off, dest.group()),
        ),
    ensures
        asked(
            before,
            eng_before,
            after,
            eng,
            0,
            (Call::Read { fd: file.raw, into: pump_memory(dest, want), at: off, flags: 0 }),
            set![file.fd],
            FsWaiter::Pump { owner },
        ),
        dest is Owned ==> after.ops@[before.op_free@.last() as int].state.bufs@ == seq![
            dest->Owned_0,
        ],
{
    let n = before.op_free@.len() - 1;
    assert(before.op_free@[n] == before.op_free@.last());
    let e = after.ops@[before.op_free@.last() as int].state;
    assert(kept_open(e) =~= set![file.fd]);
}

/// The operation a staged cancellation names, by its routing word; none where
/// the entry is no cancellation of one operation.
pub open spec fn cancelled_by(sqe: Sqe) -> Option<u64> {
    match sqe.addr {
        Operand::Value(word) => if sqe.opcode == 14 && sqe.op_flags == 0 && sqe.flags == 0 {
            Some(word)
        } else {
            None
        },
        _ => None,
    }
}

/// The operation in slot `s` runs for a connection among `owners`: a callback
/// or a pump of one of them waits for it.
pub open spec fn runs_for<T, R, C, S>(
    core: FsCore<T, R, C, S>,
    s: int,
    owners: Seq<(u32, u64)>,
) -> bool {
    &&& 0 <= s < core.ops@.len()
    &&& core.ops@[s].state.state is InFlight
    &&& match core.ops@[s].state.waiter {
        Some(FsWaiter::Embedded { owner: Some(o), .. }) => owners.contains(o),
        Some(FsWaiter::Pump { owner }) => owners.contains(owner),
        _ => false,
    }
}

/// A routing word that slot `s` waits for.
pub open spec fn word_of<T, R, C, S>(core: FsCore<T, R, C, S>, s: int, word: u64) -> bool {
    let (tag, slot, gen32) = sys::unpacked(word);
    slot == s && core.completes(tag, slot, gen32)
}

/// The word belongs to an operation in one of the first `upto` slots that runs
/// for a connection among `owners`.
pub open spec fn is_owned<T, R, C, S>(
    core: FsCore<T, R, C, S>,
    owners: Seq<(u32, u64)>,
    upto: int,
    word: u64,
) -> bool {
    exists|s: int| #[trigger] runs_for(core, s, owners) && s < upto && word_of(core, s, word)
}

/// One of the words is the one slot `s` waits for.
pub open spec fn is_named<T, R, C, S>(core: FsCore<T, R, C, S>, s: int, words: Seq<u64>) -> bool {
    exists|k: int| 0 <= k < words.len() && word_of(core, s, #[trigger] words[k])
}

proof fn lemma_cancel_targets<T, R, C, S>(
    core: FsCore<T, R, C, S>,
    owners: Seq<(u32, u64)>,
    upto: nat,
)
    requires
        core.wf(),
        core.ops@.len() <= sys::SLOT_MASK + 1,
        upto <= core.ops@.len(),
    ensures
        ({
            let words = table::cancel_targets(
                core.ops@.subrange(0, upto as int),
                table::owner_set(owners),
            );
            &&& forall|k: int|
                0 <= k < words.len() ==> is_owned(core, owners, upto as int, #[trigger] words[k])
            &&& forall|s: int|
                s < upto && #[trigger] runs_for(core, s, owners) ==> is_named(core, s, words)
        }),
    decreases upto,
{
    let ops = core.ops@.subrange(0, upto as int);
    let set = table::owner_set(owners);
    let words = table::cancel_targets(ops, set);
    if upto > 0 {
        let last = (upto - 1) as nat;
        assert(ops.drop_last() =~= core.ops@.subrange(0, last as int));
        assert(ops.last() == core.ops@[last as int]);
        lemma_cancel_targets(core, owners, last);
        let rest = table::cancel_targets(core.ops@.subrange(0, last as int), set);
        let e = core.ops@[last as int];
        let word = sys::packed(e.state.state->tag, last as u32, sys::low32(e.generation));
        if e.state.state is InFlight {
            sys::law_routing_word_round_trip(
                e.state.state->tag,
                last as u32,
                sys::low32(e.generation),
            );
        }
        assert forall|o: (u32, u64)| set.contains(o) == owners.contains(o) by {}
        if runs_for(core, last as int, owners) {
            assert(words == rest.push(word));
            assert(word_of(core, last as int, word));
        } else {
            assert(words == rest);
        }
        assert forall|k: int| 0 <= k < words.len() implies is_owned(
            core,
            owners,
            upto as int,
            #[trigger] words[k],
        ) by {
            if k < rest.len() {
                assert(words[k] == rest[k]);
                assert(is_owned(core, owners, last as int, rest[k]));
            } else {
                assert(words[k] == word);
            }
        }
        assert forall|s: int| s < upto && #[trigger] runs_for(core, s, owners) implies is_named(
            core,
            s,
            words,
        ) by {
            if s < last {
                assert(is_named(core, s, rest));
                let k = choose|k: int| 0 <= k < rest.len() && word_of(core, s, #[trigger] rest[k]);
                assert(words[k] == rest[k]);
            } else {
                assert(words[rest.len() as int] == word);
            }
        }
    } else {
        assert(words.len() == 0);
    }
}

/// Closing connections cancels what runs for them and nothing else: every
/// entry staged for it is a cancellation of an operation in flight for one of
/// them, and where the ring has room each such operation is cancelled.
pub proof fn law_sweep_cancels_exactly_what_runs_for_the_closed<T, R, C, S>(
    core: FsCore<T, R, C, S>,
    eng_before: Engine,
    eng: Engine,
    owners: Seq<(u32, u64)>,
)
    requires
        core.wf(),
        core.ops@.len() <= sys::SLOT_MASK + 1,
        eng.staged@ == table::staged_cancels(
            eng_before,
            table::cancel_targets(core.ops@, table::owner_set(owners)),
        ),
    ensures
        eng.staged@.len() >= eng_before.staged@.len(),
        forall|i: int|
            0 <= i < eng_before.staged@.len() ==> #[trigger] eng.staged@[i]
                == eng_before.staged@[i],
        forall|i: int|
            eng_before.staged@.len() <= i < eng.staged@.len() ==> {
                &&& cancelled_by(#[trigger] eng.staged@[i]) is Some
                &&& is_owned(
                    core,
                    owners,
                    core.ops@.len() as int,
                    cancelled_by(eng.staged@[i])->Some_0,
                )
            },
        eng.staged@.len() < eng_before.room ==> forall|s: int| #[trigger]
            runs_for(core, s, owners) ==> exists|i: int|
                eng_before.staged@.len() <= i < eng.staged@.len() && cancelled_by(
                    #[trigger] eng.staged@[i],
                ) is Some && word_of(core, s, cancelled_by(eng.staged@[i])->Some_0),
{
    assert(core.ops@.subrange(0, core.ops@.len() as int) =~= core.ops@);
    lemma_cancel_targets(core, owners, core.ops@.len());
    let words = table::cancel_targets(core.ops@, table::owner_set(owners));
    let n0 = eng_before.staged@.len() as int;
    assert forall|i: int| n0 <= i < eng.staged@.len() implies cancelled_by(
        #[trigger] eng.staged@[i],
    ) == Some(words[i - n0]) && is_owned(
        core,
        owners,
        core.ops@.len() as int,
        words[i - n0],
    ) by {
        assert(eng.staged@[i] == table::cancel_sqe(words[i - n0]));
    }
    assert forall|s: int|
        eng.staged@.len() < eng_before.room && #[trigger] runs_for(
            core,
            s,
            owners,
        ) implies exists|i: int|
        n0 <= i < eng.staged@.len() && cancelled_by(#[trigger] eng.staged@[i]) is Some && word_of(
            core,
            s,
            cancelled_by(eng.staged@[i])->Some_0,
        ) by {
        assert(is_named(core, s, words));
        let k = choose|k: int| 0 <= k < words.len() && word_of(core, s, #[trigger] words[k]);
        assert(eng.staged@[n0 + k] == table::cancel_sqe(words[k]));
        assert(cancelled_by(eng.staged@[n0 + k]) == Some(words[k]));
    }
}

/// Retracting a timer cancels that timer: what is staged for it, where the
/// ring has room, names the routing word its slot waits for.
pub proof fn law_retraction_cancels_its_timer<T, R, C, S>(
    core: FsCore<T, R, C, S>,
    eng_before: Engine,
    eng: Engine,
    slot: u32,
    generation: u64,
)
    requires
        core.wf(),
        core.ops@.len() <= sys::SLOT_MASK + 1,
        slot < core.ops@.len(),
        core.ops@[slot as int].generation == generation,
        core.ops@[slot as int].state.state == (table::FsOpState::InFlight { tag: 0x92 }),
        eng_before.staged@.len() < eng_before.room,
        eng.staged@ == table::staged_cancels(
            eng_before,
            seq![sys::packed(sys::TAG_TIMEOUT, slot, sys::low32(generation))],
        ),
    ensures
        eng.staged@.len() == eng_before.staged@.len() + 1,
        cancelled_by(eng.staged@.last()) is Some,
        word_of(core, slot as int, cancelled_by(eng.staged@.last())->Some_0),
{
    let word = sys::packed(sys::TAG_TIMEOUT, slot, sys::low32(generation));
    sys::law_routing_word_round_trip(sys::TAG_TIMEOUT, slot, sys::low32(generation));
    assert(seq![word].subrange(0, 1) =~= seq![word]);
    assert(eng.staged@.last() == table::cancel_sqe(word));
}

/// What a completion code says, in the kernel's own numbers: a count, or the
/// negated number of the error; the codes it restarts a call by are an
/// interruption.
pub open spec fn says(res: i32, r: Result<i32, Errno>) -> bool {
    match r {
        Ok(n) => res >= 0 && n == res,
        Err(e) => res < 0 && if -res == 512 || -res == 513 || -res == 514 || -res == 516 {
            e == Errno::EINTR
        } else {
            e.code() == -res || (res == i32::MIN && e.code() == res)
        },
    }
}

/// Every completion code is read as what it says.
pub proof fn law_completion_code_is_read_as_it_says(res: i32)
    ensures
        says(res, table::mapped(res)),
{
}

/// A completion gives its waiter what the kernel answered: the result its code
/// says, the buffers the operation was given, the pad where it asked for a
/// stat and only there, and the file that was opened. A timer that ran out has
/// done what was asked of it; a leased write that came up short has failed; a
/// timer stopped at its caller's word is marked.
pub proof fn law_completion_gives_the_kernels_answer<T, R, C, S>(
    e: FsOpEntry<T, R, C, S>,
    tag: u8,
    res: i32,
    pad: crate::file::Statx,
    file: Option<File<T>>,
    shares: nat,
)
    ensures
        ({
            let gives = |r: Result<i32, Errno>|
                if tag == 0x92 && res == -62 {
                    if e.recv_lease is Some && e.lease_want > 0 {
                        r == Err::<i32, Errno>(Errno::EIO)
                    } else {
                        r == Ok::<i32, Errno>(0)
                    }
                } else if res >= 0 && e.recv_lease is Some && res < e.lease_want {
                    r == Err::<i32, Errno>(Errno::EIO)
                } else {
                    says(res, r)
                };
            let stat = |s: Option<crate::file::Statx>|
                if e.stat is Some {
                    s == Some(pad)
                } else {
                    s is None
                };
            let done = |d: table::FsDone<T>|
                {
                    &&& gives(d.result)
                    &&& d.refused == (e.retracted && res == -125)
                    &&& d.bufs == e.bufs
                    &&& d.file == file
                    &&& stat(d.stat)
                    &&& d.recv_lease == (if e.recv_lease is Some && shares == 1 {
                        Some(e.recv_lease->Some_0.bid)
                    } else {
                        None
                    })
                };
            match (e.waiter, table::reaped(e, tag, res, pad, file, shares)) {
                (Some(FsWaiter::Channel(tx)), ReapedFs::Reply(to, out)) => {
                    &&& to == tx
                    &&& gives(out.res)
                    &&& out.bufs == e.bufs
                    &&& out.file == file
                    &&& stat(out.stat)
                },
                (
                    Some(FsWaiter::Embedded { owner, cb, .. }),
                    ReapedFs::Embedded(to, d, o),
                ) => to == cb && o == owner && done(d),
                (Some(FsWaiter::Pump { owner }), ReapedFs::Pump(d, o)) => o == owner && done(d),
                (None, r) => r is Nothing,
                _ => false,
            }
        }),
{
}

/// The call a request on the loop's queue is for; none for the removal of an
/// attribute, which the ring cannot run, and for a request that carries too
/// few names.
pub open spec fn request_of<T, R>(msg: FsInject<T, R>) -> Option<Call> {
    match msg {
        FsInject::Open { anchor, path, how, .. } => Some(
            Call::Open { dir: anchor.raw, name: path@, how, guarded: false },
        ),
        FsInject::Rw { tag, file, bufs, off, rw_flags, .. } => {
            let memory = Memory::Buffers(contents_of(bufs@));
            if tag == sys::TAG_READV {
                Some(Call::Read { fd: file.raw, into: memory, at: off, flags: rw_flags })
            } else if tag == sys::TAG_WRITEV {
                Some(Call::Write { fd: file.raw, from: memory, at: off, flags: rw_flags })
            } else {
                None
            }
        },
        FsInject::Fsync { file, datasync, offset, length, .. } => Some(
            Call::Sync { fd: file.raw, data_only: datasync, at: offset, count: length },
        ),
        FsInject::FdMeta { tag, file, name, value, off, len64, aux32, .. } => {
            let fd = file.raw;
            match name {
                None => if tag == sys::TAG_FTRUNCATE {
                    Some(Call::Truncate { fd, size: off })
                } else if tag == sys::TAG_FALLOCATE {
                    Some(Call::Allocate { fd, mode: aux32, at: off, count: len64 })
                } else if tag == sys::TAG_FADVISE {
                    Some(Call::Advise { fd, at: off, count: len64, advice: aux32 })
                } else if tag == sys::TAG_SPLICE {
                    Some(
                        Call::Splice { source: len64 as u32, fd, at: off, count: aux32, flags: 1 },
                    )
                } else {
                    None
                },
                Some(n) => if tag == sys::TAG_FGETXATTR {
                    Some(Call::GetXattr { fd, name: n@, room: value@.len(), flags: aux32 })
                } else if tag == sys::TAG_FSETXATTR {
                    Some(Call::SetXattr { fd, name: n@, value: value@, flags: aux32 })
                } else {
                    None
                },
            }
        },
        FsInject::FdMetaAsRoot { file, name, value, .. } => Some(
            Call::GetXattr { fd: file.raw, name: name@, room: value@.len(), flags: 0 },
        ),
        FsInject::FRemoveXattr { .. } => None,
        FsInject::PathOp { tag, a1, n1, a2, n2, flags, len_arg, .. } => match n2 {
            None => if a2 is Some {
                None
            } else if tag == sys::TAG_STATX {
                Some(Call::Statx { dir: a1.raw, name: n1@, flags, mask: len_arg })
            } else if tag == sys::TAG_MKDIRAT {
                Some(Call::Mkdir { dir: a1.raw, name: n1@, mode: len_arg })
            } else if tag == sys::TAG_UNLINKAT {
                Some(Call::Unlink { dir: a1.raw, name: n1@, flags })
            } else {
                None
            },
            Some(n2) => {
                let dir = second_dir(a1, a2).raw;
                if tag == sys::TAG_RENAMEAT {
                    Some(
                        Call::Rename {
                            old_dir: a1.raw,
                            old_name: n1@,
                            dir,
                            name: n2@,
                            flags,
                        },
                    )
                } else if tag == sys::TAG_LINKAT {
                    Some(
                        Call::Link { old_dir: a1.raw, old_name: n1@, dir, name: n2@, flags },
                    )
                } else if tag == sys::TAG_SYMLINKAT && a2 is None {
                    Some(Call::Symlink { target: n1@, dir: a1.raw, name: n2@ })
                } else {
                    None
                }
            },
        },
        FsInject::LinkatFile { file, a2, n2, .. } => Some(
            Call::Link {
                old_dir: file.raw,
                old_name: Seq::empty(),
                dir: a2.raw,
                name: n2@,
                flags: 0x1000,
            },
        ),
    }
}

/// The buffers a request moves in.
pub open spec fn payload_of<T, R>(msg: FsInject<T, R>) -> Seq<Vec<u8>> {
    match msg {
        FsInject::Rw { bufs, .. } => bufs@,
        FsInject::FdMeta { value, .. } => seq![value],
        FsInject::FdMetaAsRoot { value, .. } => seq![value],
        _ => Seq::empty(),
    }
}

/// A length the ring's fields can hold.
pub open spec fn sized<T, R>(msg: FsInject<T, R>) -> bool {
    match msg {
        FsInject::Rw { bufs, .. } => bufs@.len() <= u32::MAX,
        FsInject::FdMeta { value, .. } => value@.len() <= u32::MAX,
        FsInject::FdMetaAsRoot { value, .. } => value@.len() <= u32::MAX,
        _ => true,
    }
}

/// The descriptors a request names.
pub open spec fn descriptors_of<T, R>(msg: FsInject<T, R>) -> Set<Arc<T>> {
    match msg {
        FsInject::Open { anchor, .. } => set![anchor.fd],
        FsInject::Rw { file, .. } => set![file.fd],
        FsInject::Fsync { file, .. } => set![file.fd],
        FsInject::FdMeta { file, .. } => set![file.fd],
        FsInject::FdMetaAsRoot { file, .. } => set![file.fd],
        FsInject::FRemoveXattr { file, .. } => set![file.fd],
        FsInject::PathOp { a1, a2, .. } => set![a1.fd, second_dir(a1, a2).fd],
        FsInject::LinkatFile { file, a2, .. } => set![file.fd, a2.fd],
    }
}

/// A request is run as the one who made it; as the reactor where it writes an
/// attribute the server owns, or reads one on the reactor's behalf.
pub open spec fn identity_of<T, R, C, S>(core: FsCore<T, R, C, S>, msg: FsInject<T, R>) -> u16 {
    match msg {
        FsInject::Open { pers, .. } => pers,
        FsInject::Rw { pers, .. } => pers,
        FsInject::Fsync { pers, .. } => pers,
        FsInject::FdMeta { tag, pers, name: Some(n), .. } => if tag == sys::TAG_FSETXATTR
            && core.priv_xattrs.covers(n@) {
            0
        } else {
            pers
        },
        FsInject::FdMeta { pers, .. } => pers,
        FsInject::FdMetaAsRoot { .. } => 0,
        FsInject::FRemoveXattr { .. } => 0,
        FsInject::PathOp { pers, .. } => pers,
        FsInject::LinkatFile { pers, .. } => pers,
    }
}

/// A request taken off the queue asks the kernel for the call it is for, as
/// the one it is to run as, and its reply hears of it.
pub proof fn law_request_asks_for_its_call<T, R, C, S>(
    from: UringFs<T, R, C, S>,
    to: UringFs<T, R, C, S>,
    msg: FsInject<T, R>,
    r: Routed<T, R, C, S>,
    call: Call,
)
    requires
        from.fs.wf(),
        from.injected(to, msg, r),
        request_of(msg) == Some(call),
        sized(msg),
        msg.identified(),
    ensures
        r is Submitted,
        submitted(
            from.fs,
            from.eng,
            to.fs,
            to.eng,
            identity_of(from.fs, msg),
            call,
            descriptors_of(msg),
            payload_of(msg),
            FsWaiter::Channel(crate::host::reply_of(msg)),
            r->Submitted_0,
        ),
{
    let w = FsWaiter::<R, C, S>::Channel(crate::host::reply_of(msg));
    let x = r->Submitted_0;
    let (f0, e0, f1, e1) = (from.fs, from.eng, to.fs, to.eng);
    match msg {
        FsInject::Open { pers, anchor, path, how, reply } => {
            law_open_asks_for_its_name_under_its_anchor(
                f0,
                e0,
                f1,
                e1,
                pers,
                anchor,
                path,
                how,
                false,
                w,
                x,
            );
        },
        FsInject::Rw { tag, pers, file, bufs, off, rw_flags, reply } => {
            if tag == sys::TAG_READV {
                law_read_asks_for_its_offset(
                    f0,
                    e0,
                    f1,
                    e1,
                    pers,
                    file,
                    bufs@,
                    off,
                    rw_flags,
                    w,
                    x,
                );
            } else {
                law_write_asks_for_its_offset(
                    f0,
                    e0,
                    f1,
                    e1,
                    pers,
                    file,
                    bufs@,
                    off,
                    rw_flags,
                    w,
                    x,
                );
            }
        },
        FsInject::Fsync { pers, file, datasync, offset, length, reply } => {
            law_flush_asks_for_its_range(
                f0,
                e0,
                f1,
                e1,
                pers,
                file,
                datasync,
                offset,
                length,
                w,
                x,
            );
        },
        FsInject::FdMeta { tag, pers, file, name, value, off, len64, aux32, reply } => {
            match name {
                None => {
                    if tag == sys::TAG_FTRUNCATE {
                        law_truncate_asks_for_its_size(
                            f0,
                            e0,
                            f1,
                            e1,
                            pers,
                            file,
                            value,
                            off,
                            len64,
                            aux32,
                            w,
                            x,
                        );
                    } else if tag == sys::TAG_FALLOCATE {
                        law_allocate_asks_for_its_range(
                            f0,
                            e0,
                            f1,
                            e1,
                            pers,
                            file,
                            value,
                            off,
                            len64,
                            aux32,
                            w,
                            x,
                        );
                    } else if tag == sys::TAG_FADVISE {
                        law_advise_asks_for_its_range(
                            f0,
                            e0,
                            f1,
                            e1,
                            pers,
                            file,
                            value,
                            off,
                            len64,
                            aux32,
                            w,
                            x,
                        );
                    } else {
                        law_splice_drains_its_pipe(
                            f0,
                            e0,
                            f1,
                            e1,
                            pers,
                            file,
                            value,
                            off,
                            len64,
                            aux32,
                            w,
                            x,
                        );
                    }
                },
                Some(n) => {
                    if tag == sys::TAG_FGETXATTR {
                        law_attribute_read_asks_for_its_name(
                            f0,
                            e0,
                            f1,
                            e1,
                            pers,
                            file,
                            n,
                            value,
                            off,
                            len64,
                            aux32,
                            w,
                            x,
                        );
                    } else {
                        law_attribute_write_asks_for_its_value(
                            f0,
                            e0,
                            f1,
                            e1,
                            pers,
                            file,
                            n,
                            value,
                            off,
                            len64,
                            aux32,
                            identity_of(f0, msg),
                            w,
                            x,
                        );
                    }
                },
            }
        },
        FsInject::FdMetaAsRoot { file, name, value, reply } => {
            law_attribute_read_as_reactor_asks_for_its_name(
                f0,
                e0,
                f1,
                e1,
                0,
                file,
                name,
                value,
                0,
                0,
                0,
                w,
                x,
            );
        },
        FsInject::FRemoveXattr { .. } => {},
        FsInject::PathOp { tag, pers, a1, n1, a2, n2, flags, len_arg, reply } => {
            assert(set![a1.fd, a1.fd] =~= set![a1.fd]);
            match n2 {
                None => {
                    if tag == sys::TAG_STATX {
                        law_statx_asks_for_its_name(
                            f0,
                            e0,
                            f1,
                            e1,
                            pers,
                            a1,
                            n1,
                            flags,
                            len_arg,
                            w,
                            x,
                        );
                    } else if tag == sys::TAG_MKDIRAT {
                        law_mkdir_makes_its_name(
                            f0,
                            e0,
                            f1,
                            e1,
                            pers,
                            a1,
                            n1,
                            flags,
                            len_arg,
                            w,
                            x,
                        );
                    } else {
                        law_unlink_removes_its_name(
                            f0,
                            e0,
                            f1,
                            e1,
                            pers,
                            a1,
                            n1,
                            flags,
                            len_arg,
                            w,
                            x,
                        );
                    }
                },
                Some(n) => {
                    if tag == sys::TAG_RENAMEAT {
                        law_rename_moves_to_the_second_name(
                            f0,
                            e0,
                            f1,
                            e1,
                            pers,
                            a1,
                            n1,
                            a2,
                            n,
                            flags,
                            len_arg,
                            w,
                            x,
                        );
                    } else if tag == sys::TAG_LINKAT {
                        law_link_makes_the_second_name(
                            f0,
                            e0,
                            f1,
                            e1,
                            pers,
                            a1,
                            n1,
                            a2,
                            n,
                            flags,
                            len_arg,
                            w,
                            x,
                        );
                    } else {
                        law_symlink_holds_its_target(
                            f0,
                            e0,
                            f1,
                            e1,
                            pers,
                            a1,
                            n1,
                            n,
                            flags,
                            len_arg,
                            w,
                            x,
                        );
                    }
                },
            }
        },
        FsInject::LinkatFile { pers, file, a2, n2, reply } => {
            law_naming_an_open_file_makes_the_name(f0, e0, f1, e1, pers, file, a2, n2, w, x);
        },
    }
}

/// One more request is on the queue, behind all there were: for `call`, as
/// `who`, answered through `reply`.
pub open spec fn queued<T, R>(
    before: FsHandle<T, R>,
    after: FsHandle<T, R>,
    who: Option<u16>,
    call: Call,
    reply: R,
) -> bool {
    let msg = after.queue@.last();
    &&& after.queue@.len() == before.queue@.len() + 1
    &&& after.queue@.drop_last() == before.queue@
    &&& request_of(msg) == Some(call)
    &&& msg.identity() == who
    &&& crate::host::reply_of(msg) == reply
}

/// While the loop is torn down an operation's completion still reaches a
/// caller that waits for its reply: with the result its code says, the buffers
/// it gave, the pad where it asked for a stat, and the file that was opened. No
/// callback fires then. Its slot is free either way.
pub proof fn law_teardown_gives_the_kernels_answer<
    T,
    R,
    C,
    S,
    F: FnOnce(i32, Option<u64>) -> Arc<T>,
>(
    before: FsCore<T, R, C, S>,
    after: FsCore<T, R, C, S>,
    word: u64,
    res: i32,
    pad: crate::file::Statx,
    adopt: F,
    r: ReapedFs<T, R, C, S>,
)
    requires
        after.drains(before, word, res, pad, adopt, r),
    ensures
        ({
            let (tag, slot, gen32) = sys::unpacked(word);
            let e = before.ops@[slot as int].state;
            if tag & 0x80 != 0 && tag != 0x9d && tag != 0x9e && before.completes(
                tag,
                slot,
                gen32,
            ) {
                &&& after.frees(before, slot)
                &&& match e.waiter {
                    Some(FsWaiter::Channel(tx)) => match r {
                        ReapedFs::Reply(to, out) => {
                            &&& to == tx
                            &&& if res >= 0 && e.recv_lease is Some && res < e.lease_want {
                                out.res == Err::<i32, Errno>(Errno::EIO)
                            } else {
                                says(res, out.res)
                            }
                            &&& out.bufs == e.bufs
                            &&& out.file is Some <==> tag == 0x80 && res >= 0
                            &&& out.file is Some ==> out.file->Some_0.raw == res
                            &&& out.stat == (if e.stat is Some {
                                Some(pad)
                            } else {
                                None
                            })
                        },
                        _ => false,
                    },
                    _ => r is Nothing,
                }
            } else {
                r is Nothing && after == before
            }
        }),
{
}

/// A slot that was freed holds nothing of its operation: no descriptor stays
/// open for it, no buffer and no name stays in it, and nobody waits; every
/// other slot is as it was.
pub proof fn law_freed_slot_holds_nothing<T, R, C, S>(
    before: FsCore<T, R, C, S>,
    after: FsCore<T, R, C, S>,
    slot: u32,
    other: int,
)
    requires
        after.frees(before, slot),
    ensures
        ({
            let e = after.ops@[slot as int].state;
            &&& kept_open(e) == Set::<Arc<T>>::empty()
            &&& e.waiter is None
            &&& e.bufs@.len() == 0
            &&& e.path is None && e.path2 is None && e.how is None
            &&& e.recv_lease is None
            &&& !(e.state is InFlight)
            &&& after.op_free@.last() == slot
            &&& after.op_free@.len() == before.op_free@.len() + 1
        }),
        0 <= other < before.ops@.len() && other != slot ==> after.ops@[other] == before.ops@[other],
{
    let e = after.ops@[slot as int].state;
    assert(kept_open(e) =~= Set::<Arc<T>>::empty());
    if 0 <= other < before.ops@.len() && other != slot {
        assert(after.ops@[other] == before.ops@[other]);
    }
}

/// A request that names a file or acts on one's metadata is never run without
/// an identity: its caller is told `EINVAL` and given back what it moved in,
/// and the reactor is as it was.
pub proof fn law_request_without_identity_is_turned_away<T, R, C, S>(
    from: UringFs<T, R, C, S>,
    to: UringFs<T, R, C, S>,
    msg: FsInject<T, R>,
    r: Routed<T, R, C, S>,
)
    requires
        from.injected(to, msg, r),
        msg.identity() == Some(0u16),
        !(msg is Rw),
        !(msg is Fsync),
    ensures
        r is Submitted,
        turned_away(
            from.eng,
            to.eng,
            FsWaiter::<R, C, S>::Channel(crate::host::reply_of(msg)),
            Errno::EINVAL,
            payload_of(msg),
            r->Submitted_0,
        ),
        to.fs == from.fs,
        to.eng == from.eng,
{
}

/// The removal of an attribute is for the pool to run, on the file and name
/// asked for, where the server owns the name; otherwise its caller is told
/// `EPERM`. Neither touches the table.
pub proof fn law_removal_is_of_a_name_the_server_owns<T, R, C, S>(
    from: UringFs<T, R, C, S>,
    to: UringFs<T, R, C, S>,
    file: File<T>,
    name: Vec<u8>,
    reply: R,
    r: Routed<T, R, C, S>,
)
    requires
        from.injected(to, FsInject::FRemoveXattr { file, name, reply }, r),
    ensures
        to.fs == from.fs,
        to.eng == from.eng,
        match r {
            Routed::Removal(table::XattrRemoval::Run { file: f, name: n, reply: told }) => {
                &&& from.fs.priv_xattrs.covers(name@)
                &&& f == file
                &&& n == name
                &&& told == reply
            },
            Routed::Removal(table::XattrRemoval::Refused(told, out)) => {
                &&& !from.fs.priv_xattrs.covers(name@)
                &&& told == reply
                &&& out.res == Err::<i32, Errno>(Errno::of_code(1))
            },
            _ => false,
        },
{
}

/// A write was performed: its bytes are in the file from its offset on, and
/// every other byte is as it was. A file is its bytes by offset.
pub open spec fn performs_write(
    call: Call,
    before: spec_fn(int) -> u8,
    after: spec_fn(int) -> u8,
) -> bool {
    match call {
        Call::Write { from: Memory::Buffers(bufs), at, .. } => {
            let bytes = bufs.flatten();
            forall|p: int| #[trigger]
                after(p) == if at <= p < at + bytes.len() {
                    bytes[p - at]
                } else {
                    before(p)
                }
        },
        _ => false,
    }
}

/// A read was performed: it got the bytes of the file from its offset on, as
/// many as its buffers hold.
pub open spec fn performs_read(call: Call, file: spec_fn(int) -> u8, got: Seq<u8>) -> bool {
    match call {
        Call::Read { into: Memory::Buffers(room), at, .. } => {
            &&& got.len() == room.flatten().len()
            &&& forall|i: int| 0 <= i < got.len() ==> #[trigger] got[i] == file(at + i)
        },
        _ => false,
    }
}

/// What was written at an offset is what a read at that offset of the same file
/// gets, and a write changes nothing before or behind it. `wrote` and `read`
/// are the table and the ring before and after each submission.
pub proof fn law_read_gets_back_what_was_written<T, R, C, S>(
    wrote: (FsCore<T, R, C, S>, Engine, FsCore<T, R, C, S>, Engine),
    read: (FsCore<T, R, C, S>, Engine, FsCore<T, R, C, S>, Engine),
    pers: u16,
    file: File<T>,
    bufs: Seq<Vec<u8>>,
    room: Seq<Vec<u8>>,
    off: u64,
    flags: (u32, u32),
    waiters: (FsWaiter<R, C, S>, FsWaiter<R, C, S>),
    rs: (ReapedFs<T, R, C, S>, ReapedFs<T, R, C, S>),
    written: Call,
    asked_for: Call,
    before: spec_fn(int) -> u8,
    after: spec_fn(int) -> u8,
    got: Seq<u8>,
)
    requires
        wrote.0.wf(),
        wrote.0.op_free@.len() > 0,
        wrote.1.staged@.len() < wrote.1.room,
        bufs.len() <= u32::MAX,
        wrote.2.rw_staged(
            wrote.0,
            wrote.3,
            wrote.1,
            sys::TAG_WRITEV,
            pers,
            file,
            bufs,
            off,
            flags.0,
            waiters.0,
            rs.0,
        ),
        read.0.wf(),
        read.0.op_free@.len() > 0,
        read.1.staged@.len() < read.1.room,
        room.len() <= u32::MAX,
        read.2.rw_staged(
            read.0,
            read.3,
            read.1,
            sys::TAG_READV,
            pers,
            file,
            room,
            off,
            flags.1,
            waiters.1,
            rs.1,
        ),
        call_of(wrote.3.staged@.last(), wrote.2.ops@[wrote.0.op_free@.last() as int].state)
            == Some(written),
        call_of(read.3.staged@.last(), read.2.ops@[read.0.op_free@.last() as int].state)
            == Some(asked_for),
        performs_write(written, before, after),
        performs_read(asked_for, after, got),
        contents_of(room).flatten().len() == contents_of(bufs).flatten().len(),
    ensures
        got == contents_of(bufs).flatten(),
        forall|p: int|
            p < off || p >= off + got.len() ==> #[trigger] after(p) == before(p),
{
    law_write_asks_for_its_offset(
        wrote.0,
        wrote.1,
        wrote.2,
        wrote.3,
        pers,
        file,
        bufs,
        off,
        flags.0,
        waiters.0,
        rs.0,
    );
    law_read_asks_for_its_offset(
        read.0,
        read.1,
        read.2,
        read.3,
        pers,
        file,
        room,
        off,
        flags.1,
        waiters.1,
        rs.1,
    );
    let bytes = contents_of(bufs).flatten();
    assert forall|i: int| 0 <= i < got.len() implies #[trigger] got[i] == bytes[i] by {
        assert(after(off + i) == bytes[i]);
    }
    assert(got =~= bytes);
}

/// A call on names was performed: a rename moves what the old name names to the
/// new one, a link names it anew, a removal takes the name away. A directory
/// and a name in it name an inode.
pub open spec fn performs_naming(
    call: Call,
    before: Map<(i32, Seq<u8>), int>,
    after: Map<(i32, Seq<u8>), int>,
) -> bool {
    match call {
        Call::Rename { old_dir, old_name, dir, name, .. } => {
            let inode = before[(old_dir, old_name)];
            &&& before.contains_key((old_dir, old_name))
            &&& after == before.remove((old_dir, old_name)).insert((dir, name), inode)
        },
        Call::Link { old_dir, old_name, dir, name, .. } => {
            &&& before.contains_key((old_dir, old_name))
            &&& after == before.insert((dir, name), before[(old_dir, old_name)])
        },
        Call::Unlink { dir, name, .. } => after == before.remove((dir, name)),
        _ => false,
    }
}

/// A rename or link makes its second name, in the second directory where there
/// is one, of what its first name named in the first directory; a rename takes
/// the first name away, and neither touches any other name.
pub proof fn law_naming_makes_the_second_name<T, R, C, S>(
    before: FsCore<T, R, C, S>,
    eng_before: Engine,
    after: FsCore<T, R, C, S>,
    eng: Engine,
    tag: u8,
    pers: u16,
    a1: Anchor<T>,
    n1: Vec<u8>,
    a2: Option<Anchor<T>>,
    n2: Vec<u8>,
    flags: u32,
    len_arg: u32,
    waiter: FsWaiter<R, C, S>,
    r: ReapedFs<T, R, C, S>,
    call: Call,
    names_before: Map<(i32, Seq<u8>), int>,
    names_after: Map<(i32, Seq<u8>), int>,
    other: (i32, Seq<u8>),
)
    requires
        before.wf(),
        before.op_free@.len() > 0,
        eng_before.staged@.len() < eng_before.room,
        pers != 0,
        tag == sys::TAG_RENAMEAT || tag == sys::TAG_LINKAT,
        after.path_staged(
            before,
            eng,
            eng_before,
            tag,
            pers,
            a1,
            n1,
            a2,
            Some(n2),
            flags,
            len_arg,
            waiter,
            r,
        ),
        call_of(eng.staged@.last(), after.ops@[before.op_free@.last() as int].state) == Some(call),
        performs_naming(call, names_before, names_after),
    ensures
        ({
            let dir = match a2 {
                Some(a) => a.raw,
                None => a1.raw,
            };
            &&& names_before.contains_key((a1.raw, n1@))
            &&& names_after.contains_key((dir, n2@))
            &&& names_after[(dir, n2@)] == names_before[(a1.raw, n1@)]
            &&& tag == sys::TAG_RENAMEAT && (a1.raw, n1@) != (dir, n2@)
                ==> !names_after.contains_key((a1.raw, n1@))
            &&& tag == sys::TAG_LINKAT ==> names_after.contains_key((a1.raw, n1@))
            &&& other != (a1.raw, n1@) && other != (dir, n2@) ==> {
                &&& names_after.contains_key(other) == names_before.contains_key(other)
                &&& names_before.contains_key(other) ==> names_after[other] == names_before[other]
            }
        }),
{
    if tag == sys::TAG_RENAMEAT {
        law_rename_moves_to_the_second_name(
            before,
            eng_before,
            after,
            eng,
            pers,
            a1,
            n1,
            a2,
            n2,
            flags,
            len_arg,
            waiter,
            r,
        );
    } else {
        law_link_makes_the_second_name(
            before,
            eng_before,
            after,
            eng,
            pers,
            a1,
            n1,
            a2,
            n2,
            flags,
            len_arg,
            waiter,
            r,
        );
    }
}

} // verus!
