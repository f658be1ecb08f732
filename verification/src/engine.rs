//! The staging area between the operation table and the ring: submission
//! entries as plain values, each pointer named by the payload it points at.
use crate::errno::Errno;
use vstd::prelude::*;

verus! {

/// A 64-bit operand of a submission entry: a number, or the address of a
/// payload parked in the operation's own table entry.
#[derive(Clone, Copy, Debug, PartialEq, Eq, Structural)]
pub enum Operand {
    Value(u64),
    /// The primary path payload.
    Path,
    /// The secondary path payload.
    Path2,
    /// The `open_how` pad.
    How,
    /// The `statx` result pad.
    Stat,
    /// The single value buffer of an extended-attribute operation.
    Buf,
    /// The iovec array.
    Iov,
    /// The timer's timespec.
    Timespec,
}

/// One submission entry. A field the operation does not use is zero.
#[derive(Clone, Copy, Debug, PartialEq, Eq, Structural)]
pub struct Sqe {
    pub user_data: u64,
    pub opcode: u8,
    pub flags: u8,
    pub fd: i32,
    pub off_addr2: Operand,
    pub addr: Operand,
    pub len: u32,
    pub op_flags: u32,
    pub buf_index: u16,
    pub personality: u16,
    pub file_index: u32,
}

impl Sqe {
    /// An entry with every field zero: opcode 0 is the kernel's no-op.
    pub open spec fn spec_zeroed() -> Sqe {
        Sqe {
            user_data: 0,
            opcode: 0,
            flags: 0,
            fd: 0,
            off_addr2: Operand::Value(0),
            addr: Operand::Value(0),
            len: 0,
            op_flags: 0,
            buf_index: 0,
            personality: 0,
            file_index: 0,
        }
    }

    #[verifier::when_used_as_spec(spec_zeroed)]
    pub fn zeroed() -> (r: Sqe)
        ensures
            r == Sqe::spec_zeroed(),
    {
        Sqe {
            user_data: 0,
            opcode: 0,
            flags: 0,
            fd: 0,
            off_addr2: Operand::Value(0),
            addr: Operand::Value(0),
            len: 0,
            op_flags: 0,
            buf_index: 0,
            personality: 0,
            file_index: 0,
        }
    }
}

/// What the ring can take before its next flush, and what has been staged
/// for it. Entries past `room` are refused with `refusal`, the error the ring
/// gave for being full.
pub struct Engine {
    pub staged: Vec<Sqe>,
    pub room: usize,
    pub refusal: Errno,
    /// A graceful drain has been requested of the loop.
    pub graceful: bool,
}

impl Engine {
    pub open spec fn spec_has_room(&self) -> bool {
        self.staged@.len() < self.room
    }

    /// Nothing but the staged entries differs.
    pub open spec fn same_limits(&self, other: Engine) -> bool {
        &&& self.room == other.room
        &&& self.refusal == other.refusal
        &&& self.graceful == other.graceful
    }

    /// A staging area for `room` entries.
    pub fn new(room: usize, refusal: Errno) -> (r: Engine)
        ensures
            r.staged@ == Seq::<Sqe>::empty(),
            r.room == room,
            r.refusal == refusal,
            !r.graceful,
    {
        Engine { staged: Vec::new(), room, refusal, graceful: false }
    }

    /// Stage one entry, or refuse it because the ring is full.
    pub fn stage(&mut self, sqe: Sqe) -> (r: Result<(), Errno>)
        ensures
            final(self).same_limits(*old(self)),
            match r {
                Ok(_) => old(self).spec_has_room()
                    && final(self).staged@ == old(self).staged@.push(sqe),
                Err(e) => !old(self).spec_has_room() && e == old(self).refusal
                    && final(self).staged@ == old(self).staged@,
            },
    {
        if self.staged.len() < self.room {
            self.staged.push(sqe);
            Ok(())
        } else {
            Err(self.refusal)
        }
    }
}

} // verus!
