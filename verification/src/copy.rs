//! Copying a range between two files: in the kernel where it can, and through
//! a buffer where the two are on different filesystems.
use crate::errno::{Errno, Error};
use vstd::prelude::*;

verus! {

/// The most one copy call is asked for: the largest count the kernel honours
/// that ends on a page.
pub const MAX_CHUNK: u64 = 0x7FFF_F000;

/// The buffer a copy goes through where the kernel cannot make it.
pub const COPY_BUF: u64 = 0x10_0000;

/// A copy that has its result, or is waited for.
#[derive(Debug)]
pub enum CopyHandle<R> {
    Ready(Result<u64, Error>),
    Pending(R),
}

impl<R> CopyHandle<R> {
    /// The result: `received` is what the worker sent, `None` where it is gone
    /// without having sent anything.
    pub fn wait(self, received: Option<Result<u64, Error>>) -> (r: Result<u64, Error>)
        ensures
            r == (match self {
                CopyHandle::Ready(done) => done,
                CopyHandle::Pending(_) => match received {
                    Some(got) => got,
                    None => Err(Error::Errno(Errno::ECONNABORTED)),
                },
            }),
    {
        match self {
            CopyHandle::Ready(done) => done,
            CopyHandle::Pending(_) => match received {
                Some(got) => got,
                None => Err(Error::Errno(Errno::ECONNABORTED)),
            },
        }
    }

    /// A copy of `len` bytes: of none, it is done.
    pub fn begin(len: u64) -> (r: Option<CopyHandle<R>>)
        ensures
            match r {
                Some(h) => len == 0 && h == CopyHandle::<R>::Ready(Ok(0)),
                None => len > 0,
            },
    {
        if len == 0 {
            Some(CopyHandle::Ready(Ok(0)))
        } else {
            None
        }
    }
}

/// Where a copy stands. An offset past `u64::MAX` wraps, as the kernel would
/// see it.
#[derive(Clone, Copy, Debug, PartialEq, Eq, Structural)]
pub struct CopyRange {
    pub off_src: u64,
    pub off_dst: u64,
    pub len: u64,
    /// Bytes copied so far.
    pub total: u64,
    /// Copying goes through a buffer.
    pub buffered: bool,
    /// Bytes in the buffer, and how many of them were written.
    pub held: u64,
    pub written: u64,
}

/// What a copy does next. A call that a signal interrupts is made again by
/// whoever makes it, and only its last answer is handed in.
#[derive(Debug)]
pub enum CopyStep {
    /// Ask the kernel to copy that many bytes, and say what it did.
    Kernel { src: u64, dst: u64, want: u64 },
    /// Read up to that many bytes into the buffer.
    Fill { src: u64, want: u64 },
    /// Write the buffer from `from` on, that many bytes.
    Drain { dst: u64, from: u64, want: u64 },
    /// The copy is over.
    Done(Result<u64, Error>),
}

/// The offset `by` bytes after `off`.
pub open spec fn offset_at(off: u64, by: int) -> u64 {
    ((off + by) % 0x1_0000_0000_0000_0000) as u64
}

impl CopyRange {
    /// No more was copied than asked for, and no more written than read.
    pub open spec fn wf(&self) -> bool {
        &&& self.total <= self.len
        &&& self.held <= COPY_BUF
        &&& self.held <= self.len - self.total
        &&& if self.held == 0 {
            self.written == 0
        } else {
            self.buffered && self.written < self.held
        }
    }

    /// How many bytes are still to be copied.
    pub open spec fn left(&self) -> u64 {
        (self.len - self.total) as u64
    }

    pub fn new(off_src: u64, off_dst: u64, len: u64) -> (r: CopyRange)
        ensures
            r.wf(),
            r == (CopyRange {
                off_src,
                off_dst,
                len,
                total: 0,
                buffered: false,
                held: 0,
                written: 0,
            }),
    {
        CopyRange { off_src, off_dst, len, total: 0, buffered: false, held: 0, written: 0 }
    }

    /// What to do next.
    pub open spec fn spec_step(&self) -> CopyStep {
        if self.held > 0 {
            CopyStep::Drain {
                dst: offset_at(self.off_dst, self.total + self.written),
                from: self.written,
                want: (self.held - self.written) as u64,
            }
        } else if self.left() == 0 {
            CopyStep::Done(Ok(self.total))
        } else if self.buffered {
            CopyStep::Fill {
                src: offset_at(self.off_src, self.total as int),
                want: if self.left() < COPY_BUF {
                    self.left()
                } else {
                    COPY_BUF
                },
            }
        } else {
            CopyStep::Kernel {
                src: offset_at(self.off_src, self.total as int),
                dst: offset_at(self.off_dst, self.total as int),
                want: if self.left() < MAX_CHUNK {
                    self.left()
                } else {
                    MAX_CHUNK
                },
            }
        }
    }

    /// [`CopyRange::spec_step`].
    pub fn step(&self) -> (r: CopyStep)
        requires
            self.wf(),
        ensures
            r == self.spec_step(),
    {
        let left = self.len - self.total;
        if self.held > 0 {
            CopyStep::Drain {
                dst: self.off_dst.wrapping_add(self.total + self.written),
                from: self.written,
                want: self.held - self.written,
            }
        } else if left == 0 {
            CopyStep::Done(Ok(self.total))
        } else if self.buffered {
            CopyStep::Fill {
                src: self.off_src.wrapping_add(self.total),
                want: if left < COPY_BUF {
                    left
                } else {
                    COPY_BUF
                },
            }
        } else {
            CopyStep::Kernel {
                src: self.off_src.wrapping_add(self.total),
                dst: self.off_dst.wrapping_add(self.total),
                want: if left < MAX_CHUNK {
                    left
                } else {
                    MAX_CHUNK
                },
            }
        }
    }

    /// Where the copy stands once its call was answered with `did`.
    pub open spec fn after(&self, did: Result<u64, Errno>) -> CopyRange {
        match (self.spec_step(), did) {
            (CopyStep::Kernel { .. }, Ok(n)) => CopyRange {
                total: (self.total + n) as u64,
                ..*self
            },
            (CopyStep::Kernel { .. }, Err(Errno::EXDEV)) => CopyRange {
                buffered: self.buffered || self.total == 0,
                ..*self
            },
            (CopyStep::Fill { .. }, Ok(n)) => CopyRange { held: n, ..*self },
            (CopyStep::Drain { .. }, Ok(n)) => if self.written + n == self.held {
                CopyRange {
                    total: (self.total + self.held) as u64,
                    held: 0,
                    written: 0,
                    ..*self
                }
            } else {
                CopyRange { written: (self.written + n) as u64, ..*self }
            },
            _ => *self,
        }
    }

    /// What that answer makes of it: the next call, or the end.
    pub open spec fn next(&self, did: Result<u64, Errno>) -> CopyStep {
        match did {
            Ok(n) => if n > 0 {
                self.after(did).spec_step()
            } else if self.spec_step() is Drain {
                CopyStep::Done(Err(Error::Errno(Errno::EIO)))
            } else {
                CopyStep::Done(Ok(self.total))
            },
            Err(e) => if self.spec_step() is Kernel && e == Errno::EXDEV && self.total == 0 {
                self.after(did).spec_step()
            } else {
                CopyStep::Done(Err(Error::Errno(e)))
            },
        }
    }

    /// What the kernel's copy did. None copied is the end of the source. Two
    /// filesystems it will not copy between are copied through a buffer, from
    /// the start: nothing was copied yet.
    pub fn copied(&mut self, did: Result<u64, Errno>) -> (r: CopyStep)
        requires
            old(self).wf(),
            old(self).spec_step() is Kernel,
            did is Ok ==> did->Ok_0 <= old(self).spec_step()->Kernel_want,
        ensures
            final(self).wf(),
            match did {
                Ok(n) => {
                    &&& *final(self) == (CopyRange { total: (old(self).total + n) as u64, ..*old(self) })
                    &&& r == (if n == 0 {
                        CopyStep::Done(Ok(old(self).total))
                    } else {
                        final(self).spec_step()
                    })
                },
                Err(e) => if e == Errno::EXDEV && old(self).total == 0 {
                    &&& *final(self) == (CopyRange { buffered: true, ..*old(self) })
                    &&& r == final(self).spec_step()
                } else {
                    &&& *final(self) == *old(self)
                    &&& r == CopyStep::Done(Err(Error::Errno(e)))
                },
            },
            *final(self) == old(self).after(did),
            r == old(self).next(did),
    {
        match did {
            Ok(n) => {
                if n == 0 {
                    return CopyStep::Done(Ok(self.total));
                }
                self.total = self.total + n;
                self.step()
            },
            Err(e) => {
                let exdev = match e {
                    Errno::EXDEV => true,
                    _ => false,
                };
                if exdev && self.total == 0 {
                    self.buffered = true;
                    return self.step();
                }
                CopyStep::Done(Err(Error::Errno(e)))
            },
        }
    }

    /// What reading into the buffer gave. Nothing read is the end of the
    /// source.
    pub fn filled(&mut self, did: Result<u64, Errno>) -> (r: CopyStep)
        requires
            old(self).wf(),
            old(self).spec_step() is Fill,
            did is Ok ==> did->Ok_0 <= old(self).spec_step()->Fill_want,
        ensures
            final(self).wf(),
            match did {
                Ok(n) => {
                    &&& *final(self) == (CopyRange { held: n, ..*old(self) })
                    &&& r == (if n == 0 {
                        CopyStep::Done(Ok(old(self).total))
                    } else {
                        final(self).spec_step()
                    })
                },
                Err(e) => *final(self) == *old(self) && r == CopyStep::Done(Err(Error::Errno(e))),
            },
            *final(self) == old(self).after(did),
            r == old(self).next(did),
    {
        match did {
            Ok(n) => {
                if n == 0 {
                    return CopyStep::Done(Ok(self.total));
                }
                self.held = n;
                self.step()
            },
            Err(e) => CopyStep::Done(Err(Error::Errno(e))),
        }
    }

    /// What writing the buffer did. The rest of a short write is written
    /// next, at its place; a write of nothing is a failure, since it would go
    /// on for ever.
    pub fn drained(&mut self, did: Result<u64, Errno>) -> (r: CopyStep)
        requires
            old(self).wf(),
            old(self).spec_step() is Drain,
            did is Ok ==> did->Ok_0 <= old(self).spec_step()->Drain_want,
        ensures
            final(self).wf(),
            match did {
                Ok(n) => if n == 0 {
                    &&& *final(self) == *old(self)
                    &&& r == CopyStep::Done(Err(Error::Errno(Errno::EIO)))
                } else {
                    &&& *final(self) == (if old(self).written + n == old(self).held {
                        CopyRange {
                            total: (old(self).total + old(self).held) as u64,
                            held: 0,
                            written: 0,
                            ..*old(self)
                        }
                    } else {
                        CopyRange { written: (old(self).written + n) as u64, ..*old(self) }
                    })
                    &&& r == final(self).spec_step()
                },
                Err(e) => *final(self) == *old(self) && r == CopyStep::Done(Err(Error::Errno(e))),
            },
            *final(self) == old(self).after(did),
            r == old(self).next(did),
    {
        match did {
            Ok(n) => {
                if n == 0 {
                    return CopyStep::Done(Err(Error::Errno(Errno::EIO)));
                }
                self.written = self.written + n;
                if self.written == self.held {
                    self.total = self.total + self.held;
                    self.held = 0;
                    self.written = 0;
                }
                self.step()
            },
            Err(e) => CopyStep::Done(Err(Error::Errno(e))),
        }
    }

    /// How much of the copy is still to do: what is to be copied, and of that,
    /// what is in the buffer unwritten; and the way it is copied, which changes
    /// at most once.
    pub open spec fn measure(&self) -> nat {
        (2 * (self.len - self.total) - (if self.held > 0 {
            1 + self.written
        } else {
            0
        }) + (if self.buffered {
            0int
        } else {
            1
        })) as nat
    }
}

/// The offset `i` bytes after `off`, as the kernel counts them.
pub open spec fn place(off: u64, i: int) -> int {
    (off + i) % 0x1_0000_0000_0000_0000
}

/// The two files a copy runs between, by the byte at each offset with none
/// past the end, and what its buffer holds.
pub struct Disk {
    pub src: spec_fn(int) -> Option<u8>,
    pub dst: spec_fn(int) -> Option<u8>,
    pub buf: Seq<u8>,
}

/// The offset `p` is one of the `n` from `off` on.
pub open spec fn within(p: int, off: u64, n: int) -> bool {
    exists|i: int| 0 <= i < n && p == #[trigger] place(off, i)
}

/// `bytes` were written from `off` on, and nothing else was.
pub open spec fn written_at(
    before: spec_fn(int) -> Option<u8>,
    after: spec_fn(int) -> Option<u8>,
    off: u64,
    bytes: Seq<u8>,
) -> bool {
    &&& forall|i: int| 0 <= i < bytes.len() ==> after(#[trigger] place(off, i)) == Some(bytes[i])
    &&& forall|p: int|
        !within(p, off, bytes.len() as int) ==> #[trigger] after(p) == before(p)
}

/// `bytes` are what the file holds from `off` on; none only at its end.
pub open spec fn read_at(file: spec_fn(int) -> Option<u8>, off: u64, bytes: Seq<u8>) -> bool {
    &&& forall|i: int| 0 <= i < bytes.len() ==> file(#[trigger] place(off, i)) == Some(bytes[i])
    &&& bytes.len() == 0 ==> file(place(off, 0)) is None
}

/// A call was made and answered with the truth: as many bytes as it says were
/// copied, read or written, at the offsets it named. A call that failed did
/// nothing.
pub open spec fn truthful(step: CopyStep, did: Result<u64, Errno>, before: Disk, after: Disk) -> bool {
    &&& after.src == before.src
    &&& match (step, did) {
        (CopyStep::Kernel { src, dst, want }, Ok(n)) => {
            &&& n <= want
            &&& after.buf == before.buf
            &&& exists|bytes: Seq<u8>| #![auto]
                bytes.len() == n && read_at(before.src, src, bytes) && written_at(
                    before.dst,
                    after.dst,
                    dst,
                    bytes,
                )
        },
        (CopyStep::Fill { src, want }, Ok(n)) => {
            &&& n <= want
            &&& after.dst == before.dst
            &&& after.buf.len() == n
            &&& read_at(before.src, src, after.buf)
        },
        (CopyStep::Drain { dst, from, want }, Ok(n)) => {
            &&& n <= want
            &&& from + n <= before.buf.len()
            &&& after.buf == before.buf
            &&& written_at(
                before.dst,
                after.dst,
                dst,
                before.buf.subrange(from as int, from + n),
            )
        },
        _ => after == before,
    }
}

/// The destination holds the first `n` bytes of the range and is otherwise as
/// it was at the start.
pub open spec fn range_copied(c: CopyRange, start: Disk, now: Disk, n: int) -> bool {
    &&& now.src == start.src
    &&& forall|i: int|
        0 <= i < n ==> {
            let byte = (start.src)(place(c.off_src, i));
            byte is Some && (now.dst)(#[trigger] place(c.off_dst, i)) == byte
        }
    &&& forall|p: int|
        !within(p, c.off_dst, n) ==> #[trigger] (now.dst)(p) == (start.dst)(p)
}

/// What is copied so far is in place, and the buffer holds what comes next.
pub open spec fn faithful(c: CopyRange, start: Disk, now: Disk) -> bool {
    &&& c.wf()
    &&& range_copied(c, start, now, c.total + c.written)
    &&& c.held > 0 ==> {
        &&& now.buf.len() == c.held
        &&& forall|i: int|
            0 <= i < c.held ==> (start.src)(#[trigger] place(c.off_src, c.total + i)) == Some(
                now.buf[i],
            )
    }
}

/// Every call of a copy is made where the copy stands: it reads as far into
/// the source range as it has got, and writes as far into the destination
/// range, asking for no more than is left.
pub proof fn law_copy_calls_are_in_place(c: CopyRange)
    requires
        c.wf(),
    ensures
        match c.spec_step() {
            CopyStep::Kernel { src, dst, want } => {
                &&& src == place(c.off_src, c.total as int)
                &&& dst == place(c.off_dst, c.total as int)
                &&& c.written == 0 && c.held == 0 && !c.buffered
                &&& 0 < want <= c.len - c.total && want <= 0x7fff_f000
                &&& want == c.len - c.total || want == 0x7fff_f000
            },
            CopyStep::Fill { src, want } => {
                &&& src == place(c.off_src, c.total as int)
                &&& c.written == 0 && c.held == 0 && c.buffered
                &&& 0 < want <= c.len - c.total && want <= 0x10_0000
                &&& want == c.len - c.total || want == 0x10_0000
            },
            CopyStep::Drain { dst, from, want } => {
                &&& dst == place(c.off_dst, c.total + c.written)
                &&& from == c.written
                &&& from + want == c.held
                &&& want > 0
            },
            CopyStep::Done(r) => c.total == c.len && r == Ok::<u64, Error>(c.len),
        },
{
}

proof fn lemma_places(off: u64, i: int, j: int)
    requires
        0 <= i,
        0 <= j,
    ensures
        place(place(off, i) as u64, j) == place(off, i + j),
        i < 0x1_0000_0000_0000_0000 && j < 0x1_0000_0000_0000_0000 && place(off, i) == place(
            off,
            j,
        ) ==> i == j,
{
}

#[verifier::rlimit(40)]
proof fn lemma_paste(
    c: CopyRange,
    start: Disk,
    before: Disk,
    after: Disk,
    had: int,
    dst: u64,
    bytes: Seq<u8>,
)
    requires
        range_copied(c, start, before, had),
        0 <= had,
        had + bytes.len() <= c.len,
        dst == place(c.off_dst, had),
        written_at(before.dst, after.dst, dst, bytes),
        after.src == before.src,
        forall|i: int|
            0 <= i < bytes.len() ==> (start.src)(#[trigger] place(c.off_src, had + i)) == Some(
                bytes[i],
            ),
    ensures
        range_copied(c, start, after, had + bytes.len()),
{
    let n = had + bytes.len();
    assert forall|i: int| 0 <= i < n implies {
        let byte = (start.src)(place(c.off_src, i));
        byte is Some && (after.dst)(#[trigger] place(c.off_dst, i)) == byte
    } by {
        let p = place(c.off_dst, i);
        if i < had {
            if within(p, dst, bytes.len() as int) {
                let k = choose|k: int| 0 <= k < bytes.len() && p == #[trigger] place(dst, k);
                lemma_places(c.off_dst, had, k);
                lemma_places(c.off_dst, i, had + k);
                assert(false);
            }
            assert((after.dst)(p) == (before.dst)(p));
        } else {
            let k = i - had;
            lemma_places(c.off_dst, had, k);
            assert(place(dst, k) == p);
            assert((after.dst)(place(dst, k)) == Some(bytes[k]));
            assert((start.src)(place(c.off_src, had + k)) == Some(bytes[k]));
        }
    }
    assert forall|p: int| !within(p, c.off_dst, n) implies #[trigger] (after.dst)(p) == (start.dst)(
        p,
    ) by {
        if within(p, dst, bytes.len() as int) {
            let k = choose|k: int| 0 <= k < bytes.len() && p == #[trigger] place(dst, k);
            lemma_places(c.off_dst, had, k);
            assert(p == place(c.off_dst, had + k));
        }
        if within(p, c.off_dst, had) {
            let k = choose|k: int| 0 <= k < had && p == #[trigger] place(c.off_dst, k);
            assert(p == place(c.off_dst, k));
        }
    }
}

/// A call answered with the truth leaves the copy faithful.
#[verifier::rlimit(40)]
pub proof fn law_copy_stays_faithful(
    c: CopyRange,
    did: Result<u64, Errno>,
    start: Disk,
    before: Disk,
    after: Disk,
)
    requires
        faithful(c, start, before),
        !(c.spec_step() is Done),
        truthful(c.spec_step(), did, before, after),
    ensures
        faithful(c.after(did), start, after),
{
    let next = c.after(did);
    match (c.spec_step(), did) {
        (CopyStep::Kernel { src, dst, want }, Ok(n)) => {
            let bytes = choose|bytes: Seq<u8>| #![auto]
                bytes.len() == n && read_at(before.src, src, bytes) && written_at(
                    before.dst,
                    after.dst,
                    dst,
                    bytes,
                );
            assert forall|i: int| 0 <= i < bytes.len() implies (start.src)(
                #[trigger] place(c.off_src, c.total + i),
            ) == Some(bytes[i]) by {
                lemma_places(c.off_src, c.total as int, i);
                assert((before.src)(place(src, i)) == Some(bytes[i]));
            }
            lemma_paste(c, start, before, after, c.total as int, dst, bytes);
        },
        (CopyStep::Fill { src, want }, Ok(n)) => {
            assert forall|i: int| 0 <= i < n implies (start.src)(
                #[trigger] place(c.off_src, c.total + i),
            ) == Some(after.buf[i]) by {
                lemma_places(c.off_src, c.total as int, i);
                assert((before.src)(place(src, i)) == Some(after.buf[i]));
            }
        },
        (CopyStep::Drain { dst, from, want }, Ok(n)) => {
            let bytes = before.buf.subrange(from as int, from + n);
            let had = c.total + c.written;
            assert forall|i: int| 0 <= i < bytes.len() implies (start.src)(
                #[trigger] place(c.off_src, had + i),
            ) == Some(bytes[i]) by {
                assert(had + i == c.total + (c.written + i));
                assert((start.src)(place(c.off_src, c.total + (c.written + i))) == Some(
                    before.buf[c.written + i],
                ));
            }
            lemma_paste(c, start, before, after, had, dst, bytes);
        },
        _ => {},
    }
}

/// A run of a copy: the states it went through, the answers its calls were
/// given, and the two files as each answer left them.
pub open spec fn copy_run(
    states: Seq<CopyRange>,
    answers: Seq<Result<u64, Errno>>,
    disks: Seq<Disk>,
) -> bool {
    &&& states.len() == answers.len() + 1
    &&& disks.len() == states.len()
    &&& forall|k: int|
        0 <= k < answers.len() ==> {
            &&& !((#[trigger] states[k]).spec_step() is Done)
            &&& truthful(states[k].spec_step(), answers[k], disks[k], disks[k + 1])
            &&& states[k + 1] == states[k].after(answers[k])
        }
}

#[verifier::rlimit(40)]
proof fn lemma_run(
    states: Seq<CopyRange>,
    answers: Seq<Result<u64, Errno>>,
    disks: Seq<Disk>,
    k: nat,
)
    requires
        copy_run(states, answers, disks),
        states[0].wf(),
        states[0].total == 0,
        states[0].held == 0,
        k <= answers.len(),
    ensures
        faithful(states[k as int], disks[0], disks[k as int]),
        states[k as int].off_src == states[0].off_src,
        states[k as int].off_dst == states[0].off_dst,
        states[k as int].len == states[0].len,
    decreases k,
{
    if k > 0 {
        let j = (k - 1) as nat;
        lemma_run(states, answers, disks, j);
        assert(!(states[j as int].spec_step() is Done));
        law_copy_stays_faithful(
            states[j as int],
            answers[j as int],
            disks[0],
            disks[j as int],
            disks[k as int],
        );
    }
}

proof fn lemma_same_window(a: CopyRange, b: CopyRange, start: Disk, now: Disk, n: int)
    requires
        range_copied(a, start, now, n),
        a.off_src == b.off_src,
        a.off_dst == b.off_dst,
    ensures
        range_copied(b, start, now, n),
{
}

/// However a copy goes, over calls that are answered with the truth, the
/// destination range holds the source range as far as the copy has got, and
/// every other byte of the destination is as it was.
#[verifier::rlimit(40)]
pub proof fn law_copy_moves_the_range(
    states: Seq<CopyRange>,
    answers: Seq<Result<u64, Errno>>,
    disks: Seq<Disk>,
)
    requires
        copy_run(states, answers, disks),
        states[0].wf(),
        states[0].total == 0,
        states[0].held == 0,
    ensures
        ({
            let got = states.last().total + states.last().written;
            &&& got <= states[0].len
            &&& range_copied(states[0], disks[0], disks.last(), got)
        }),
{
    lemma_run(states, answers, disks, answers.len());
    let last = states[answers.len() as int];
    assert(last == states.last());
    assert(disks.last() == disks[answers.len() as int]);
    lemma_same_window(last, states[0], disks[0], disks.last(), last.total + last.written);
}

/// A copy that reports a count has copied that many bytes: all that was asked
/// for, or all that the source had. One that reports an error was given it, or
/// could write nothing.
#[verifier::rlimit(40)]
pub proof fn law_copy_reports_the_truth(
    states: Seq<CopyRange>,
    answers: Seq<Result<u64, Errno>>,
    disks: Seq<Disk>,
)
    requires
        copy_run(states, answers, disks),
        states[0].wf(),
        states[0].total == 0,
        states[0].held == 0,
        answers.len() > 0,
    ensures
        ({
            let c = states[0];
            let did = answers.last();
            let last = states[states.len() - 2];
            match last.next(did) {
                CopyStep::Done(Ok(m)) => {
                    &&& range_copied(c, disks[0], disks.last(), m as int)
                    &&& m <= c.len
                    &&& m < c.len ==> (disks[0].src)(place(c.off_src, m as int)) is None
                },
                CopyStep::Done(Err(e)) => {
                    ||| did is Err && e == Error::Errno(did->Err_0)
                    ||| did == Ok::<u64, Errno>(0) && e == Error::Errno(Errno::EIO)
                },
                step => did is Ok || (did == Err::<u64, Errno>(Errno::EXDEV) && last.total == 0),
            }
        }),
{
    let n = answers.len();
    lemma_run(states, answers, disks, n);
    lemma_run(states, answers, disks, (n - 1) as nat);
    let last = states[n - 1];
    assert(!(last.spec_step() is Done));
    let end = states[n as int];
    assert(end == last.after(answers.last()));
    assert(disks[n as int] == disks.last());
    lemma_same_window(end, states[0], disks[0], disks.last(), end.total + end.written);
    match last.spec_step() {
        CopyStep::Kernel { src, dst, want } => {
            lemma_places(last.off_src, last.total as int, 0);
        },
        CopyStep::Fill { src, want } => {
            lemma_places(last.off_src, last.total as int, 0);
        },
        _ => {},
    }
}

/// What a finished copy reports is what was copied, never more than was asked
/// for; and as long as no call fails or finds the end, it reports all of it.
pub proof fn law_copy_reports_what_it_copied(c: CopyRange)
    requires
        c.wf(),
        c.spec_step() is Done,
    ensures
        c.spec_step() == CopyStep::Done(Ok(c.len)),
        c.total == c.len,
{
}

/// A copy ends: whatever its calls do, each that does not end it leaves less
/// to do. `after` is what [`CopyRange::copied`], [`CopyRange::filled`] or
/// [`CopyRange::drained`] leaves of `before` when it goes on.
pub proof fn law_copy_ends(before: CopyRange, after: CopyRange, n: u64)
    requires
        before.wf(),
        after.wf(),
        ({
            ||| before.spec_step() is Kernel && n > 0 && after == (CopyRange {
                total: (before.total + n) as u64,
                ..before
            }) && n <= before.left()
            ||| before.spec_step() is Kernel && after == (CopyRange { buffered: true, ..before })
            ||| before.spec_step() is Fill && n > 0 && after == (CopyRange { held: n, ..before })
            ||| before.spec_step() is Drain && n > 0 && before.written + n < before.held && after
                == (CopyRange { written: (before.written + n) as u64, ..before })
            ||| before.spec_step() is Drain && after == (CopyRange {
                total: (before.total + before.held) as u64,
                held: 0,
                written: 0,
                ..before
            })
        }),
    ensures
        after.measure() < before.measure(),
{
}

/// A kernel that will not copy between two filesystems does not end the copy:
/// where nothing was copied yet, it goes on through the buffer from the same
/// place. Any other failure ends it, and so does that one later on.
pub proof fn law_copy_goes_on_across_filesystems(c: CopyRange, e: Errno)
    requires
        c.wf(),
        !(c.spec_step() is Done),
    ensures
        c.spec_step() is Kernel && c.total == 0 ==> match c.next(Err(Errno::of_code(18))) {
            CopyStep::Fill { src, want } => {
                &&& src == place(c.off_src, 0)
                &&& 0 < want <= c.len
            },
            _ => false,
        },
        c.spec_step() is Kernel && c.total > 0 ==> c.next(Err(Errno::of_code(18)))
            == CopyStep::Done(Err(Error::Errno(Errno::EXDEV))),
        e != Errno::EXDEV || !(c.spec_step() is Kernel) ==> c.next(Err(e)) == CopyStep::Done(
            Err(Error::Errno(e)),
        ),
{
}

/// A copy goes on as long as its calls do something and some of the range is
/// left, and a full buffer is written before more is read.
pub proof fn law_copy_goes_on_while_it_gets_on(c: CopyRange, n: u64)
    requires
        c.wf(),
        n > 0,
        match c.spec_step() {
            CopyStep::Kernel { want, .. } => n <= want,
            CopyStep::Fill { want, .. } => n <= want,
            CopyStep::Drain { want, .. } => n <= want,
            CopyStep::Done(_) => false,
        },
    ensures
        c.spec_step() is Fill ==> c.next(Ok(n)) is Drain,
        c.spec_step() is Kernel && c.total + n < c.len ==> c.next(Ok(n)) is Kernel,
        c.spec_step() is Drain && c.written + n < c.held ==> c.next(Ok(n)) is Drain,
        c.spec_step() is Drain && c.written + n == c.held && c.total + c.held < c.len ==> c.next(
            Ok(n),
        ) is Fill,
        !(c.spec_step() is Fill) && c.total + c.written + n == c.len ==> c.next(Ok(n))
            == CopyStep::Done(Ok(c.len)),
{
}

} // verus!
