//! A directory read off the loop, one batch at a time. The stream is with the
//! walk or with the one worker reading a batch, never both, and is let go of
//! exactly once. `H` is the stream.
use crate::errno::{Errno, Error};
use crate::names;
use crate::names::{is_dot, is_dot_dot};
use crate::policy::RawOpenHow;
use crate::sys::O_DIRECTORY;
use vstd::prelude::*;

verus! {

/// Names per batch.
pub const DIR_BATCH: usize = 256;

/// One batch of raw entry names.
#[derive(Debug)]
pub struct NameBatch {
    /// Entry names; `.` and `..` are skipped.
    pub names: Vec<Vec<u8>>,
    /// The directory has been read to the end.
    pub eod: bool,
}

/// What one read of the stream gave.
pub enum ReadDir {
    /// An entry's name.
    Entry(Vec<u8>),
    /// No entry, with the error number the read left: 0 is the end of the
    /// directory, anything else a failed read.
    End(i32),
}

/// The batch a stream's reads come to so far.
pub struct BatchReader {
    pub names: Vec<Vec<u8>>,
    pub eod: bool,
    pub err: Option<Errno>,
    /// Every entry read.
    pub read: Ghost<Seq<Vec<u8>>>,
}

/// The names of a batch: every entry but `.` and `..`, in the order read.
pub open spec fn kept(entries: Seq<Vec<u8>>) -> Seq<Vec<u8>> {
    entries.filter(|n: Vec<u8>| n@ != names::dot() && n@ != names::dot_dot())
}

impl BatchReader {
    /// The batch's names are those of the entries read, and no more than a
    /// batch has; an error and the end exclude each other.
    pub open spec fn wf(&self) -> bool {
        &&& self.names@ == kept(self.read@)
        &&& self.names@.len() <= DIR_BATCH
        &&& !(self.eod && self.err is Some)
    }

    pub fn new() -> (r: BatchReader)
        ensures
            r.wf(),
            r.names@ == Seq::<Vec<u8>>::empty(),
            !r.eod,
            r.err is None,
            r.read@ == Seq::<Vec<u8>>::empty(),
    {
        let r = BatchReader {
            names: Vec::new(),
            eod: false,
            err: None,
            read: Ghost(Seq::empty()),
        };
        proof {
            reveal(Seq::filter);
            assert(r.names@ =~= kept(r.read@));
        }
        r
    }

    /// Whether the batch takes another read: it is not full, and nothing has
    /// ended it.
    pub open spec fn spec_wants_more(&self) -> bool {
        self.names@.len() < DIR_BATCH && !self.eod && self.err is None
    }

    pub fn wants_more(&self) -> (r: bool)
        ensures
            r == self.spec_wants_more(),
    {
        self.names.len() < DIR_BATCH && !self.eod && self.err.is_none()
    }

    /// Take one read of the stream.
    pub fn offer(&mut self, read: ReadDir)
        requires
            old(self).wf(),
            old(self).spec_wants_more(),
        ensures
            final(self).wf(),
            match read {
                ReadDir::Entry(name) => {
                    &&& final(self).read@ == old(self).read@.push(name)
                    &&& final(self).names@ == old(self).names@ + kept(seq![name])
                    &&& !final(self).eod
                    &&& final(self).err is None
                },
                ReadDir::End(errno) => {
                    &&& final(self).read@ == old(self).read@
                    &&& final(self).names@ == old(self).names@
                    &&& final(self).eod == (errno == 0)
                    &&& final(self).err == (if errno == 0 {
                        None
                    } else {
                        Some(Errno::of_code(errno))
                    })
                },
            },
    {
        match read {
            ReadDir::Entry(name) => {
                proof {
                    let keep = |n: Vec<u8>| n@ != names::dot() && n@ != names::dot_dot();
                    reveal(Seq::filter);
                    assert(seq![name].drop_last() =~= Seq::<Vec<u8>>::empty());
                    assert(Seq::<Vec<u8>>::empty().filter(keep) =~= Seq::<Vec<u8>>::empty());
                    if keep(name) {
                        assert(kept(seq![name]) =~= seq![name]);
                    } else {
                        assert(kept(seq![name]) =~= Seq::<Vec<u8>>::empty());
                    }
                    lemma_kept_together(self.read@, seq![name]);
                    assert(self.read@.push(name) =~= self.read@ + seq![name]);
                }
                self.read = Ghost(self.read@.push(name));
                if is_dot(name.as_slice()) || is_dot_dot(name.as_slice()) {
                    assert(self.names@ =~= old(self).names@ + kept(seq![name]));
                    return;
                }
                let ghost kept_now = kept(seq![name]);
                self.names.push(name);
                assert(self.names@ =~= old(self).names@ + kept_now);
            },
            ReadDir::End(errno) => {
                if errno == 0 {
                    self.eod = true;
                } else {
                    self.err = Some(Errno::from_raw(errno));
                }
            },
        }
    }

    /// The batch, or the error that ended it: names already read are dropped
    /// with it, since the stream cannot go back for them.
    pub fn finish(self) -> (r: Result<NameBatch, Error>)
        ensures
            match self.err {
                Some(e) => r is Err && r->Err_0 == Error::Errno(e),
                None => r is Ok && r->Ok_0.names == self.names && r->Ok_0.eod == self.eod,
            },
    {
        match self.err {
            Some(e) => Err(Error::Errno(e)),
            None => Ok(NameBatch { names: self.names, eod: self.eod }),
        }
    }
}

proof fn lemma_kept_together(a: Seq<Vec<u8>>, b: Seq<Vec<u8>>)
    ensures
        kept(a + b) == kept(a) + kept(b),
{
    Seq::filter_distributes_over_add(
        a,
        b,
        |n: Vec<u8>| n@ != names::dot() && n@ != names::dot_dot(),
    );
}

/// Every entry read in a row of batches.
pub open spec fn all_read(batches: Seq<BatchReader>) -> Seq<Vec<u8>>
    decreases batches.len(),
{
    if batches.len() == 0 {
        Seq::empty()
    } else {
        all_read(batches.drop_last()) + batches.last().read@
    }
}

/// The names of a row of batches, one after the other.
pub open spec fn all_names(batches: Seq<BatchReader>) -> Seq<Vec<u8>>
    decreases batches.len(),
{
    if batches.len() == 0 {
        Seq::empty()
    } else {
        all_names(batches.drop_last()) + batches.last().names@
    }
}

/// The batches make the directory: together they hold every entry that was read
/// but `.` and `..`, in the order read, each once; and a batch that takes no
/// more, with the directory not at its end and no failure, is full.
pub proof fn law_batches_hold_what_was_read(batches: Seq<BatchReader>)
    requires
        forall|i: int| 0 <= i < batches.len() ==> (#[trigger] batches[i]).wf(),
    ensures
        all_names(batches) == kept(all_read(batches)),
        forall|i: int|
            0 <= i < batches.len() && !(#[trigger] batches[i]).spec_wants_more() && !batches[i].eod
                && batches[i].err is None ==> batches[i].names@.len() == DIR_BATCH,
    decreases batches.len(),
{
    if batches.len() > 0 {
        let less = batches.drop_last();
        assert forall|i: int| 0 <= i < less.len() implies (#[trigger] less[i]).wf() by {
            assert(less[i] == batches[i]);
        }
        law_batches_hold_what_was_read(less);
        assert(batches[batches.len() - 1].wf());
        lemma_kept_together(all_read(less), batches.last().read@);
    } else {
        reveal(Seq::filter);
        assert(all_names(batches) =~= kept(all_read(batches)));
    }
}

/// A directory being walked.
pub struct DirWalk<H> {
    /// The stream, while no worker reads from it.
    pub dp: Option<H>,
    /// A worker holds the stream.
    pub in_flight: bool,
    /// The walk was let go of; the batch in flight closes the stream.
    pub dropped: bool,
}

/// What a finished batch leaves to do.
pub enum Delivered<H> {
    /// Tell the caller.
    Tell(Result<NameBatch, Error>),
    /// The caller is gone: close the stream, if the worker brought it back.
    Discard(Option<H>),
}

impl<H> DirWalk<H> {
    /// The stream is in one place at most; a walk let go of holds none.
    pub open spec fn wf(&self) -> bool {
        &&& self.in_flight ==> self.dp is None
        &&& self.dropped && !self.in_flight ==> self.dp is None
    }

    pub fn new(dp: H) -> (r: DirWalk<H>)
        ensures
            r.wf(),
            r.dp == Some(dp),
            !r.in_flight,
            !r.dropped,
    {
        DirWalk { dp: Some(dp), in_flight: false, dropped: false }
    }

    /// Hand the stream to a worker for the next batch; `EBUSY` while one is
    /// being read, or once the stream is gone.
    pub fn next_batch(&mut self) -> (r: Result<H, Error>)
        requires
            old(self).wf(),
            !old(self).dropped,
        ensures
            final(self).wf(),
            match r {
                Ok(h) => {
                    &&& !old(self).in_flight
                    &&& old(self).dp == Some(h)
                    &&& *final(self) == (DirWalk { dp: None, in_flight: true, ..*old(self) })
                },
                Err(e) => {
                    &&& old(self).in_flight || old(self).dp is None
                    &&& e == Error::Errno(Errno::EBUSY)
                    &&& *final(self) == *old(self)
                },
            },
    {
        if self.in_flight {
            return Err(Error::Errno(Errno::EBUSY));
        }
        match self.dp.take() {
            Some(h) => {
                self.in_flight = true;
                Ok(h)
            },
            None => Err(Error::Errno(Errno::EBUSY)),
        }
    }

    /// A batch came back. `ran` is what the job gave and the stream, or
    /// nothing where the job panicked: its unwinding closed the stream, so the
    /// walk reads as finished rather than busy for ever.
    pub fn deliver(&mut self, ran: Result<(Result<NameBatch, Error>, H), ()>) -> (r: Delivered<H>)
        requires
            old(self).wf(),
            old(self).in_flight,
        ensures
            final(self).wf(),
            final(self).dropped == old(self).dropped,
            !final(self).in_flight,
            ({
                let stream = match ran {
                    Ok((_, h)) => Some(h),
                    Err(_) => None,
                };
                if old(self).dropped {
                    r == Delivered::Discard(stream) && final(self).dp is None
                } else {
                    &&& final(self).dp == stream
                    &&& match ran {
                        Ok((batch, _)) => r == Delivered::<H>::Tell(batch),
                        Err(_) => r is Tell && r->Tell_0 is Err && r->Tell_0->Err_0
                            == Error::Errno(Errno::EIO),
                    }
                }
            }),
    {
        self.in_flight = false;
        let (batch, stream): (Result<NameBatch, Error>, Option<H>) = match ran {
            Ok((batch, h)) => (batch, Some(h)),
            Err(_) => (Err(Error::Errno(Errno::EIO)), None),
        };
        if self.dropped {
            return Delivered::Discard(stream);
        }
        self.dp = stream;
        Delivered::Tell(batch)
    }

    /// Let go of the walk: the stream to close now, or none where a batch in
    /// flight will close it when it comes back.
    pub fn release(&mut self) -> (r: Option<H>)
        requires
            old(self).wf(),
        ensures
            final(self).wf(),
            final(self).dropped,
            final(self).dp is None,
            final(self).in_flight == old(self).in_flight,
            r == old(self).dp,
    {
        self.dropped = true;
        self.dp.take()
    }
}

/// The stream has one holder: while a worker reads from it the walk does not
/// hold it, and a walk that was let go of holds none, so whoever lets go of it
/// next is the only one to close it.
pub proof fn law_stream_has_one_holder<H>(walk: DirWalk<H>)
    requires
        walk.wf(),
    ensures
        !(walk.dp is Some && walk.in_flight),
        !(walk.dp is Some && walk.dropped),
{
}

/// How a directory is opened to be listed: readable, and a directory, the
/// anchor itself.
pub fn list_how() -> (r: RawOpenHow)
    ensures
        r == (RawOpenHow { flags: O_DIRECTORY, mode: 0, resolve: 0 }),
        r == (RawOpenHow { flags: 0x1_0000, mode: 0, resolve: 0 }),
{
    RawOpenHow { flags: O_DIRECTORY, mode: 0, resolve: 0 }
}

/// What a failed open of the directory is told as: its errno, or `EIO` where
/// it failed with none.
pub fn open_dir_error(result: Result<i32, Errno>) -> (r: Error)
    ensures
        r == Error::Errno(
            match result {
                Ok(_) => Errno::EIO,
                Err(e) => e,
            },
        ),
{
    match result {
        Ok(_) => Error::Errno(Errno::EIO),
        Err(e) => Error::Errno(e),
    }
}

/// Of the entries read, a batch passes over those named `.` and `..` and no
/// others, and keeps the rest in the order read.
pub proof fn law_batch_keeps_all_but_the_dots(entries: Seq<Vec<u8>>, n: Vec<u8>)
    ensures
        kept(Seq::empty()) == Seq::<Vec<u8>>::empty(),
        n@ == seq![0x2eu8] || n@ == seq![0x2eu8, 0x2eu8] ==> kept(entries.push(n)) == kept(entries),
        n@ != seq![0x2eu8] && n@ != seq![0x2eu8, 0x2eu8] ==> kept(entries.push(n)) == kept(
            entries,
        ).push(n),
{
    reveal(Seq::filter);
    assert(entries.push(n).drop_last() =~= entries);
    assert(entries.push(n).last() == n);
    assert(kept(Seq::empty()) =~= Seq::<Vec<u8>>::empty());
}

/// A batch goes on until it has its full count of names, the directory ends or
/// a read fails, whichever is first.
pub proof fn law_batch_goes_on_until_full(b: BatchReader)
    requires
        b.wf(),
    ensures
        b.names@.len() <= 256,
        b.spec_wants_more() <==> b.names@.len() < 256 && !b.eod && b.err is None,
{
}

} // verus!
