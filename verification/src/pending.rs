//! What a submitted operation's reply came to: its outcome, or nothing where
//! the loop stopped first.
use crate::errno::{Errno, Error};
use crate::file::{File, Statx};
use crate::table::FsOutcome;
use vstd::prelude::*;

verus! {

/// A submitted operation whose reply has been waited for.
pub struct FsPending<T> {
    /// The outcome; `None` where the loop was shut down before it came.
    pub outcome: Option<FsOutcome<T>>,
}

/// The byte count or errno of an outcome, as a caller sees it.
pub open spec fn counted(res: Result<i32, Errno>) -> Result<usize, Error> {
    match res {
        Ok(n) => Ok(n as usize),
        Err(e) => Err(Error::Errno(e)),
    }
}

impl<T> FsPending<T> {
    /// An operation that completed with `out`.
    pub fn resolved(out: FsOutcome<T>) -> (r: FsPending<T>)
        ensures
            r.outcome == Some(out),
    {
        FsPending { outcome: Some(out) }
    }

    /// An operation whose loop stopped before it completed.
    pub fn gone() -> (r: FsPending<T>)
        ensures
            r.outcome is None,
    {
        FsPending { outcome: None }
    }

    /// The byte count and the buffers, handed back.
    pub fn wait(self) -> (r: (Result<usize, Error>, Vec<Vec<u8>>))
        ensures
            match self.outcome {
                Some(out) => r.0 == counted(out.res) && r.1 == out.bufs,
                None => r.0 == Err::<usize, Error>(Error::Errno(Errno::ECONNABORTED))
                    && r.1@.len() == 0,
            },
    {
        match self.outcome {
            Some(out) => (
                match out.res {
                    Ok(n) => Ok(
                        #[verifier::truncate]
                        (n as usize),
                    ),
                    Err(e) => Err(Error::Errno(e)),
                },
                out.bufs,
            ),
            None => (Err(Error::Errno(Errno::ECONNABORTED)), Vec::new()),
        }
    }

    /// The whole outcome.
    pub fn into_outcome(self) -> (r: Result<FsOutcome<T>, Error>)
        ensures
            match self.outcome {
                Some(out) => r == Ok::<FsOutcome<T>, Error>(out),
                None => r is Err && r->Err_0 == Error::Errno(Errno::ECONNABORTED),
            },
    {
        match self.outcome {
            Some(out) => Ok(out),
            None => Err(Error::Errno(Errno::ECONNABORTED)),
        }
    }

    /// The file an open made.
    pub fn wait_file(self) -> (r: Result<File<T>, Error>)
        ensures
            match self.outcome {
                None => r is Err && r->Err_0 == Error::Errno(Errno::ECONNABORTED),
                Some(out) => match (out.res, out.file) {
                    (Ok(_), Some(f)) => r == Ok::<File<T>, Error>(f),
                    (Err(e), _) => r is Err && r->Err_0 == Error::Errno(e),
                    (Ok(_), None) => r is Err && r->Err_0 == Error::Errno(Errno::EIO),
                },
            },
    {
        let out = match self.into_outcome() {
            Ok(out) => out,
            Err(e) => {
                return Err(e);
            },
        };
        match out.res {
            Err(e) => Err(Error::Errno(e)),
            Ok(_) => match out.file {
                Some(f) => Ok(f),
                None => Err(Error::Errno(Errno::EIO)),
            },
        }
    }

    /// The metadata a `statx` read.
    pub fn wait_statx(self) -> (r: Result<Statx, Error>)
        ensures
            match self.outcome {
                None => r is Err && r->Err_0 == Error::Errno(Errno::ECONNABORTED),
                Some(out) => match (out.res, out.stat) {
                    (Ok(_), Some(st)) => r == Ok::<Statx, Error>(st),
                    (Err(e), _) => r is Err && r->Err_0 == Error::Errno(e),
                    (Ok(_), None) => r is Err && r->Err_0 == Error::Errno(Errno::EIO),
                },
            },
    {
        let out = match self.into_outcome() {
            Ok(out) => out,
            Err(e) => {
                return Err(e);
            },
        };
        match out.res {
            Err(e) => Err(Error::Errno(e)),
            Ok(_) => match out.stat {
                Some(st) => Ok(st),
                None => Err(Error::Errno(Errno::EIO)),
            },
        }
    }

    /// The byte count and the one buffer of a single-buffer operation: the
    /// last that came back, or an empty one.
    pub fn wait_buf(self) -> (r: (Result<usize, Error>, Vec<u8>))
        ensures
            match self.outcome {
                Some(out) => {
                    &&& r.0 == counted(out.res)
                    &&& r.1@ == (if out.bufs@.len() > 0 {
                        out.bufs@.last()@
                    } else {
                        Seq::empty()
                    })
                },
                None => r.0 == Err::<usize, Error>(Error::Errno(Errno::ECONNABORTED))
                    && r.1@.len() == 0,
            },
    {
        let (res, mut bufs) = self.wait();
        match bufs.pop() {
            Some(b) => (res, b),
            None => (res, Vec::new()),
        }
    }

    /// Whether an operation that gives nothing back succeeded.
    pub fn wait_unit(self) -> (r: Result<(), Error>)
        ensures
            match self.outcome {
                Some(out) => match out.res {
                    Ok(_) => r is Ok,
                    Err(e) => r == Err::<(), Error>(Error::Errno(e)),
                },
                None => r == Err::<(), Error>(Error::Errno(Errno::ECONNABORTED)),
            },
    {
        match self.into_outcome() {
            Ok(out) => match out.res {
                Ok(_) => Ok(()),
                Err(e) => Err(Error::Errno(e)),
            },
            Err(e) => Err(e),
        }
    }

    /// The count an operation gives back.
    pub fn wait_count(self) -> (r: Result<u64, Error>)
        ensures
            match self.outcome {
                Some(out) => match out.res {
                    Ok(n) => r == Ok::<u64, Error>(n as u64),
                    Err(e) => r == Err::<u64, Error>(Error::Errno(e)),
                },
                None => r == Err::<u64, Error>(Error::Errno(Errno::ECONNABORTED)),
            },
    {
        match self.into_outcome() {
            Ok(out) => match out.res {
                Ok(n) => Ok(
                    #[verifier::truncate]
                    (n as u64),
                ),
                Err(e) => Err(Error::Errno(e)),
            },
            Err(e) => Err(e),
        }
    }

    /// The metadata of a `statx`, where it succeeded.
    pub fn statx(self) -> (r: Option<Statx>)
        ensures
            r == match self.outcome {
                Some(out) => if out.res is Ok {
                    out.stat
                } else {
                    None
                },
                None => None,
            },
    {
        match self.outcome {
            Some(out) => match out.res {
                Ok(_) => out.stat,
                Err(_) => None,
            },
            None => None,
        }
    }

    /// The file of an open, where it succeeded.
    pub fn file(self) -> (r: Option<File<T>>)
        ensures
            r == match self.outcome {
                Some(out) => if out.res is Ok {
                    out.file
                } else {
                    None
                },
                None => None,
            },
    {
        match self.outcome {
            Some(out) => match out.res {
                Ok(_) => out.file,
                Err(_) => None,
            },
            None => None,
        }
    }
}

/// What an entry's `statx`, if one was issued, says: the metadata and, kept
/// apart, the errno.
pub open spec fn statx_parts<T>(p: Option<FsPending<T>>) -> (Option<Statx>, Option<Errno>) {
    match p {
        None => (None, None),
        Some(p) => match p.outcome {
            None => (None, Some(Errno::ECONNABORTED)),
            Some(out) => match out.res {
                Ok(_) => (out.stat, None),
                Err(e) => (None, Some(e)),
            },
        },
    }
}

/// Take an entry's `statx` apart. Neither part means that none was issued.
pub fn split_statx<T>(p: Option<FsPending<T>>) -> (r: (Option<Statx>, Option<Errno>))
    ensures
        r == statx_parts(p),
{
    match p {
        None => (None, None),
        Some(p) => match p.outcome {
            None => (None, Some(Errno::ECONNABORTED)),
            Some(out) => match out.res {
                Ok(_) => (out.stat, None),
                Err(e) => (None, Some(e)),
            },
        },
    }
}

/// What a caller is given of a reply: the count the kernel gave, or its error.
pub proof fn law_count_is_the_kernels(res: Result<i32, Errno>)
    requires
        res is Ok ==> res->Ok_0 >= 0,
    ensures
        match (res, counted(res)) {
            (Ok(n), Ok(c)) => c == n,
            (Err(e), Err(Error::Errno(f))) => e == f,
            _ => false,
        },
{
}

/// What an entry's `statx` says, of the two parts never both: its metadata
/// where it succeeded, its error where it failed or its loop is gone, and
/// nothing where none was issued.
pub proof fn law_statx_gives_metadata_or_its_error<T>(p: Option<FsPending<T>>)
    ensures
        statx_parts(p).0 is None || statx_parts(p).1 is None,
        p is None ==> statx_parts(p) == (None::<Statx>, None::<Errno>),
        p is Some && p->0.outcome is None ==> statx_parts(p).1 is Some
            && statx_parts(p).1->0.code() == 103,
        p is Some && p->0.outcome is Some && p->0.outcome->0.res is Ok ==> statx_parts(p).0
            == p->0.outcome->0.stat && statx_parts(p).1 is None,
        p is Some && p->0.outcome is Some && p->0.outcome->0.res is Err ==> statx_parts(p).0 is None
            && statx_parts(p).1 == Some(p->0.outcome->0.res->Err_0),
{
}

} // verus!
