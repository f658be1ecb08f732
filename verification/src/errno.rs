//! Error numbers and the library's error type.
use vstd::prelude::*;

verus! {

/// A Linux error number: the codes this library produces or decides on by
/// name, and every other code as it was reported.
#[derive(Clone, Copy, Debug, PartialEq, Eq, Structural)]
pub enum Errno {
    EPERM,
    ENOENT,
    EINTR,
    EIO,
    ENXIO,
    E2BIG,
    EBADF,
    EACCES,
    EBUSY,
    EEXIST,
    EXDEV,
    ENOTDIR,
    EINVAL,
    ERANGE,
    ENODATA,
    ETIME,
    EOPNOTSUPP,
    ECONNABORTED,
    ECANCELED,
    /// A code with no name above.
    Other(i32),
}

impl Errno {
    /// The error a raw code denotes.
    pub open spec fn of_code(code: i32) -> Errno {
        match code {
            1 => Errno::EPERM,
            2 => Errno::ENOENT,
            4 => Errno::EINTR,
            5 => Errno::EIO,
            6 => Errno::ENXIO,
            7 => Errno::E2BIG,
            9 => Errno::EBADF,
            13 => Errno::EACCES,
            16 => Errno::EBUSY,
            17 => Errno::EEXIST,
            18 => Errno::EXDEV,
            20 => Errno::ENOTDIR,
            22 => Errno::EINVAL,
            34 => Errno::ERANGE,
            61 => Errno::ENODATA,
            62 => Errno::ETIME,
            95 => Errno::EOPNOTSUPP,
            103 => Errno::ECONNABORTED,
            125 => Errno::ECANCELED,
            _ => Errno::Other(code),
        }
    }

    /// The raw code of an error.
    pub open spec fn code(self) -> i32 {
        match self {
            Errno::EPERM => 1,
            Errno::ENOENT => 2,
            Errno::EINTR => 4,
            Errno::EIO => 5,
            Errno::ENXIO => 6,
            Errno::E2BIG => 7,
            Errno::EBADF => 9,
            Errno::EACCES => 13,
            Errno::EBUSY => 16,
            Errno::EEXIST => 17,
            Errno::EXDEV => 18,
            Errno::ENOTDIR => 20,
            Errno::EINVAL => 22,
            Errno::ERANGE => 34,
            Errno::ENODATA => 61,
            Errno::ETIME => 62,
            Errno::EOPNOTSUPP => 95,
            Errno::ECONNABORTED => 103,
            Errno::ECANCELED => 125,
            Errno::Other(code) => code,
        }
    }

    /// Decode a raw error code.
    pub fn from_raw(code: i32) -> (r: Errno)
        ensures
            r == Errno::of_code(code),
    {
        match code {
            1 => Errno::EPERM,
            2 => Errno::ENOENT,
            4 => Errno::EINTR,
            5 => Errno::EIO,
            6 => Errno::ENXIO,
            7 => Errno::E2BIG,
            9 => Errno::EBADF,
            13 => Errno::EACCES,
            16 => Errno::EBUSY,
            17 => Errno::EEXIST,
            18 => Errno::EXDEV,
            20 => Errno::ENOTDIR,
            22 => Errno::EINVAL,
            34 => Errno::ERANGE,
            61 => Errno::ENODATA,
            62 => Errno::ETIME,
            95 => Errno::EOPNOTSUPP,
            103 => Errno::ECONNABORTED,
            125 => Errno::ECANCELED,
            _ => Errno::Other(code),
        }
    }

    /// The raw code, as the kernel reports it (positive).
    pub fn raw(self) -> (r: i32)
        ensures
            r == self.code(),
    {
        match self {
            Errno::EPERM => 1,
            Errno::ENOENT => 2,
            Errno::EINTR => 4,
            Errno::EIO => 5,
            Errno::ENXIO => 6,
            Errno::E2BIG => 7,
            Errno::EBADF => 9,
            Errno::EACCES => 13,
            Errno::EBUSY => 16,
            Errno::EEXIST => 17,
            Errno::EXDEV => 18,
            Errno::ENOTDIR => 20,
            Errno::EINVAL => 22,
            Errno::ERANGE => 34,
            Errno::ENODATA => 61,
            Errno::ETIME => 62,
            Errno::EOPNOTSUPP => 95,
            Errno::ECONNABORTED => 103,
            Errno::ECANCELED => 125,
            Errno::Other(code) => code,
        }
    }
}

/// Decoding a code and reading it back gives the code.
pub proof fn law_errno_round_trip(code: i32)
    ensures
        Errno::of_code(code).code() == code,
{
}

/// What a call of this library fails with.
#[derive(Debug)]
pub enum Error {
    /// An operation failed with this error number.
    Errno(Errno),
    /// The arguments were refused; the text says why.
    Validation(String),
    /// A walk could not be brought back to where its cursor points: the
    /// depth that could not be reached, and the path of the directory it would
    /// have been, as text.
    IteratorRestore { depth: usize, path: String },
}

/// The numbers of the errors this library decides by, as the kernel has them.
pub proof fn law_errors_have_the_kernels_numbers()
    ensures
        Errno::EPERM.code() == 1,
        Errno::ENOENT.code() == 2,
        Errno::EINTR.code() == 4,
        Errno::EIO.code() == 5,
        Errno::ENXIO.code() == 6,
        Errno::E2BIG.code() == 7,
        Errno::EBADF.code() == 9,
        Errno::EACCES.code() == 13,
        Errno::EBUSY.code() == 16,
        Errno::EEXIST.code() == 17,
        Errno::EXDEV.code() == 18,
        Errno::ENOTDIR.code() == 20,
        Errno::EINVAL.code() == 22,
        Errno::ERANGE.code() == 34,
        Errno::ENODATA.code() == 61,
        Errno::ETIME.code() == 62,
        Errno::EOPNOTSUPP.code() == 95,
        Errno::ECONNABORTED.code() == 103,
        Errno::ECANCELED.code() == 125,
        forall|code: i32| (#[trigger] Errno::of_code(code)).code() == code,
{
}

} // verus!
