//! The error type: callers can tell a malformed record from a bad RINEX file
//! from a conversion failure.

use vstd::prelude::*;

verus! {

/// An error from reading, writing, or converting observations.
#[derive(Debug)]
pub enum Error {
    /// A malformed obsj record or field.
    Obsj(String),
    /// A malformed RINEX file, or one that could not be written.
    Rinex(String),
    /// An RTCM stream that could not be converted (e.g. week resolution).
    Rtcm(String),
    /// A UBX stream that could not be converted.
    Ubx(String),
    /// An invalid decimation interval.
    Interval(String),
    /// An underlying input or output error.
    Io(String),
}

impl Error {
    /// The message of the error.
    pub open spec fn message(self) -> Seq<char> {
        match self {
            Error::Obsj(m) => m@,
            Error::Rinex(m) => m@,
            Error::Rtcm(m) => m@,
            Error::Ubx(m) => m@,
            Error::Interval(m) => m@,
            Error::Io(m) => m@,
        }
    }

    /// The message of the error.
    pub fn to_string(&self) -> (r: String)
        ensures
            r@ == self.message(),
    {
        match self {
            Error::Obsj(m) => m.clone(),
            Error::Rinex(m) => m.clone(),
            Error::Rtcm(m) => m.clone(),
            Error::Ubx(m) => m.clone(),
            Error::Interval(m) => m.clone(),
            Error::Io(m) => m.clone(),
        }
    }
}

/// A `Result` with the crate [`Error`].
pub type Result<T> = std::result::Result<T, Error>;

} // verus!
