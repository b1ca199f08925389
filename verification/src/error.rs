//! Error kinds shared by the whole block pipeline.

use vstd::prelude::*;

verus! {

/// The mathematical shadow of an [`Error`]: the same four kinds, with the
/// message as a character sequence, so that contracts can compare errors
/// structurally.
pub enum ErrorModel {
    /// Shadow of [`Error::Io`].
    Io(Seq<char>),
    /// Shadow of [`Error::Invalid`].
    Invalid(Seq<char>),
    /// Shadow of [`Error::NotSupported`].
    NotSupported(Seq<char>),
    /// Shadow of [`Error::Aborted`].
    Aborted,
}

/// What went wrong while reading or writing a file.
#[derive(Clone, Copy, Debug, PartialEq, Eq)]
pub enum Error {
    /// The byte source or sink failed, for example by ending too early.
    Io(&'static str),
    /// The file breaks a structural rule of the format.
    Invalid(&'static str),
    /// The file uses a feature that this library does not implement.
    NotSupported(&'static str),
    /// Reserved for caller-driven termination; this library never produces it.
    Aborted,
}

impl Error {
    /// The mathematical shadow of this error.
    pub open spec fn model(self) -> ErrorModel {
        match self {
            Error::Io(m) => ErrorModel::Io(m@),
            Error::Invalid(m) => ErrorModel::Invalid(m@),
            Error::NotSupported(m) => ErrorModel::NotSupported(m@),
            Error::Aborted => ErrorModel::Aborted,
        }
    }

    /// True when this is the `Invalid` kind carrying exactly `msg`.
    pub open spec fn is_invalid_with(self, msg: Seq<char>) -> bool {
        &&& self matches Error::Invalid(m)
        &&& m@ == msg
    }

    /// True when this is the `NotSupported` kind carrying exactly `msg`.
    pub open spec fn is_not_supported_with(self, msg: Seq<char>) -> bool {
        &&& self matches Error::NotSupported(m)
        &&& m@ == msg
    }

    /// The message text, for reporting; the empty string for `Aborted`.
    pub fn message(&self) -> (r: &'static str)
        ensures
            self matches Error::Io(m) ==> r == m,
            self matches Error::Invalid(m) ==> r == m,
            self matches Error::NotSupported(m) ==> r == m,
    {
        match self {
            Error::Io(m) => m,
            Error::Invalid(m) => m,
            Error::NotSupported(m) => m,
            Error::Aborted => "",
        }
    }
}

} // verus!
