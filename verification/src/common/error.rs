//! Errors of the engine.

use std::array::TryFromSliceError;
use std::num::{ParseIntError, TryFromIntError};

use vstd::prelude::*;
use vstd::string::*;

verus! {

/// `std::io::Error`, carried through unread.
#[verifier::external_type_specification]
#[verifier::external_body]
pub struct ExIoError(std::io::Error);

/// `std::num::ParseIntError`, carried through unread.
#[verifier::external_type_specification]
#[verifier::external_body]
pub struct ExParseIntError(std::num::ParseIntError);

/// `std::array::TryFromSliceError`, carried through unread.
#[verifier::external_type_specification]
#[verifier::external_body]
pub struct ExTryFromSliceError(std::array::TryFromSliceError);

/// Errors returned by the engine.
///
/// - Caller mistakes: [`InvalidInt`](Self::InvalidInt),
///   [`InvalidValue`](Self::InvalidValue). Retrying does not help.
/// - Environment and storage problems: [`IO`](Self::IO),
///   [`InvalidState`](Self::InvalidState).
/// - Concurrency: [`CommitConflict`](Self::CommitConflict). Safe to retry.
#[derive(Debug)]
pub enum DbError {
    /// A number does not fit where it has to be stored.
    InvalidInt(String),
    /// An input or output operation failed.
    IO(std::io::Error),
    /// The input was well-formed but rejected.
    InvalidValue(String),
    /// Stored data or internal state is inconsistent, for example truncated.
    InvalidState(String),
    /// Another transaction modified the same data first. Nothing was written.
    CommitConflict,
}

/// Why reading stored data fails.
pub enum Fault {
    /// The data ends too early.
    Eof,
    /// The data is inconsistent, for this reason.
    State(Seq<char>),
}

/// Result of the engine's operations.
pub type DbResult<T> = Result<T, DbError>;

impl DbError {
    /// Whether this is [`DbError::InvalidState`] with the text `msg`.
    pub open spec fn is_state(self, msg: Seq<char>) -> bool {
        self matches DbError::InvalidState(s) && s@ == msg
    }

    /// Whether this is [`DbError::InvalidValue`] with the text `msg`.
    pub open spec fn is_value(self, msg: Seq<char>) -> bool {
        self matches DbError::InvalidValue(s) && s@ == msg
    }

    /// Whether this error reports the fault `f`.
    pub open spec fn reports(self, f: Fault) -> bool {
        match f {
            Fault::Eof => self is IO,
            Fault::State(msg) => self.is_state(msg),
        }
    }

    /// [`DbError::InvalidState`] with this text.
    pub fn invalid_state(msg: &str) -> (r: Self)
        ensures
            r.is_state(msg@),
    {
        Self::InvalidState(msg.to_owned())
    }

    /// The error as a text for people.
    pub fn show(&self) -> (s: String)
        ensures
            self matches DbError::InvalidInt(m) ==> s@ == "invalid integer: "@ + m@,
            self matches DbError::IO(e) ==> exists|m: String|
                to_string_from_display_ensures::<std::io::Error>(&e, m) && s@ == "I/O error:"@ + m@,
            self matches DbError::InvalidValue(m) ==> s@ == "invalid value :"@ + m@,
            self matches DbError::InvalidState(m) ==> s@ == "invalid state: "@ + m@,
            self is CommitConflict ==> s@ == "commit conflict"@,
    {
        match self {
            DbError::InvalidInt(m) => "invalid integer: ".to_owned().concat(m.as_str()),
            DbError::IO(e) => {
                let m: String = e.to_string();
                let s = "I/O error:".to_owned().concat(m.as_str());
                assert(to_string_from_display_ensures::<std::io::Error>(e, m) && s@ == "I/O error:"@
                    + m@);
                s
            },
            DbError::InvalidValue(m) => "invalid value :".to_owned().concat(m.as_str()),
            DbError::InvalidState(m) => "invalid state: ".to_owned().concat(m.as_str()),
            DbError::CommitConflict => "commit conflict".to_owned(),
        }
    }
}

/// `std::io::Error` of the kind `UnexpectedEof`: the input ended too early.
#[verifier::external_body]
pub(crate) fn unexpected_eof() -> (e: std::io::Error) {
    std::io::Error::from(std::io::ErrorKind::UnexpectedEof)
}

impl From<std::io::Error> for DbError {
    fn from(err: std::io::Error) -> (r: Self) {
        DbError::IO(err)
    }
}

impl vstd::std_specs::convert::FromSpecImpl<std::io::Error> for DbError {
    open spec fn obeys_from_spec() -> bool {
        true
    }

    open spec fn from_spec(v: std::io::Error) -> Self {
        DbError::IO(v)
    }
}

impl From<TryFromIntError> for DbError {
    fn from(err: TryFromIntError) -> (r: Self)
        ensures
            r matches DbError::InvalidInt(s) && to_string_from_display_ensures::<TryFromIntError>(
                &err,
                s,
            ),
    {
        Self::InvalidInt(err.to_string())
    }
}

impl vstd::std_specs::convert::FromSpecImpl<TryFromIntError> for DbError {
    open spec fn obeys_from_spec() -> bool {
        false
    }

    open spec fn from_spec(v: TryFromIntError) -> Self {
        arbitrary()
    }
}

impl From<TryFromSliceError> for DbError {
    fn from(err: TryFromSliceError) -> (r: Self)
        ensures
            r matches DbError::InvalidValue(s)
                && to_string_from_display_ensures::<TryFromSliceError>(&err, s),
    {
        Self::InvalidValue(err.to_string())
    }
}

impl vstd::std_specs::convert::FromSpecImpl<TryFromSliceError> for DbError {
    open spec fn obeys_from_spec() -> bool {
        false
    }

    open spec fn from_spec(v: TryFromSliceError) -> Self {
        arbitrary()
    }
}

impl From<ParseIntError> for DbError {
    fn from(err: ParseIntError) -> (r: Self)
        ensures
            r matches DbError::InvalidValue(s) && to_string_from_display_ensures::<ParseIntError>(
                &err,
                s,
            ),
    {
        Self::InvalidValue(err.to_string())
    }
}

impl vstd::std_specs::convert::FromSpecImpl<ParseIntError> for DbError {
    open spec fn obeys_from_spec() -> bool {
        false
    }

    open spec fn from_spec(v: ParseIntError) -> Self {
        arbitrary()
    }
}

} // verus!
