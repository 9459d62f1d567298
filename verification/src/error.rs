//! The failures that an operation on the store can end in.

use vstd::prelude::*;
use crate::util::CodecError;
use sled::Error as StoreFailure;

verus! {

/// `sled::Error`, a failure of the store. It is only handed on and put
/// into words.
#[verifier::external_type_specification]
#[verifier::external_body]
pub struct ExStoreFailure(StoreFailure);

/// `std::io::Error`, a failure of input or output. It is only handed on
/// and put into words.
#[verifier::external_type_specification]
#[verifier::external_body]
pub struct ExIoError(std::io::Error);

/// What went wrong.
#[derive(Clone, Copy, Debug, PartialEq, Eq, Structural)]
pub enum ErrorKind {
    /// A stored record does not have the layout of its type.
    Codec,
    /// The store could not read or write.
    Store,
    /// A record that another record refers to is not there.
    NotFound,
}

/// A failure, with a message for the log.
#[derive(Debug)]
pub struct Error {
    kind: ErrorKind,
    message: String,
}

/// A failure as a plain value.
pub struct ErrorView {
    pub kind: ErrorKind,
    pub message: Seq<char>,
}

impl View for Error {
    type V = ErrorView;

    closed spec fn view(&self) -> ErrorView {
        ErrorView { kind: self.kind, message: self.message@ }
    }
}

/// The message for a missing record of the type called `type_label`.
pub open spec fn missing_item_message(type_label: Seq<char>) -> Seq<char> {
    "Could not find a value of type \""@ + type_label + "\" in the database."@
}

/// The message for an input or output failure: a fixed one where the
/// operation timed out, else one that ends in the failure's own words.
pub open spec fn io_message(timed_out: bool, detail: Seq<char>) -> Seq<char> {
    if timed_out {
        "The server took too long to do something."@
    } else {
        "This IO error happened on the server: "@ + detail
    }
}

/// The message for any other failure of the store.
pub open spec fn database_message(detail: Seq<char>) -> Seq<char> {
    "A problem occured with the server's database: "@ + detail
}

/// What a codec failure is called in a message.
pub open spec fn codec_detail(error: CodecError) -> Seq<char> {
    match error {
        CodecError::Incomplete => "not enough data"@,
        CodecError::InvalidCharacter => "invalid_char"@,
    }
}

/// The message for a record that could not be read.
pub open spec fn codec_message(error: CodecError) -> Seq<char> {
    "Could not deserialize/serialize data: "@ + codec_detail(error)
}

/// Whether an input or output failure is a timeout.
pub uninterp spec fn io_timed_out(error: std::io::Error) -> bool;

/// The input or output failure that a failure of the store carries, if it
/// carries one.
pub uninterp spec fn io_cause_of(error: StoreFailure) -> Option<std::io::Error>;

/// The failure for a missing record of the type called `type_label`.
pub open spec fn missing(type_label: Seq<char>) -> ErrorView {
    ErrorView { kind: ErrorKind::NotFound, message: missing_item_message(type_label) }
}

/// The failure for a record that could not be read.
pub open spec fn unreadable(error: CodecError) -> ErrorView {
    ErrorView { kind: ErrorKind::Codec, message: codec_message(error) }
}

/// Whether a failure is one of the store's, with the message for it: that
/// of an input or output failure where `cause` is one, else that of a
/// problem with the database.
pub open spec fn is_store_failure(e: ErrorView, cause: Option<std::io::Error>) -> bool {
    &&& e.kind == ErrorKind::Store
    &&& match cause {
        Some(io) => is_io_failure(e, io),
        None => exists|detail: Seq<char>| e.message == #[trigger] database_message(detail),
    }
}

/// Whether a failure is the one for the input or output failure `io`.
pub open spec fn is_io_failure(e: ErrorView, io: std::io::Error) -> bool {
    &&& e.kind == ErrorKind::Store
    &&& exists|detail: Seq<char>| e.message == #[trigger] io_message(io_timed_out(io), detail)
}

/// Parts a `sled::Error` into the input or output failure that it carries
/// in its `Io` variant, or itself where it is another variant.
#[verifier::external_body]
fn io_cause(error: StoreFailure) -> (r: Result<std::io::Error, StoreFailure>)
    ensures
        match r {
            Ok(cause) => io_cause_of(error) == Some(cause),
            Err(other) => io_cause_of(error) is None && other == error,
        },
{
    match error {
        sled::Error::Io(cause) => Ok(cause),
        other => Err(other),
    }
}

/// `std::io::Error::kind`: whether the failure is of the kind `TimedOut`.
#[verifier::external_body]
fn timed_out(error: &std::io::Error) -> (r: bool)
    ensures
        r == io_timed_out(*error),
{
    matches!(error.kind(), std::io::ErrorKind::TimedOut)
}

/// The words of a `std::io::Error`, as its `Display` gives them.
#[verifier::external_body]
fn io_words(error: &std::io::Error) -> (words: String) {
    format!("{}", error)
}

/// The words of a `sled::Error`, as its `Display` gives them.
#[verifier::external_body]
fn store_words(error: &StoreFailure) -> (words: String) {
    format!("{}", error)
}

impl Error {
    /// What went wrong.
    pub fn kind(&self) -> (kind: ErrorKind)
        ensures
            kind == self@.kind,
    {
        self.kind
    }

    /// The message for the log.
    pub fn message(&self) -> (message: &str)
        ensures
            message@ == self@.message,
    {
        self.message.as_str()
    }

    /// Takes a record that a reference promised out of a lookup's result: a
    /// missing one is a `NotFound` failure that names the record's type.
    pub fn expect_db_item<T>(result: Option<T>, type_label: &str) -> (r: Result<T, Error>)
        ensures
            match result {
                Some(item) => r == Ok::<T, Error>(item),
                None => r matches Err(e) && e@.kind == ErrorKind::NotFound && e@.message
                    == missing_item_message(type_label@),
            },
    {
        match result {
            Some(item) => Ok(item),
            None => {
                let mut message = String::from_str("Could not find a value of type \"");
                message.append(type_label);
                message.append("\" in the database.");
                Err(Error { kind: ErrorKind::NotFound, message })
            },
        }
    }

    /// The failure for an input or output error with the given words.
    pub fn io(timed_out: bool, detail: &str) -> (e: Error)
        ensures
            e@.kind == ErrorKind::Store,
            e@.message == io_message(timed_out, detail@),
    {
        if timed_out {
            Error {
                kind: ErrorKind::Store,
                message: String::from_str("The server took too long to do something."),
            }
        } else {
            let mut message = String::from_str("This IO error happened on the server: ");
            message.append(detail);
            Error { kind: ErrorKind::Store, message }
        }
    }

    /// The failure for any other error of the store with the given words.
    pub fn database(detail: &str) -> (e: Error)
        ensures
            e@.kind == ErrorKind::Store,
            e@.message == database_message(detail@),
    {
        let mut message = String::from_str("A problem occured with the server's database: ");
        message.append(detail);
        Error { kind: ErrorKind::Store, message }
    }

    /// The failure for a record that could not be read.
    pub fn codec(error: CodecError) -> (e: Error)
        ensures
            e@.kind == ErrorKind::Codec,
            e@.message == codec_message(error),
    {
        let mut message = String::from_str("Could not deserialize/serialize data: ");
        match error {
            CodecError::Incomplete => message.append("not enough data"),
            CodecError::InvalidCharacter => message.append("invalid_char"),
        }
        Error { kind: ErrorKind::Codec, message }
    }
}

impl From<std::io::Error> for Error {
    fn from(error: std::io::Error) -> (e: Error)
        ensures
            is_io_failure(e@, error),
    {
        let late = timed_out(&error);
        let words = io_words(&error);
        let e = Error::io(late, words.as_str());
        assert(e@.message == io_message(io_timed_out(error), words@));
        e
    }
}

impl vstd::std_specs::convert::FromSpecImpl<std::io::Error> for Error {
    open spec fn obeys_from_spec() -> bool {
        false
    }

    open spec fn from_spec(v: std::io::Error) -> Error {
        arbitrary()
    }
}

impl From<StoreFailure> for Error {
    fn from(error: StoreFailure) -> (e: Error)
        ensures
            is_store_failure(e@, io_cause_of(error)),
    {
        let words = store_words(&error);
        match io_cause(error) {
            Ok(cause) => {
                let late = timed_out(&cause);
                let cause_words = io_words(&cause);
                let e = Error::io(late, cause_words.as_str());
                assert(e@.message == io_message(io_timed_out(cause), cause_words@));
                e
            },
            Err(_) => {
                let e = Error::database(words.as_str());
                assert(e@.message == database_message(words@));
                e
            },
        }
    }
}

impl vstd::std_specs::convert::FromSpecImpl<StoreFailure> for Error {
    open spec fn obeys_from_spec() -> bool {
        false
    }

    open spec fn from_spec(v: StoreFailure) -> Error {
        arbitrary()
    }
}

impl From<CodecError> for Error {
    fn from(error: CodecError) -> (e: Error)
        ensures
            e@.kind == ErrorKind::Codec,
            e@.message == codec_message(error),
    {
        Error::codec(error)
    }
}

impl vstd::std_specs::convert::FromSpecImpl<CodecError> for Error {
    open spec fn obeys_from_spec() -> bool {
        false
    }

    open spec fn from_spec(v: CodecError) -> Error {
        arbitrary()
    }
}

} // verus!
