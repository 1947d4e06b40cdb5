//! The errors of the library and their exit codes.

use crate::text::{digits_of, push_digits, to_text};
use vstd::prelude::*;
use vstd::string::StringExecFns;

verus! {

/// The error that `hex` reports for a malformed hex string.
#[verifier::external_type_specification]
#[verifier::external_body]
pub struct ExFromHexError(hex::FromHexError);

/// `to_string` of `hex::FromHexError`: the error in the words of `hex`, of
/// which nothing is claimed.
#[verifier::external_body]
fn hex_error_text(e: &hex::FromHexError) -> String {
    e.to_string()
}

/// Everything that can go wrong, from reading the input to answering a query.
#[derive(Debug)]
pub enum Error {
    /// No input was provided.
    NoInput,
    /// The named file does not exist.
    FileNotFound(String),
    /// Reading failed; `path` is the file that was being read, if any.
    IoError { path: Option<String>, message: String },
    /// The input is not a hex string.
    InvalidHex(hex::FromHexError),
    /// The bytes are not a transaction or an address.
    DecodeFailed(String),
    /// The query is malformed, or does not fit the shape of the document.
    InvalidQuery(String),
    /// An object has no member of this name.
    FieldNotFound(String),
    /// An array has no element at this index.
    IndexOutOfBounds(usize),
    /// The result could not be rendered.
    FormatError(String),
    /// The transaction is of an era that is not supported.
    UnsupportedEra,
    /// The network could not be reached.
    NetworkError(String),
}

/// The three ways in which a query fails, without the wording of the reason.
pub enum Failure {
    InvalidQuery,
    FieldNotFound(Seq<char>),
    IndexOutOfBounds(usize),
}

impl Error {
    /// The query failure that this error reports, if it is one.
    pub open spec fn failure(&self) -> Option<Failure> {
        match self {
            Error::InvalidQuery(_) => Some(Failure::InvalidQuery),
            Error::FieldNotFound(name) => Some(Failure::FieldNotFound(name@)),
            Error::IndexOutOfBounds(i) => Some(Failure::IndexOutOfBounds(*i)),
            _ => None,
        }
    }

    /// The exit code of each error, as a number.
    pub open spec fn exit_code_of(&self) -> int {
        match self {
            Error::DecodeFailed(_) | Error::UnsupportedEra => 1,
            Error::InvalidHex(_) => 2,
            Error::NoInput | Error::FileNotFound(_) | Error::IoError { .. } => 3,
            Error::InvalidQuery(_) | Error::FieldNotFound(_) | Error::IndexOutOfBounds(_) => 4,
            Error::FormatError(_) => 5,
            Error::NetworkError(_) => 6,
        }
    }

    /// The words that show this error to a reader. What follows the colon of
    /// an `InvalidHex` is worded by `hex` and not given here.
    pub open spec fn message_of(&self) -> Seq<char> {
        match self {
            Error::NoInput => "No input provided. Use: cq <file>, cq <hex>, or pipe CBOR to stdin"@,
            Error::FileNotFound(path) => "File not found: "@ + path@,
            Error::IoError { path, message } => "IO error"@ + (match path {
                Some(p) => " reading "@ + p@,
                None => Seq::empty(),
            }) + ": "@ + message@,
            Error::InvalidHex(_) => "Invalid hex input: "@,
            Error::DecodeFailed(reason) => "Failed to decode transaction: "@ + reason@,
            Error::InvalidQuery(reason) => "Invalid query: "@ + reason@,
            Error::FieldNotFound(name) => "Field not found: '"@ + name@ + "'"@,
            Error::IndexOutOfBounds(i) => "Index "@ + digits_of(*i as nat) + " out of bounds"@,
            Error::FormatError(reason) => "Format error: "@ + reason@,
            Error::UnsupportedEra =>
                "Unsupported era: only Babbage and Conway transactions are supported"@,
            Error::NetworkError(reason) => "Network error: "@ + reason@,
        }
    }

    /// The error in words.
    pub fn message(&self) -> (r: String)
        ensures
            !(self is InvalidHex) ==> r@ == self.message_of(),
            self is InvalidHex ==> r@.len() >= self.message_of().len() && r@.subrange(
                0,
                self.message_of().len() as int,
            ) == self.message_of(),
    {
        match self {
            Error::NoInput => {
                "No input provided. Use: cq <file>, cq <hex>, or pipe CBOR to stdin".to_owned()
            },
            Error::FileNotFound(path) => "File not found: ".to_owned().concat(path.as_str()),
            Error::IoError { path, message } => {
                let mut r = "IO error".to_owned();
                match path {
                    Some(p) => {
                        r.append(" reading ");
                        r.append(p.as_str());
                        assert(r@ =~= "IO error"@ + (" reading "@ + p@));
                    },
                    None => {
                        assert(r@ =~= "IO error"@ + Seq::<char>::empty());
                    },
                }
                r.append(": ");
                r.append(message.as_str());
                r
            },
            Error::InvalidHex(e) => {
                let shown = hex_error_text(e);
                let r = "Invalid hex input: ".to_owned().concat(shown.as_str());
                assert(r@.subrange(0, "Invalid hex input: "@.len() as int)
                    =~= "Invalid hex input: "@);
                r
            },
            Error::DecodeFailed(reason) => "Failed to decode transaction: ".to_owned().concat(
                reason.as_str(),
            ),
            Error::InvalidQuery(reason) => "Invalid query: ".to_owned().concat(reason.as_str()),
            Error::FieldNotFound(name) => "Field not found: '".to_owned().concat(
                name.as_str(),
            ).concat("'"),
            Error::IndexOutOfBounds(i) => {
                let mut digits: Vec<char> = Vec::new();
                push_digits(*i as u64, &mut digits);
                assert(digits@ =~= digits_of(*i as nat));
                assert(digits@.subrange(0, digits.len() as int) =~= digits@);
                let shown = to_text(&digits, 0, digits.len());
                "Index ".to_owned().concat(shown.as_str()).concat(" out of bounds")
            },
            Error::FormatError(reason) => "Format error: ".to_owned().concat(reason.as_str()),
            Error::UnsupportedEra => {
                "Unsupported era: only Babbage and Conway transactions are supported".to_owned()
            },
            Error::NetworkError(reason) => "Network error: ".to_owned().concat(reason.as_str()),
        }
    }

    /// An `InvalidQuery` with the given reason.
    pub fn invalid_query(reason: &str) -> (e: Error)
        ensures
            e.failure() == Some(Failure::InvalidQuery),
    {
        Error::InvalidQuery(reason.to_owned())
    }

    /// The exit code with which a program that met this error ends.
    pub fn exit_code(&self) -> (code: i32)
        ensures
            code == self.exit_code_of(),
            1 <= code <= 6,
    {
        match self {
            Error::DecodeFailed(_) | Error::UnsupportedEra => 1,
            Error::InvalidHex(_) => 2,
            Error::NoInput | Error::FileNotFound(_) | Error::IoError { .. } => 3,
            Error::InvalidQuery(_) | Error::FieldNotFound(_) | Error::IndexOutOfBounds(_) => 4,
            Error::FormatError(_) => 5,
            Error::NetworkError(_) => 6,
        }
    }
}

} // verus!
