//! The library's error type.
use vstd::prelude::*;

use crate::text::{append_chars, chars_of, string_of};

verus! {

/// What went wrong, with a human-readable detail.
#[derive(Debug, Clone, PartialEq, Eq)]
pub enum BiError {
    NotFound(String),
    Invalid(String),
    Db(String),
    Index(String),
    Embed(String),
    Ingest(String),
    Io(String),
    Internal(String),
}

pub type BiResult<T> = Result<T, BiError>;

/// The prefix that the rendered message of each kind of error starts with.
pub open spec fn error_prefix(e: BiError) -> Seq<char> {
    match e {
        BiError::NotFound(_) => "not found: "@,
        BiError::Invalid(_) => "invalid input: "@,
        BiError::Db(_) => "database error: "@,
        BiError::Index(_) => "index error: "@,
        BiError::Embed(_) => "embed error: "@,
        BiError::Ingest(_) => "ingest error: "@,
        BiError::Io(_) => "io error: "@,
        BiError::Internal(_) => "internal: "@,
    }
}

pub open spec fn error_detail(e: BiError) -> Seq<char> {
    match e {
        BiError::NotFound(m) => m@,
        BiError::Invalid(m) => m@,
        BiError::Db(m) => m@,
        BiError::Index(m) => m@,
        BiError::Embed(m) => m@,
        BiError::Ingest(m) => m@,
        BiError::Io(m) => m@,
        BiError::Internal(m) => m@,
    }
}

impl BiError {
    /// The error rendered for a user: its kind's prefix, then its detail.
    pub fn message(&self) -> (s: String)
        ensures
            s@ == error_prefix(*self) + error_detail(*self),
    {
        let (prefix, detail): (&str, &String) = match self {
            BiError::NotFound(m) => ("not found: ", m),
            BiError::Invalid(m) => ("invalid input: ", m),
            BiError::Db(m) => ("database error: ", m),
            BiError::Index(m) => ("index error: ", m),
            BiError::Embed(m) => ("embed error: ", m),
            BiError::Ingest(m) => ("ingest error: ", m),
            BiError::Io(m) => ("io error: ", m),
            BiError::Internal(m) => ("internal: ", m),
        };
        let mut v = chars_of(prefix);
        let d = chars_of(detail.as_str());
        append_chars(&mut v, d.as_slice());
        string_of(v.as_slice())
    }
}

/// A message made of a fixed text followed by a detail.
pub fn concat_message(head: &str, detail: &str) -> (s: String)
    ensures
        s@ == head@ + detail@,
{
    let mut v = chars_of(head);
    let d = chars_of(detail);
    append_chars(&mut v, d.as_slice());
    string_of(v.as_slice())
}

} // verus!
