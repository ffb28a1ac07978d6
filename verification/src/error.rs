//! Errors from calendar operations.
use vstd::prelude::*;

verus! {

/// Errors from calendar operations. I/O failures carry the system's message.
#[derive(Debug, Clone, PartialEq, Eq)]
pub enum Error {
    Io(String),
    Config(String),
    InvalidEvent(String),
    InvalidDate(String),
}

pub type Result<T> = std::result::Result<T, Error>;

/// The text shown for an error.
pub open spec fn error_message(e: Error) -> Seq<char> {
    match e {
        Error::Io(m) => "io error: "@ + m@,
        Error::Config(m) => "config error: "@ + m@,
        Error::InvalidEvent(m) => "invalid event: "@ + m@,
        Error::InvalidDate(m) => "invalid date '"@ + m@ + "': use YYYY-MM-DD or YYYY-MM-DDTHH:MM"@,
    }
}

impl Error {
    /// The text shown for this error.
    pub fn message(&self) -> (r: String)
        ensures
            r@ == error_message(*self),
    {
        let mut out: Vec<char> = Vec::new();
        match self {
            Error::Io(m) => {
                crate::text::push_str(&mut out, "io error: ");
                crate::text::push_str(&mut out, m.as_str());
            },
            Error::Config(m) => {
                crate::text::push_str(&mut out, "config error: ");
                crate::text::push_str(&mut out, m.as_str());
            },
            Error::InvalidEvent(m) => {
                crate::text::push_str(&mut out, "invalid event: ");
                crate::text::push_str(&mut out, m.as_str());
            },
            Error::InvalidDate(m) => {
                crate::text::push_str(&mut out, "invalid date '");
                crate::text::push_str(&mut out, m.as_str());
                crate::text::push_str(&mut out, "': use YYYY-MM-DD or YYYY-MM-DDTHH:MM");
            },
        }
        crate::text::string_of(&out)
    }
}

} // verus!
