//! Error taxonomy: the fatal crate error, and the per-entry error item surfaced in the
//! output stream rather than aborting the walk.
use vstd::prelude::*;
use vstd::string::*;

verus! {

/// `std::io::Error`, carried through opaquely.
#[verifier::external_type_specification]
#[verifier::external_body]
pub struct ExIoError(std::io::Error);

/// A fatal error from query construction or submission.
///
/// Distinct from [`EntryError`], which reports a per-entry failure in the output
/// stream without aborting the walk.
#[derive(Debug)]
#[non_exhaustive]
pub enum Error {
    /// A pattern could not be compiled by its dialect front-end.
    Pattern(String),
    /// An execution option was invalid (e.g. a zero `ring_capacity`).
    Options(String),
    /// An I/O failure while establishing the query.
    Io(std::io::Error),
}

/// The text that `Error::Pattern(detail)` displays as.
pub open spec fn pattern_message(detail: Seq<char>) -> Seq<char> {
    "invalid pattern: "@ + detail
}

/// The text that `Error::Options(detail)` displays as.
pub open spec fn options_message(detail: Seq<char>) -> Seq<char> {
    "invalid option: "@ + detail
}

impl Error {
    /// The human-readable text of the error: `invalid pattern: ..`, `invalid option:
    /// ..` or `i/o error: ..`.
    pub fn message(&self) -> (r: String)
        ensures
            self matches Error::Pattern(d) ==> r@ == pattern_message(d@),
            self matches Error::Options(d) ==> r@ == options_message(d@),
            self matches Error::Io(_) ==> exists|t: Seq<char>| r@ == "i/o error: "@ + t,
    {
        match self {
            Error::Pattern(d) => {
                let mut s = String::from_str("invalid pattern: ");
                s.append(d.as_str());
                s
            },
            Error::Options(d) => {
                let mut s = String::from_str("invalid option: ");
                s.append(d.as_str());
                s
            },
            Error::Io(e) => {
                let prefix = "i/o error: ";
                let mut s = String::from_str(prefix);
                let t = e.to_string();
                s.append(t.as_str());
                assert(s@ == prefix@ + t@);
                s
            },
        }
    }
}

impl From<std::io::Error> for Error {
    fn from(e: std::io::Error) -> (r: Error)
        ensures
            r == Error::Io(e),
    {
        Error::Io(e)
    }
}

impl vstd::std_specs::convert::FromSpecImpl<std::io::Error> for Error {
    open spec fn obeys_from_spec() -> bool {
        true
    }

    open spec fn from_spec(v: std::io::Error) -> Error {
        Error::Io(v)
    }
}

/// A per-entry or per-subtree failure, surfaced as an item in the output stream. It
/// normally does not abort the walk: traversal continues past it. The one exception
/// is a fatal error (a root that cannot be enumerated), after which the stream ends
/// with `TerminalReason::Failed`.
#[derive(Debug)]
#[non_exhaustive]
pub struct EntryError {
    /// The failing entry's name, when a specific entry can be attributed. `None` for a
    /// directory-level failure, where no single entry is at fault.
    pub name: Option<crate::ring::Name>,
    /// The underlying OS error for the failed operation.
    pub source: std::io::Error,
}

impl EntryError {
    /// A failure of `source`, attributed to `name` when known.
    pub fn new(name: Option<crate::ring::Name>, source: std::io::Error) -> (r: EntryError)
        ensures
            r.name == name,
            r.source == source,
    {
        EntryError { name, source }
    }

    /// The human-readable text of the error: `entry error: ` and the OS error.
    pub fn message(&self) -> (r: String)
        ensures
            exists|t: Seq<char>| r@ == "entry error: "@ + t,
    {
        let prefix = "entry error: ";
        let mut s = String::from_str(prefix);
        let t = self.source.to_string();
        s.append(t.as_str());
        assert(s@ == prefix@ + t@);
        s
    }
}

} // verus!
