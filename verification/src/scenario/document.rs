//! What reading one of a pack's documents gave.

use vstd::prelude::*;

verus! {

/// What reading a file as a document of a kind gave: the file could not be read, it
/// is no document of the kind, or it is this one.
#[derive(Clone, Debug)]
pub enum Read<T> {
    Missing { path: String, error: String },
    Malformed(String),
    Given(T),
}

/// What is said of a file that could not be read.
pub open spec fn missing(what: Seq<char>, path: Seq<char>, error: Seq<char>) -> Seq<char> {
    "reading "@ + what + " "@ + path + ": "@ + error
}

/// What is said of a document that is not of its kind.
pub open spec fn unreadable(what: Seq<char>, error: Seq<char>) -> Seq<char> {
    "parsing "@ + what + ": "@ + error
}

/// What is said of a file that could not be read.
pub fn missing_message(what: &str, path: &str, error: &str) -> (r: String)
    ensures
        r@ == missing(what@, path@, error@),
{
    let mut s = "reading ".to_owned();
    s.append(what);
    s.append(" ");
    s.append(path);
    s.append(": ");
    s.append(error);
    s
}

/// What is said of a document that is not of its kind.
pub fn unreadable_message(what: &str, error: &str) -> (r: String)
    ensures
        r@ == unreadable(what@, error@),
{
    let mut s = "parsing ".to_owned();
    s.append(what);
    s.append(": ");
    s.append(error);
    s
}

} // verus!
