//! String identities used as aggregation keys: hosts, kept verbatim, and
//! request paths, truncated on construction to bound the cost of a key.

use vstd::prelude::*;

verus! {

/// The number of characters a request path is cut to on construction.
pub const MAX_PATH_CHARS: usize = 100;

/// An opaque host identity; equality is by exact text. Host keys are not
/// truncated: the log format keeps host tokens short, while paths are
/// under the sender's control.
#[derive(Debug, Clone, PartialEq, Eq, Hash)]
pub struct Hostname(String);

impl View for Hostname {
    type V = Seq<char>;

    closed spec fn view(&self) -> Seq<char> {
        self.0@
    }
}

impl Hostname {
    pub fn new(s: String) -> (r: Hostname)
        ensures
            r@ == s@,
    {
        Hostname(s)
    }

    pub fn as_str(&self) -> (r: &str)
        ensures
            r@ == self@,
    {
        self.0.as_str()
    }

    pub fn into_string(self) -> (r: String)
        ensures
            r@ == self@,
    {
        self.0
    }
}

/// What a path looks like once it is made a key: cut to the first
/// `MAX_PATH_CHARS` characters.
pub open spec fn truncated_path(s: Seq<char>) -> Seq<char> {
    if s.len() <= MAX_PATH_CHARS {
        s
    } else {
        s.take(MAX_PATH_CHARS as int)
    }
}

/// An opaque request-path identity, truncated to `MAX_PATH_CHARS`
/// characters on construction; equality is by the truncated text.
#[derive(Debug, Clone, PartialEq, Eq, Hash)]
pub struct Endpoint(String);

impl View for Endpoint {
    type V = Seq<char>;

    closed spec fn view(&self) -> Seq<char> {
        self.0@
    }
}

impl Endpoint {
    pub fn new(s: &str) -> (r: Endpoint)
        ensures
            r@ == truncated_path(s@),
    {
        let n = s.unicode_len();
        if n <= MAX_PATH_CHARS {
            Endpoint(String::from_str(s))
        } else {
            Endpoint(String::from_str(s.substring_char(0, MAX_PATH_CHARS)))
        }
    }

    pub fn as_str(&self) -> (r: &str)
        ensures
            r@ == self@,
    {
        self.0.as_str()
    }

    pub fn into_string(self) -> (r: String)
        ensures
            r@ == self@,
    {
        self.0
    }
}

} // verus!
