//! Command-line argument values: a parsed argument is either a bare
//! flag or a key/value pair, and parsing is configured by a prefix and a
//! key/value delimiter.

use vstd::prelude::*;
use vstd::string::StringExecFns;

verus! {

/// A parsed command-line argument.
#[derive(Debug, Clone, PartialEq, Eq)]
pub enum Arg {
    /// An argument whose presence means true and whose absence means
    /// false.
    Flag(String),
    /// An argument made from a key and a value.
    Pair(String, String),
}

impl Arg {
    /// The argument as a key/value pair of strings; a flag's value is
    /// the text "true".
    pub fn to_key_value_pair(&self) -> (r: (String, String))
        ensures
            match self {
                Arg::Flag(k) => r.0@ == k@ && r.1@ == "true"@,
                Arg::Pair(k, v) => r.0@ == k@ && r.1@ == v@,
            },
    {
        match self {
            Arg::Flag(k) => (String::from_str(k.as_str()), String::from_str("true")),
            Arg::Pair(k, v) => (String::from_str(k.as_str()), String::from_str(v.as_str())),
        }
    }
}

/// Settings that configure argument parsing.
#[derive(Debug, Clone, PartialEq, Eq)]
pub struct ParseArgsSettings {
    prefix: String,
    delimiter: String,
}

impl ParseArgsSettings {
    /// The prefix an argument must carry to be considered.
    pub closed spec fn prefix_view(&self) -> Seq<char> {
        self.prefix@
    }

    /// The text separating an argument's key from its value.
    pub closed spec fn delimiter_view(&self) -> Seq<char> {
        self.delimiter@
    }

    /// Settings with no prefix and "=" as the delimiter.
    pub fn new() -> (r: Self)
        ensures
            r.prefix_view() == ""@,
            r.delimiter_view() == "="@,
    {
        ParseArgsSettings { prefix: String::from_str(""), delimiter: String::from_str("=") }
    }

    /// Settings with the given prefix and delimiter.
    pub fn init(prefix: String, delimiter: String) -> (r: Self)
        ensures
            r.prefix_view() == prefix@,
            r.delimiter_view() == delimiter@,
    {
        ParseArgsSettings { prefix, delimiter }
    }

    /// Replace the prefix, returning the settings for chaining.
    pub fn with_prefix(&mut self, prefix: String) -> (r: &Self)
        ensures
            final(self).prefix_view() == prefix@,
            final(self).delimiter_view() == old(self).delimiter_view(),
            *r == *final(self),
    {
        self.prefix = prefix;
        self
    }

    /// Replace the delimiter, returning the settings for chaining.
    pub fn with_delimiter(&mut self, delimiter: String) -> (r: &Self)
        ensures
            final(self).delimiter_view() == delimiter@,
            final(self).prefix_view() == old(self).prefix_view(),
            *r == *final(self),
    {
        self.delimiter = delimiter;
        self
    }

    /// The prefix as text.
    pub fn prefix(&self) -> (r: &str)
        ensures
            r@ == self.prefix_view(),
    {
        self.prefix.as_str()
    }

    /// The delimiter as text.
    pub fn delimiter(&self) -> (r: &str)
        ensures
            r@ == self.delimiter_view(),
    {
        self.delimiter.as_str()
    }
}

} // verus!
