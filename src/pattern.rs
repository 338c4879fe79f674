//! Regular expressions, compiled once and kept with the text they were compiled from.

use vstd::prelude::*;

verus! {

#[verifier::external_type_specification]
#[verifier::external_body]
pub struct ExRegex(regex::Regex);

/// `Regex::new` accepts `pattern`.
pub uninterp spec fn regex_compiles(pattern: Seq<char>) -> bool;

/// What `Regex::replace_all` leaves of `s` when every match of `pattern` is
/// replaced by nothing.
pub uninterp spec fn regex_deleted(pattern: Seq<char>, s: Seq<char>) -> Seq<char>;

/// What `Regex::replace` leaves of `s` when the first match of `pattern` is
/// replaced by nothing.
pub uninterp spec fn regex_deleted_first(pattern: Seq<char>, s: Seq<char>) -> Seq<char>;

/// The text of the first capture group of the first match of `pattern` in
/// `s`, when there is a match and the group takes part in it.
pub uninterp spec fn regex_first_group(pattern: Seq<char>, s: Seq<char>) -> Option<Seq<char>>;

/// `pattern` matches somewhere in `s`.
pub uninterp spec fn regex_is_match(pattern: Seq<char>, s: Seq<char>) -> bool;

/// A compiled regular expression. Its view is the pattern it was compiled from.
pub struct Pattern {
    text: String,
    re: regex::Regex,
}

impl View for Pattern {
    type V = Seq<char>;

    closed spec fn view(&self) -> Seq<char> {
        self.text@
    }
}

impl Pattern {
    /// Relies on `regex::Regex::new`: the compiled expression is the one
    /// `text` describes; whether it compiles depends on `text` alone.
    #[verifier::external_body]
    pub fn new(text: &str) -> (r: Option<Pattern>)
        ensures
            r is Some <==> regex_compiles(text@),
            r matches Some(p) ==> p@ == text@,
    {
        regex::Regex::new(text).ok().map(|re| Pattern { text: text.to_string(), re })
    }

    /// Relies on `regex::Regex::replace_all` with an empty replacement.
    #[verifier::external_body]
    pub fn delete_all(&self, s: &str) -> (r: String)
        ensures
            r@ == regex_deleted(self@, s@),
    {
        self.re.replace_all(s, "").into_owned()
    }

    /// Relies on `regex::Regex::replace` with an empty replacement.
    #[verifier::external_body]
    pub fn delete_first(&self, s: &str) -> (r: String)
        ensures
            r@ == regex_deleted_first(self@, s@),
    {
        self.re.replace(s, "").into_owned()
    }

    /// Relies on `regex::Regex::captures` and `Captures::get(1)`.
    #[verifier::external_body]
    pub fn first_group(&self, s: &str) -> (r: Option<String>)
        ensures
            r is Some <==> regex_first_group(self@, s@) is Some,
            r matches Some(t) ==> regex_first_group(self@, s@) == Some(t@),
    {
        match self.re.captures(s) {
            Some(caps) => caps.get(1).map(|m| m.as_str().to_string()),
            None => None,
        }
    }

    /// Relies on `regex::Regex::is_match`.
    #[verifier::external_body]
    pub fn is_match(&self, s: &str) -> (r: bool)
        ensures
            r == regex_is_match(self@, s@),
    {
        self.re.is_match(s)
    }
}

} // verus!
