//! Regular expressions, for choosing files by name and for cleaning up
//! compiler output. The matching itself is done by the `regex` crate.
use vstd::prelude::*;

verus! {

#[verifier::external_type_specification]
#[verifier::external_body]
pub struct ExRegex(regex::Regex);

/// Whether `regex::Regex::new` accepts `pattern`: it is valid syntax and
/// compiles within the default size limit.
pub uninterp spec fn regex_compiles(pattern: Seq<char>) -> bool;

/// Whether the expression `pattern` matches somewhere in `haystack`.
pub uninterp spec fn regex_matches(pattern: Seq<char>, haystack: Seq<char>) -> bool;

/// `haystack` with every non-overlapping match of `pattern` replaced by
/// `replacement` (read as a `regex` replacement string).
pub uninterp spec fn regex_replaced(pattern: Seq<char>, haystack: Seq<char>, replacement: Seq<char>) -> Seq<char>;

/// `regex::Regex::new`: succeeds exactly on the patterns that compile. The
/// crate's error value is dropped here (its type shares a name with one of
/// this crate's types and cannot be declared).
#[verifier::external_body]
fn compile(pattern: &str) -> (r: Option<regex::Regex>)
    ensures
        r is Some <==> regex_compiles(pattern@),
{
    regex::Regex::new(pattern).ok()
}

/// A compiled regular expression together with the pattern it was compiled
/// from. It is only made by `Filter::new`, so `re` always belongs to
/// `pattern`.
pub struct Filter {
    pattern: String,
    re: regex::Regex,
}

impl Filter {
    pub closed spec fn pattern(&self) -> Seq<char> {
        self.pattern@
    }

    /// Compiles `pattern`; `None` where the `regex` crate refuses it.
    pub fn new(pattern: &str) -> (r: Option<Filter>)
        ensures
            r is Some <==> regex_compiles(pattern@),
            r matches Some(f) ==> f.pattern() == pattern@,
    {
        match compile(pattern) {
            Some(re) => Some(Filter { pattern: pattern.to_owned(), re }),
            None => None,
        }
    }

    /// Whether the expression matches somewhere in `haystack`.
    pub fn is_match(&self, haystack: &str) -> (r: bool)
        ensures
            r == regex_matches(self.pattern(), haystack@),
    {
        filter_is_match(self, haystack)
    }

    /// `haystack` with every match replaced by `replacement`.
    pub fn replace_all(&self, haystack: &str, replacement: &str) -> (r: String)
        ensures
            r@ == regex_replaced(self.pattern(), haystack@, replacement@),
            !regex_matches(self.pattern(), haystack@) ==> r@ == haystack@,
    {
        filter_replace_all(self, haystack, replacement)
    }
}

/// `regex::Regex::is_match` on the expression of `f`: whether it matches
/// anywhere in `haystack`.
#[verifier::external_body]
fn filter_is_match(f: &Filter, haystack: &str) -> (r: bool)
    ensures
        r == regex_matches(f.pattern@, haystack@),
{
    f.re.is_match(haystack)
}

/// `regex::Regex::replace_all` on the expression of `f`; where nothing
/// matches, the crate documents that the haystack comes back unchanged.
#[verifier::external_body]
fn filter_replace_all(f: &Filter, haystack: &str, replacement: &str) -> (r: String)
    ensures
        r@ == regex_replaced(f.pattern@, haystack@, replacement@),
        !regex_matches(f.pattern@, haystack@) ==> r@ == haystack@,
{
    f.re.replace_all(haystack, replacement).to_string()
}

} // verus!
