//! Values that can be combined (a semigroup), some with a neutral value
//! (a monoid).
use vstd::prelude::*;
use vstd::pervasive::cloned;

verus! {

/// A type whose values can be combined.
pub trait Semigroup: Sized {
    fn mappend(&self, b: Self) -> Self;
}

/// A semigroup with a neutral value.
pub trait Monoid: Semigroup {
    fn mempty() -> Self;
}

/// Combining two texts: the second follows the first.
pub open spec fn string_mappend(a: Seq<char>, b: Seq<char>) -> Seq<char> {
    a + b
}

impl Semigroup for String {
    fn mappend(&self, b: String) -> (r: String)
        ensures
            r@ == string_mappend(self@, b@),
    {
        let mut r = self.clone();
        r.append(b.as_str());
        r
    }
}

impl Monoid for String {
    fn mempty() -> (r: String)
        ensures
            r@ == Seq::<char>::empty(),
    {
        String::new()
    }
}

/// An absent value is neutral; two present values combine inside.
impl<T: Semigroup + Clone> Semigroup for Option<T> {
    fn mappend(&self, b: Option<T>) -> (r: Option<T>)
        ensures
            match (*self, b) {
                (None, None) => r is None,
                (None, Some(rhs)) => r == Some(rhs),
                (Some(lhs), None) => r is Some && cloned(lhs, r->0),
                (Some(lhs), Some(rhs)) => r is Some && call_ensures(T::mappend, (&lhs, rhs), r->0),
            },
    {
        match (self, b) {
            (Some(lhs), None) => Some(lhs.clone()),
            (None, Some(rhs)) => Some(rhs),
            (Some(lhs), Some(rhs)) => Some(lhs.mappend(rhs)),
            (None, None) => None,
        }
    }
}

/// Combining texts is associative.
pub proof fn lemma_string_mappend_associative(a: Seq<char>, b: Seq<char>, c: Seq<char>)
    ensures
        string_mappend(string_mappend(a, b), c) == string_mappend(a, string_mappend(b, c)),
{
    assert(string_mappend(string_mappend(a, b), c) =~= string_mappend(a, string_mappend(b, c)));
}

/// The empty text is neutral on both sides.
pub proof fn lemma_string_mempty_neutral(a: Seq<char>)
    ensures
        string_mappend(Seq::empty(), a) == a,
        string_mappend(a, Seq::empty()) == a,
{
    assert(string_mappend(Seq::empty(), a) =~= a);
    assert(string_mappend(a, Seq::empty()) =~= a);
}


/// Combining optional texts: an absent text is neutral, two texts are
/// joined.
pub open spec fn option_text_mappend(a: Option<Seq<char>>, b: Option<Seq<char>>) -> Option<Seq<char>> {
    match (a, b) {
        (None, x) => x,
        (x, None) => x,
        (Some(p), Some(q)) => Some(string_mappend(p, q)),
    }
}

/// For texts, combining options does what `option_text_mappend` says:
/// `None` is neutral on both sides and `Some(a)` with `Some(b)` gives
/// `Some(a.mappend(b))`.
pub proof fn lemma_option_string_mappend(a: Option<String>, b: Option<String>, r: Option<String>)
    requires
        call_ensures(Option::<String>::mappend, (&a, b), r),
    ensures
        r.deep_view() == option_text_mappend(a.deep_view(), b.deep_view()),
{
}

} // verus!
