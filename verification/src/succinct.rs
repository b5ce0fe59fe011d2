//! Small helper types that reduce boilerplate in error handling.

use vstd::prelude::*;
use std::borrow::Cow;

verus! {

/// An alias for a lazily constructed [`String`] from a `'static` string
/// slice.
pub type CowStr = Cow<'static, str>;

/// A newtype that carries an error message without committing to a concrete
/// error machinery.  The payload is public, as in the original API.
#[derive(Debug, Clone, PartialEq, Eq)]
pub struct Errorlike<T>(pub T);

impl Errorlike<CowStr> {
    /// Constructs an [`Errorlike`] holding owned message text.
    pub fn owned(c: String) -> (r: Self)
        ensures
            r.0@ == c@,
    {
        Errorlike(Cow::Owned(c))
    }

    /// Constructs an [`Errorlike`] holding borrowed message text.
    pub fn borrowed(c: &'static str) -> (r: Self)
        ensures
            r.0@ == c@,
    {
        Errorlike(Cow::Borrowed(c))
    }

    /// The message text.
    pub fn message(&self) -> (r: &str)
        ensures
            r@ == self.0@,
    {
        match &self.0 {
            Cow::Borrowed(s) => s,
            Cow::Owned(s) => s.as_str(),
        }
    }
}

} // verus!
