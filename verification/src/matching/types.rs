//! The result type of a ranking and the capability a candidate must offer.

use vstd::prelude::*;
use vstd::string::StringSliceAdditionalSpecFns;

verus! {

/// An exact similarity score: the fraction `num / den`.  A well-formed score
/// lies in `[0, 1]`: the denominator is positive and at least the numerator.
#[derive(Clone, Copy, Debug, PartialEq, Eq, Structural)]
pub struct Score {
    pub num: usize,
    pub den: usize,
}

impl Score {
    /// The score is a fraction in `[0, 1]`.
    pub open spec fn wf(&self) -> bool {
        1 <= self.den && self.num <= self.den
    }
}

/// A candidate paired with its similarity score.  The candidate is reached
/// through [`Match::object`].
#[verifier::ext_equal]
#[derive(Debug)]
pub struct Match<T> {
    pub object: T,
    pub score: Score,
}

impl<T> Match<T> {
    pub fn new(object: T, score: Score) -> (m: Match<T>)
        ensures
            m.object == object,
            m.score == score,
    {
        Match { object, score }
    }

    /// Read-through access to the wrapped candidate.
    pub fn object(&self) -> (o: &T)
        ensures
            *o == self.object,
    {
        &self.object
    }
}

/// Two matches agreeing on candidate and score are the same match.
pub proof fn lemma_match_eq<T>(a: Match<T>, b: Match<T>)
    requires
        a.object == b.object,
        a.score == b.score,
    ensures
        a == b,
{
}

/// A borrowed string-slice view of a candidate, together with the ghost byte
/// sequence the view denotes and a way to keep an equal copy of the
/// candidate.  Implementations exist for owned strings and for borrowed
/// slices, so a haystack may either lend its entries to the ranker or have
/// them cloned into the results.
pub trait AsStr: Sized {
    /// The bytes of the candidate's string view.
    spec fn bytes_spec(&self) -> Seq<u8>;

    fn as_str(&self) -> (s: &str)
        ensures
            s.spec_bytes() == self.bytes_spec(),
    ;

    /// An equal value of the candidate, kept by the ranker in its results.
    fn duplicate(&self) -> (r: Self)
        ensures
            r == *self,
    ;
}

impl AsStr for String {
    open spec fn bytes_spec(&self) -> Seq<u8> {
        vstd::utf8::encode_utf8(self@)
    }

    fn as_str(&self) -> (s: &str)
        ensures
            s.spec_bytes() == self.bytes_spec(),
    {
        self.as_str()
    }

    fn duplicate(&self) -> (r: Self)
        ensures
            r == *self,
    {
        self.clone()
    }
}

impl<'a> AsStr for &'a String {
    open spec fn bytes_spec(&self) -> Seq<u8> {
        vstd::utf8::encode_utf8((*self)@)
    }

    fn as_str(&self) -> (s: &str)
        ensures
            s.spec_bytes() == self.bytes_spec(),
    {
        (*self).as_str()
    }

    fn duplicate(&self) -> (r: Self)
        ensures
            r == *self,
    {
        *self
    }
}

impl<'a> AsStr for &'a str {
    open spec fn bytes_spec(&self) -> Seq<u8> {
        (*self).spec_bytes()
    }

    fn as_str(&self) -> (s: &str)
        ensures
            s.spec_bytes() == self.bytes_spec(),
    {
        *self
    }

    fn duplicate(&self) -> (r: Self)
        ensures
            r == *self,
    {
        *self
    }
}

} // verus!
