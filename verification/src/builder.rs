//! The growable buffer in which paths are put together: up to three digits
//! are held in place, longer paths move to the heap.

use vstd::prelude::*;
use vstd::slice::slice_to_vec;
use tinyvec::TinyVec;

verus! {

/// A path under construction, held in a `tinyvec::TinyVec`.
#[verifier::external_body]
pub struct Builder {
    digits: TinyVec<[u32; 3]>,
}

/// The digits that a builder holds, in order.
pub uninterp spec fn digits_of(builder: Builder) -> Seq<u32>;

impl View for Builder {
    type V = Seq<u32>;

    open spec fn view(&self) -> Seq<u32> {
        digits_of(*self)
    }
}

impl Builder {
    /// `TinyVec::from` on a slice: a builder that holds the digits of the
    /// slice.
    #[verifier::external_body]
    pub(crate) fn from_digits(digits: &[u32]) -> (builder: Builder)
        ensures
            digits_of(builder) == digits@,
    {
        Builder { digits: TinyVec::from(digits) }
    }

    /// `TinyVec::push`: the digit is added at the end.
    #[verifier::external_body]
    pub(crate) fn push(&mut self, digit: u32)
        ensures
            digits_of(*final(self)) == digits_of(*old(self)).push(digit),
    {
        self.digits.push(digit)
    }

    /// `TinyVec::truncate`: keeps the first `len` digits, or all of them
    /// where the builder holds no more than `len`.
    #[verifier::external_body]
    pub(crate) fn truncate(&mut self, len: usize)
        ensures
            digits_of(*final(self)) == (if len < digits_of(*old(self)).len() {
                digits_of(*old(self)).take(len as int)
            } else {
                digits_of(*old(self))
            }),
    {
        self.digits.truncate(len)
    }

    /// `TinyVec::as_slice`: the digits of the builder as a slice.
    #[verifier::external_body]
    pub(crate) fn as_slice(&self) -> (digits: &[u32])
        ensures
            digits@ == digits_of(*self),
    {
        self.digits.as_slice()
    }

    /// A builder that holds the digits of `digits`.
    pub fn with_digits(digits: &[u32]) -> (builder: Builder)
        ensures
            builder@ == digits@,
    {
        Builder::from_digits(digits)
    }

    /// The digits of the path built so far.
    pub fn digits(&self) -> (digits: Vec<u32>)
        ensures
            digits@ == self@,
    {
        slice_to_vec(self.as_slice())
    }

    /// The number of digits of the path built so far.
    pub fn len(&self) -> (len: usize)
        ensures
            len == self@.len(),
    {
        self.as_slice().len()
    }
}

} // verus!
