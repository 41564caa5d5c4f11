//! Conversion of borrowed text into an owned buffer of the default bound.

use crate::buffer::Yangon;
use crate::scan::last_boundary_at_most;
use vstd::prelude::*;
use vstd::utf8::encode_utf8;

verus! {

/// Turns a borrowed text value into an owned buffer.
#[allow(non_camel_case_types)]
pub trait yTrait {
    /// The buffer type the conversion builds.
    type Ygn;

    /// What the conversion promises of its result.
    spec fn to_yangon_post(&self, r: &Self::Ygn) -> bool;

    /// Builds the buffer holding this value's text.
    fn to_yangon(&self) -> (r: Self::Ygn)
        ensures
            self.to_yangon_post(&r),
    ;
}

impl yTrait for &str {
    type Ygn = Yangon<10240>;

    /// The conversion yields a well-formed buffer of the default bound that
    /// holds the text whole when it fits, and otherwise the text cut at the
    /// largest scalar boundary under the bound: a truncation, not an error.
    open spec fn to_yangon_post(&self, r: &Yangon<10240>) -> bool {
        &&& r.wf()
        &&& r.spec_capacity() == 10240nat
        &&& encode_utf8((*self)@).len() <= 10240 ==> r@ == encode_utf8((*self)@)
        &&& encode_utf8((*self)@).len() > 10240 ==> r@ == encode_utf8((*self)@).subrange(
            0,
            last_boundary_at_most(encode_utf8((*self)@), 10240),
        )
    }

    /// Builds a buffer of the default bound from the text, truncating at the
    /// largest scalar boundary that fits when the text is longer.
    fn to_yangon(&self) -> (r: Yangon<10240>) {
        Yangon::<10240>::from(*self)
    }
}

} // verus!
