//! Functions of the standard library which are taken on trust.
use std::rc::Rc;
use std::time::Instant;
use vstd::prelude::*;

verus! {

/// A moment of the monotonic clock.
#[verifier::external_type_specification]
#[verifier::external_body]
pub struct ExInstant(std::time::Instant);

/// The text which `String::from_utf8_lossy` reads from `bytes`.
pub uninterp spec fn lossy_text(bytes: Seq<u8>) -> Seq<char>;

/// `String::from_utf8_lossy`: bytes which are no UTF-8 are replaced, all others are decoded.
#[verifier::external_body]
pub(crate) fn from_utf8_lossy(bytes: &[u8]) -> (text: String)
    ensures
        text@ == lossy_text(bytes@),
        vstd::utf8::valid_utf8(bytes@) ==> text@ == vstd::utf8::decode_utf8(bytes@),
{
    String::from_utf8_lossy(bytes).into_owned()
}

/// `Rc::clone`: another pointer to the same value.
#[verifier::external_body]
pub(crate) fn share<T>(pointer: &Rc<T>) -> (other: Rc<T>)
    ensures
        other == *pointer,
{
    Rc::clone(pointer)
}

/// `Instant::now`: the current moment, of which nothing is known.
#[verifier::external_body]
pub(crate) fn now() -> (moment: Instant) {
    Instant::now()
}

/// `Instant::elapsed`, in nanoseconds: the time since `moment`, of which nothing is known.
#[verifier::external_body]
pub(crate) fn elapsed(moment: &Instant) -> (nanoseconds: u128) {
    moment.elapsed().as_nanos()
}

} // verus!
