//! The random draws that replacements are made of.

use crate::json::is_alphanumeric;
use rand::Rng;
use vstd::prelude::*;

verus! {

/// `rand::random` draws a value from the thread-local generator by the
/// `Standard` distribution. Nothing is claimed of the value drawn: for the
/// integer types every value of the type can come back. The call panics only
/// where the system cannot seed the generator of the thread.
pub assume_specification<T>[ rand::random::<T> ]() -> (value: T) where
    rand::distributions::Standard: rand::distributions::Distribution<T>,
;

/// `String::push` appends one character to the end of the string.
pub assume_specification[ std::string::String::push ](s: &mut std::string::String, c: char)
    ensures
        final(s)@ == old(s)@.push(c),
;

/// Draws one byte with `Rng::sample` from the `Alphanumeric` distribution on
/// the thread-local generator. The distribution picks from the 62 ASCII
/// letters and digits, so the byte is the code of an alphanumeric character.
/// It draws six bits until they name one of the 62, which every try does
/// with a chance of 62 in 64. The call panics only where the system cannot
/// seed the generator of the thread.
#[verifier::external_body]
pub(crate) fn random_alphanumeric() -> (code: u8)
    ensures
        is_alphanumeric(code as char),
{
    rand::thread_rng().sample(rand::distributions::Alphanumeric)
}

} // verus!
