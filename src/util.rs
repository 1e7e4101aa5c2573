use vstd::prelude::*;
use rand::Rng;

verus! {

/// A value that is one of two shapes.
pub enum Either<L, R> {
    Left(L),
    Right(R),
}

/// Relies on rand's `thread_rng().gen_range(0..n)`: a uniformly drawn index below `n`
/// (`gen_range` panics on an empty range, hence `n > 0`).
#[verifier::external_body]
pub(crate) fn random_below(n: usize) -> (r: usize)
    requires
        n > 0,
    ensures
        r < n,
{
    rand::thread_rng().gen_range(0..n)
}

/// Relies on `String::from_utf8`: `Ok` exactly when the bytes are valid UTF-8, holding
/// the characters they encode.
#[verifier::external_body]
pub(crate) fn string_from_utf8(bytes: Vec<u8>) -> (r: Option<String>)
    ensures
        r is Some <==> vstd::utf8::valid_utf8(bytes@),
        r is Some ==> r->0@ == vstd::utf8::decode_utf8(bytes@),
{
    String::from_utf8(bytes).ok()
}

/// Relies on chrono's `Local::now()`: the current time, as milliseconds since the Unix
/// epoch. Nothing is promised of its value.
#[verifier::external_body]
pub(crate) fn now_millis() -> u64 {
    chrono::Local::now().timestamp_millis() as u64
}

} // verus!
