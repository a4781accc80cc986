//! The calls this library makes into `std` and into the `uuid` crate,
//! with the contracts they are trusted to meet.
use vstd::prelude::*;

verus! {

/// `String::push` appends the character `c` at the end of `s`.
#[verifier::external_body]
pub(crate) fn push_char(s: &mut String, c: char)
    ensures
        final(s)@ == old(s)@.push(c),
{
    s.push(c);
}

/// `uuid::Uuid::new_v4` draws a random identifier; it is handed back as the
/// 128-bit number that `Uuid::as_u128` gives. The crate sets the version
/// nibble (bits 76..80) to 4 and the variant bits (62..64) to `0b10`; the
/// remaining bits come from the operating system's random source and are
/// not stated, nor is it stated that two calls differ. Should the operating
/// system refuse random bytes, the crate panics.
#[verifier::external_body]
pub(crate) fn random_port_id() -> (id: u128)
    ensures
        (id >> 76u128) & 0xfu128 == 4,
        (id >> 62u128) & 0x3u128 == 2,
{
    uuid::Uuid::new_v4().as_u128()
}

} // verus!
