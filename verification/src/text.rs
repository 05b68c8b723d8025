//! UTF-8 validation and conversion.
//!
//! Keys are raw bytes out of the buffer and the summary is assembled as
//! bytes; the standard library checks UTF-8 validity and carries the bytes
//! into a `String`. Both calls are specified against vstd's UTF-8 model.

use vstd::prelude::*;

verus! {

use vstd::utf8::valid_utf8;
use vstd::utf8::decode_utf8;

/// Relies on `core::str::from_utf8`, which succeeds exactly on valid UTF-8.
#[verifier::external_body]
pub(crate) fn utf8_check(v: &Vec<u8>) -> (r: bool)
    ensures
        r == valid_utf8(v@),
{
    core::str::from_utf8(v.as_slice()).is_ok()
}

/// Relies on `String::from_utf8`, which on valid UTF-8 returns the string
/// whose characters decode those bytes.
#[verifier::external_body]
pub(crate) fn utf8_to_string(v: Vec<u8>) -> (r: String)
    requires
        valid_utf8(v@),
    ensures
        r@ == decode_utf8(v@),
{
    match String::from_utf8(v) {
        Ok(s) => s,
        Err(_) => String::new(),
    }
}

} // verus!
