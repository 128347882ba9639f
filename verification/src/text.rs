//! Text made of ASCII bytes.
use vstd::prelude::*;

verus! {

/// Text made of the given ASCII bytes, by `String::from_utf8`, which
/// accepts them (ASCII is valid UTF-8) and decodes each byte to the
/// character of the same value.
#[verifier::external_body]
pub(crate) fn ascii_text(bytes: Vec<u8>) -> (t: String)
    requires
        forall|i: int| 0 <= i < bytes@.len() ==> bytes@[i] < 128,
    ensures
        t@ == bytes@.map_values(|b: u8| b as char),
{
    match String::from_utf8(bytes) {
        Ok(t) => t,
        Err(_) => String::new(),
    }
}

} // verus!
