//! Small string utilities on top of std, with contracts over character sequences.
use vstd::prelude::*;

verus! {

/// The characters of an ASCII byte sequence.
pub open spec fn ascii_chars(b: Seq<u8>) -> Seq<char> {
    b.map_values(|x: u8| x as char)
}

/// Relies on `String::from_utf8_lossy`: ASCII bytes are valid UTF-8 and each
/// decodes to the character with the same code.
#[verifier::external_body]
pub(crate) fn ascii_string(b: &[u8], start: usize, end: usize) -> (r: String)
    requires
        start <= end <= b@.len(),
        forall|i: int| start <= i < end ==> b@[i] < 128,
    ensures
        r@ == ascii_chars(b@.subrange(start as int, end as int)),
{
    String::from_utf8_lossy(&b[start..end]).into_owned()
}

} // verus!
