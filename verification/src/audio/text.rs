//! Text as the backend has it: bytes that a zero byte ends.

use vstd::prelude::*;
use vstd::slice::slice_subrange;
use vstd::utf8::{decode_utf8, valid_utf8};

verus! {

/// The text that [`String::from_utf8_lossy`] makes of bytes.
pub uninterp spec fn lossy_text(bytes: Seq<u8>) -> Seq<char>;

/// Calls [`String::from_utf8_lossy`]. The text is a function of the bytes
/// alone, and for valid UTF-8 it is what the bytes encode; what it looks like
/// for other bytes is left unsaid.
#[verifier::external_body]
pub(crate) fn from_utf8_lossy(bytes: &[u8]) -> (text: String)
    ensures
        text@ == lossy_text(bytes@),
        valid_utf8(bytes@) ==> text@ == decode_utf8(bytes@),
{
    String::from_utf8_lossy(bytes).into_owned()
}

/// Calls [`core::str::from_utf8`]. It takes valid UTF-8 and nothing else, and
/// the text is what the bytes encode.
#[verifier::external_body]
pub(crate) fn from_utf8<'a>(bytes: &'a [u8]) -> (text: Option<&'a str>)
    ensures
        text is Some <==> valid_utf8(bytes@),
        text matches Some(t) ==> t@ == decode_utf8(bytes@),
{
    core::str::from_utf8(bytes).ok()
}

/// The bytes before the first zero byte.
pub open spec fn before_nul(bytes: Seq<u8>) -> Seq<u8>
    decreases bytes.len(),
{
    if bytes.len() == 0 || bytes[0] == 0 {
        Seq::empty()
    } else {
        seq![bytes[0]] + before_nul(bytes.skip(1))
    }
}

/// A text is all the bytes up to the first zero byte, or all the bytes there are
/// where there is none.
pub proof fn law_text_ends_at_the_first_zero_byte(bytes: Seq<u8>, len: int)
    requires
        0 <= len <= bytes.len(),
        forall|i: int| 0 <= i < len ==> bytes[i] != 0,
        len < bytes.len() ==> bytes[len] == 0,
    ensures
        before_nul(bytes) == bytes.take(len),
    decreases len,
{
    if len == 0 {
        assert(bytes.take(0) =~= Seq::empty());
    } else {
        law_text_ends_at_the_first_zero_byte(bytes.skip(1), len - 1);
        assert(bytes.take(len) =~= seq![bytes[0]] + bytes.skip(1).take(len - 1));
    }
}

/// The bytes before the first zero byte.
pub fn c_str_bytes(bytes: &[u8]) -> (text: &[u8])
    ensures
        text@ == before_nul(bytes@),
        forall|len: int|
            0 <= len <= bytes@.len() && (forall|i: int| 0 <= i < len ==> bytes@[i] != 0) && (len
                == bytes@.len() || bytes@[len] == 0) ==> text@ == #[trigger] bytes@.take(len),
{
    let mut len: usize = 0;
    while len < bytes.len() && bytes[len] != 0
        invariant
            len <= bytes@.len(),
            forall|i: int| 0 <= i < len ==> bytes@[i] != 0,
        decreases bytes@.len() - len,
    {
        len = len + 1;
    }
    proof {
        assert forall|n: int|
            0 <= n <= bytes@.len() && (forall|i: int| 0 <= i < n ==> bytes@[i] != 0) && (n
                == bytes@.len() || bytes@[n] == 0) implies before_nul(bytes@)
            == #[trigger] bytes@.take(n) by {
            law_text_ends_at_the_first_zero_byte(bytes@, n);
        }
        law_text_ends_at_the_first_zero_byte(bytes@, len as int);
        assert(bytes@.take(len as int) =~= bytes@.subrange(0, len as int));
    }
    slice_subrange(bytes, 0, len)
}

} // verus!
