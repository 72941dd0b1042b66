//! Result codes.

use crate::audio::text::{before_nul, c_str_bytes, from_utf8};
use vstd::prelude::*;
use vstd::utf8::{decode_utf8, valid_utf8};

verus! {

/// Result code of a call into miniaudio.
pub type MaResult = i32;

/// The result code of a call that succeeded.
pub const MA_SUCCESS: i32 = 0;

/// An error of miniaudio.
#[derive(Debug)]
pub struct MaError(MaResult);

impl MaError {
    /// The result code that the error was made of.
    pub closed spec fn spec_code(&self) -> i32 {
        self.0
    }

    /// The result code that the error was made of.
    pub fn code(&self) -> (code: i32)
        ensures
            code == self.spec_code(),
    {
        self.0
    }

    /// What the error is about, in the words `raw` that miniaudio has for it.
    pub fn get_description(&self, raw: &[u8]) -> (text: String)
        ensures
            text@ == if valid_utf8(before_nul(raw@)) {
                decode_utf8(before_nul(raw@))
            } else {
                "unknown"@
            },
            // the words are all of the text up to the first zero byte
            forall|len: int|
                0 <= len <= raw@.len() && (forall|i: int| 0 <= i < len ==> raw@[i] != 0) && (len
                    == raw@.len() || raw@[len] == 0) ==> text@ == {
                    let words = #[trigger] raw@.take(len);
                    if valid_utf8(words) {
                        decode_utf8(words)
                    } else {
                        "unknown"@
                    }
                },
    {
        match from_utf8(c_str_bytes(raw)) {
            Some(text) => text.to_owned(),
            None => "unknown".to_owned(),
        }
    }
}

/// Turns result codes into results.
pub trait MaResultExt: Sized {
    /// The result code.
    spec fn result_code(self) -> i32;

    /// `Ok` for the code of success, the error for any other code.
    fn into_result(self) -> (res: Result<(), MaError>)
        ensures
            res is Ok <==> self.result_code() == MA_SUCCESS,
            res matches Err(e) ==> e.spec_code() == self.result_code(),
    ;
}

impl MaResultExt for i32 {
    open spec fn result_code(self) -> i32 {
        self
    }

    fn into_result(self) -> (res: Result<(), MaError>) {
        if self == MA_SUCCESS {
            Ok(())
        } else {
            Err(MaError(self))
        }
    }
}

} // verus!
