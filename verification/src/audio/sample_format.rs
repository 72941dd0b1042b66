//! Sample formats.

use crate::audio::private::Sealed;
use vstd::prelude::*;

verus! {

/// Code of a sample format.
pub type MaFormat = u32;

/// Unsigned 8-bit samples.
pub const MA_FORMAT_U8: u32 = 1;

/// Signed 16-bit samples.
pub const MA_FORMAT_S16: u32 = 2;

/// Signed 32-bit samples.
pub const MA_FORMAT_S32: u32 = 4;

/// 32-bit floating point samples.
pub const MA_FORMAT_F32: u32 = 5;

/// A type whose values are samples.
pub trait SampleFormat: 'static + Sealed + Default + Send + Copy {
    /// The code of the format.
    const MA_FORMAT: MaFormat;
}

/// A 32-bit floating point sample, by its bits.
#[derive(Clone, Copy, Debug, PartialEq, Eq, Structural)]
pub struct F32 {
    /// The sample in the binary32 format of IEEE 754.
    pub bits: u32,
}

impl Default for F32 {
    /// Silence.
    fn default() -> (res: Self)
        ensures
            res.bits == 0,
    {
        F32 { bits: 0 }
    }
}

impl Sealed for F32 {

}

impl Sealed for i16 {

}

impl Sealed for i32 {

}

impl Sealed for u8 {

}

impl SampleFormat for F32 {
    const MA_FORMAT: MaFormat = MA_FORMAT_F32;
}

impl SampleFormat for i16 {
    const MA_FORMAT: MaFormat = MA_FORMAT_S16;
}

impl SampleFormat for i32 {
    const MA_FORMAT: MaFormat = MA_FORMAT_S32;
}

impl SampleFormat for u8 {
    const MA_FORMAT: MaFormat = MA_FORMAT_U8;
}

/// The code of each format.
pub proof fn law_format_codes()
    ensures
        <F32 as SampleFormat>::MA_FORMAT == MA_FORMAT_F32,
        <i16 as SampleFormat>::MA_FORMAT == MA_FORMAT_S16,
        <i32 as SampleFormat>::MA_FORMAT == MA_FORMAT_S32,
        <u8 as SampleFormat>::MA_FORMAT == MA_FORMAT_U8,
{
}

} // verus!
