//! What a high-pass filter is made with.

use crate::audio::sample_format::{MaFormat, SampleFormat, MA_FORMAT_F32, MA_FORMAT_S16};
use vstd::prelude::*;

verus! {

/// The formats that the filter takes: 16-bit integer and 32-bit floating point
/// samples. Any other format needs to be converted beforehand.
pub open spec fn is_hpf_format(format: MaFormat) -> bool {
    format == MA_FORMAT_S16 || format == MA_FORMAT_F32
}

/// Whether the filter takes samples of type `F`.
pub fn acceptable_hpf_format<F: SampleFormat>() -> (res: bool)
    ensures
        res == is_hpf_format(F::MA_FORMAT),
        res <==> F::MA_FORMAT == MA_FORMAT_S16 || F::MA_FORMAT == MA_FORMAT_F32,
{
    F::MA_FORMAT == MA_FORMAT_S16 || F::MA_FORMAT == MA_FORMAT_F32
}

/// What a high-pass filter is made with, beside its cutoff frequency.
pub struct HpfConfig {
    /// The sample format.
    pub format: MaFormat,
    /// The number of channels.
    pub channels: u32,
    /// The sample rate.
    pub sample_rate: u32,
    /// The order of the filter.
    pub order: u32,
}

/// What a high-pass filter is made with: it takes one channel of floating point
/// samples.
pub fn hpf_config<F: SampleFormat>(order: u32, sample_rate: u32) -> (cfg: HpfConfig)
    requires
        is_hpf_format(F::MA_FORMAT),
    ensures
        cfg == (HpfConfig { format: MA_FORMAT_F32, channels: 1, sample_rate, order }),
{
    HpfConfig { format: MA_FORMAT_F32, channels: 1, sample_rate, order }
}

} // verus!
