//! Kinds of devices, and what a device is opened with.

use crate::audio::device_config::{CaptureDeviceConfig, DuplexDeviceConfig, PlaybackDeviceConfig};
use crate::audio::private::Sealed;
use crate::audio::sample_format::{MaFormat, SampleFormat};
use std::marker::PhantomData;
use vstd::prelude::*;

verus! {

/// Code of a device type.
pub type MaDeviceType = u32;

/// A device that plays.
pub const MA_DEVICE_TYPE_PLAYBACK: u32 = 1;

/// A device that records.
pub const MA_DEVICE_TYPE_CAPTURE: u32 = 2;

/// A device that plays and records.
pub const MA_DEVICE_TYPE_DUPLEX: u32 = 3;

/// Identifies a device to the backend that it belongs to. What the bytes mean
/// depends on the backend.
#[derive(Clone, Copy)]
pub struct MaDeviceId {
    /// The bytes of the identifier.
    pub bytes: [u8; 256],
}

/// What one direction of a device is opened with.
pub struct MaDirectionConfig {
    /// The device, or none for the default device.
    pub device_id: Option<MaDeviceId>,
    /// The sample format.
    pub format: MaFormat,
    /// The number of channels.
    pub channels: u32,
}

/// What a device is opened with.
pub struct MaDeviceConfig {
    /// The type of the device.
    pub device_type: MaDeviceType,
    /// The sample rate.
    pub sample_rate: u32,
    /// The number of frames that are handed over at a time.
    pub period_size_in_frames: u32,
    /// The direction that plays.
    pub playback: MaDirectionConfig,
    /// The direction that records.
    pub capture: MaDirectionConfig,
}

/// Something that configures a device.
pub trait ApplyConfig {
    /// What it makes of a configuration.
    spec fn applied(&self, cfg: MaDeviceConfig) -> MaDeviceConfig;

    /// Applies it to a configuration.
    fn apply(&self, cfg: &mut MaDeviceConfig)
        ensures
            *final(cfg) == self.applied(*old(cfg)),
            final(cfg).device_type == old(cfg).device_type,
    ;
}

/// Marks what belongs to a device that plays.
#[derive(Debug, Clone, Copy)]
pub struct DirPlayback;

/// Marks what belongs to a device that records.
#[derive(Debug, Clone, Copy)]
pub struct DirCapture;

/// Identifies a device of one direction.
pub struct DeviceId<Dir>(pub(crate) MaDeviceId, PhantomData<Dir>);

impl<Dir> Clone for DeviceId<Dir> {
    fn clone(&self) -> (res: Self)
        ensures
            res@ == self@,
    {
        DeviceId(self.0, PhantomData)
    }
}

impl<Dir> Copy for DeviceId<Dir> {

}

impl<Dir> View for DeviceId<Dir> {
    type V = MaDeviceId;

    closed spec fn view(&self) -> MaDeviceId {
        self.0
    }
}

impl<Dir> DeviceId<Dir> {
    /// The identifier that the backend knows.
    pub fn raw(&self) -> (id: MaDeviceId)
        ensures
            id == self@,
    {
        self.0
    }

    /// What stands for the identifier in debug output.
    pub fn debug_label(&self) -> (label: &'static str)
        ensures
            label@ == "[DeviceId]"@,
    {
        // can't really do better here, what is inside depends on the backend
        "[DeviceId]"
    }
}

impl DeviceId<DirPlayback> {
    /// Identifies a device that plays.
    pub(crate) fn from(v: MaDeviceId) -> (id: Self)
        ensures
            id@ == v,
    {
        DeviceId(v, PhantomData)
    }
}

impl DeviceId<DirCapture> {
    /// Identifies a device that records.
    pub(crate) fn from(v: MaDeviceId) -> (id: Self)
        ensures
            id@ == v,
    {
        DeviceId(v, PhantomData)
    }
}

/// A kind of device.
pub trait DeviceSpec: Sealed {
    /// The device type that the default configuration is made for.
    const MA_DEVICE_TYPE: MaDeviceType;

    /// What configures such a device.
    type Options: ApplyConfig;

    /// What processes the samples of such a device.
    type Callback: Send + 'static;
}

/// A device that plays, the callback of which fills in samples.
pub struct Playback<P: SampleFormat, CB: FnMut(&mut [P]) + Send + 'static> {
    _phantom: PhantomData<(P, CB)>,
}

/// A device that records, the callback of which is handed samples.
pub struct Capture<C: SampleFormat, CB: FnMut(&[C]) + Send + 'static> {
    _phantom: PhantomData<(C, CB)>,
}

/// A device that plays and records.
pub struct Duplex<P: SampleFormat, C: SampleFormat, CB: FnMut(&mut [P], &[C]) + Send + 'static> {
    _phantom: PhantomData<(P, C, CB)>,
}

impl<P, CB> Sealed for Playback<P, CB> where
    P: SampleFormat,
    CB: FnMut(&mut [P]) + Send + 'static,
 {

}

impl<P, CB> DeviceSpec for Playback<P, CB> where
    P: SampleFormat,
    CB: FnMut(&mut [P]) + Send + 'static,
 {
    const MA_DEVICE_TYPE: MaDeviceType = MA_DEVICE_TYPE_PLAYBACK;

    type Options = PlaybackDeviceConfig<P>;

    type Callback = CB;
}

impl<C, CB> Sealed for Capture<C, CB> where C: SampleFormat, CB: FnMut(&[C]) + Send + 'static {

}

impl<C, CB> DeviceSpec for Capture<C, CB> where
    C: SampleFormat,
    CB: FnMut(&[C]) + Send + 'static,
 {
    const MA_DEVICE_TYPE: MaDeviceType = MA_DEVICE_TYPE_CAPTURE;

    type Options = CaptureDeviceConfig<C>;

    type Callback = CB;
}

impl<P, C, CB> Sealed for Duplex<P, C, CB> where
    P: SampleFormat,
    C: SampleFormat,
    CB: FnMut(&mut [P], &[C]) + Send + 'static,
 {

}

impl<P, C, CB> DeviceSpec for Duplex<P, C, CB> where
    P: SampleFormat,
    C: SampleFormat,
    CB: FnMut(&mut [P], &[C]) + Send + 'static,
 {
    const MA_DEVICE_TYPE: MaDeviceType = MA_DEVICE_TYPE_DUPLEX;

    type Options = DuplexDeviceConfig<P, C>;

    type Callback = CB;
}

/// The device type of each kind of device.
pub proof fn law_device_types<P, C, PCB, CCB, DCB>()
    where
        P: SampleFormat,
        C: SampleFormat,
        PCB: FnMut(&mut [P]) + Send + 'static,
        CCB: FnMut(&[C]) + Send + 'static,
        DCB: FnMut(&mut [P], &[C]) + Send + 'static,
    ensures
        <Playback<P, PCB> as DeviceSpec>::MA_DEVICE_TYPE == MA_DEVICE_TYPE_PLAYBACK,
        <Capture<C, CCB> as DeviceSpec>::MA_DEVICE_TYPE == MA_DEVICE_TYPE_CAPTURE,
        <Duplex<P, C, DCB> as DeviceSpec>::MA_DEVICE_TYPE == MA_DEVICE_TYPE_DUPLEX,
{
}

/// The configuration that a device of kind `M` is opened with: `init`, the
/// default of the backend for its device type, with the options applied.
pub fn opening_config<M: DeviceSpec>(init: MaDeviceConfig, opt: &M::Options) -> (cfg:
    MaDeviceConfig)
    requires
        init.device_type == M::MA_DEVICE_TYPE,
    ensures
        cfg == opt.applied(init),
        cfg.device_type == M::MA_DEVICE_TYPE,
{
    let mut cfg = init;
    opt.apply(&mut cfg);
    cfg
}

/// Number of samples in `frame_count` frames of `channels` channels.
pub fn sample_count(frame_count: u32, channels: u32) -> (count: usize)
    requires
        frame_count * channels <= usize::MAX,
    ensures
        count == frame_count * channels,
{
    frame_count as usize * channels as usize
}

} // verus!
