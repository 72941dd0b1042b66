//! Device configuration: what is set explicitly is applied, the rest is left at
//! the default of the backend.

use crate::audio::device::{
    ApplyConfig, DeviceId, DirCapture, DirPlayback, MaDeviceConfig, MaDeviceId, MaDirectionConfig,
};
use crate::audio::sample_format::SampleFormat;
use std::marker::PhantomData;
use vstd::prelude::*;

verus! {

/// Options shared between all device types.
pub struct GeneralOptions {
    sample_rate: Option<u32>,
    frame_length: Option<u32>,
}

/// What is set of the options shared between all device types.
pub struct GeneralView {
    /// The sample rate.
    pub sample_rate: Option<u32>,
    /// The number of frames handed over at a time.
    pub frame_length: Option<u32>,
}

impl View for GeneralOptions {
    type V = GeneralView;

    closed spec fn view(&self) -> GeneralView {
        GeneralView { sample_rate: self.sample_rate, frame_length: self.frame_length }
    }
}

impl GeneralOptions {
    /// Sets the sample rate.
    pub fn sample_rate(&mut self, v: u32) -> (res: &mut Self)
        ensures
            res@ == (GeneralView { sample_rate: Some(v), ..old(self)@ }),
            final(self)@ == final(res)@,
    {
        self.sample_rate = Some(v);
        self
    }

    /// Sets the number of frames handed over at a time.
    pub fn frame_length(&mut self, v: u32) -> (res: &mut Self)
        ensures
            res@ == (GeneralView { frame_length: Some(v), ..old(self)@ }),
            final(self)@ == final(res)@,
    {
        self.frame_length = Some(v);
        self
    }
}

impl Default for GeneralOptions {
    /// Nothing is set.
    fn default() -> (res: Self)
        ensures
            res@ == (GeneralView { sample_rate: None, frame_length: None }),
    {
        GeneralOptions { sample_rate: None, frame_length: None }
    }
}

/// The value that is set, or else the one from before.
pub open spec fn or_before<V>(set: Option<V>, before: V) -> V {
    match set {
        Some(v) => v,
        None => before,
    }
}

impl GeneralView {
    /// What the options make of a configuration.
    pub open spec fn applied(self, cfg: MaDeviceConfig) -> MaDeviceConfig {
        MaDeviceConfig {
            sample_rate: or_before(self.sample_rate, cfg.sample_rate),
            period_size_in_frames: or_before(self.frame_length, cfg.period_size_in_frames),
            ..cfg
        }
    }
}

impl ApplyConfig for GeneralOptions {
    open spec fn applied(&self, cfg: MaDeviceConfig) -> MaDeviceConfig {
        self@.applied(cfg)
    }

    fn apply(&self, cfg: &mut MaDeviceConfig) {
        if let Some(v) = self.sample_rate {
            cfg.sample_rate = v;
        }
        if let Some(v) = self.frame_length {
            cfg.period_size_in_frames = v;
        }
    }
}

/// Options specific to a playback or capture device.
pub struct DirectionalOptions<F: SampleFormat, R> {
    _phantom: PhantomData<(F, R)>,
    channel_count: Option<u32>,
    device_id: Option<DeviceId<R>>,
}

/// What is set of the options specific to a direction.
pub struct DirectionalView {
    /// The number of channels.
    pub channel_count: Option<u32>,
    /// The device.
    pub device_id: Option<MaDeviceId>,
}

impl<F: SampleFormat, D> View for DirectionalOptions<F, D> {
    type V = DirectionalView;

    closed spec fn view(&self) -> DirectionalView {
        DirectionalView {
            channel_count: self.channel_count,
            device_id: match self.device_id {
                Some(id) => Some(id@),
                None => None,
            },
        }
    }
}

impl<F: SampleFormat, D> DirectionalOptions<F, D> {
    /// Sets the number of channels.
    pub fn channel_count(&mut self, v: u32) -> (res: &mut Self)
        ensures
            res@ == (DirectionalView { channel_count: Some(v), ..old(self)@ }),
            final(self)@ == final(res)@,
    {
        self.channel_count = Some(v);
        self
    }

    /// Sets the device.
    pub fn device_id(&mut self, v: DeviceId<D>) -> (res: &mut Self)
        ensures
            res@ == (DirectionalView { device_id: Some(v@), ..old(self)@ }),
            final(self)@ == final(res)@,
    {
        self.device_id = Some(v);
        self
    }
}

impl DirectionalView {
    /// What the options make of the configuration of a direction with samples
    /// of format `format`.
    pub open spec fn applied(self, format: u32, cfg: MaDirectionConfig) -> MaDirectionConfig {
        MaDirectionConfig {
            format,
            channels: or_before(self.channel_count, cfg.channels),
            device_id: match self.device_id {
                Some(id) => Some(id),
                None => cfg.device_id,
            },
        }
    }
}

impl<F: SampleFormat> Default for DirectionalOptions<F, DirCapture> {
    /// Nothing is set.
    fn default() -> (res: Self)
        ensures
            res@ == (DirectionalView { channel_count: None, device_id: None }),
    {
        DirectionalOptions { _phantom: PhantomData, channel_count: None, device_id: None }
    }
}

impl<F: SampleFormat> Default for DirectionalOptions<F, DirPlayback> {
    /// Nothing is set.
    fn default() -> (res: Self)
        ensures
            res@ == (DirectionalView { channel_count: None, device_id: None }),
    {
        DirectionalOptions { _phantom: PhantomData, channel_count: None, device_id: None }
    }
}

impl<F: SampleFormat> ApplyConfig for DirectionalOptions<F, DirPlayback> {
    open spec fn applied(&self, cfg: MaDeviceConfig) -> MaDeviceConfig {
        MaDeviceConfig { playback: self@.applied(F::MA_FORMAT, cfg.playback), ..cfg }
    }

    fn apply(&self, cfg: &mut MaDeviceConfig) {
        cfg.playback.format = F::MA_FORMAT;
        if let Some(v) = self.channel_count {
            cfg.playback.channels = v;
        }
        if let Some(id) = self.device_id {
            cfg.playback.device_id = Some(id.raw());
        }
    }
}

impl<F: SampleFormat> ApplyConfig for DirectionalOptions<F, DirCapture> {
    open spec fn applied(&self, cfg: MaDeviceConfig) -> MaDeviceConfig {
        MaDeviceConfig { capture: self@.applied(F::MA_FORMAT, cfg.capture), ..cfg }
    }

    fn apply(&self, cfg: &mut MaDeviceConfig) {
        cfg.capture.format = F::MA_FORMAT;
        if let Some(v) = self.channel_count {
            cfg.capture.channels = v;
        }
        if let Some(id) = self.device_id {
            cfg.capture.device_id = Some(id.raw());
        }
    }
}

/// Configures a device that plays.
pub struct PlaybackDeviceConfig<PlaybackFormat: SampleFormat> {
    general: GeneralOptions,
    playback: DirectionalOptions<PlaybackFormat, DirPlayback>,
}

/// What is set for a device that plays.
pub struct PlaybackView {
    /// The options shared between all device types.
    pub general: GeneralView,
    /// The options of the direction that plays.
    pub playback: DirectionalView,
}

impl<P: SampleFormat> View for PlaybackDeviceConfig<P> {
    type V = PlaybackView;

    closed spec fn view(&self) -> PlaybackView {
        PlaybackView { general: self.general@, playback: self.playback@ }
    }
}

impl<P: SampleFormat> PlaybackDeviceConfig<P> {
    /// The options shared between all device types.
    pub fn general(&mut self) -> (res: &mut GeneralOptions)
        ensures
            res@ == old(self)@.general,
            final(self)@ == (PlaybackView { general: final(res)@, ..old(self)@ }),
    {
        &mut self.general
    }

    /// The options of the direction that plays.
    pub fn playback(&mut self) -> (res: &mut DirectionalOptions<P, DirPlayback>)
        ensures
            res@ == old(self)@.playback,
            final(self)@ == (PlaybackView { playback: final(res)@, ..old(self)@ }),
    {
        &mut self.playback
    }
}

impl<P: SampleFormat> Default for PlaybackDeviceConfig<P> {
    /// Nothing is set.
    fn default() -> (res: Self)
        ensures
            res@ == (PlaybackView {
                general: GeneralView { sample_rate: None, frame_length: None },
                playback: DirectionalView { channel_count: None, device_id: None },
            }),
    {
        PlaybackDeviceConfig {
            general: GeneralOptions::default(),
            playback: DirectionalOptions::<P, DirPlayback>::default(),
        }
    }
}

impl<P: SampleFormat> ApplyConfig for PlaybackDeviceConfig<P> {
    open spec fn applied(&self, cfg: MaDeviceConfig) -> MaDeviceConfig {
        self@.general.applied(
            MaDeviceConfig {
                playback: self@.playback.applied(P::MA_FORMAT, cfg.playback),
                ..cfg
            },
        )
    }

    fn apply(&self, cfg: &mut MaDeviceConfig) {
        self.playback.apply(cfg);
        self.general.apply(cfg);
    }
}

/// Configures a device that records.
pub struct CaptureDeviceConfig<CaptureFormat: SampleFormat> {
    general: GeneralOptions,
    capture: DirectionalOptions<CaptureFormat, DirCapture>,
}

/// What is set for a device that records.
pub struct CaptureView {
    /// The options shared between all device types.
    pub general: GeneralView,
    /// The options of the direction that records.
    pub capture: DirectionalView,
}

impl<C: SampleFormat> View for CaptureDeviceConfig<C> {
    type V = CaptureView;

    closed spec fn view(&self) -> CaptureView {
        CaptureView { general: self.general@, capture: self.capture@ }
    }
}

impl<C: SampleFormat> CaptureDeviceConfig<C> {
    /// The options shared between all device types.
    pub fn general(&mut self) -> (res: &mut GeneralOptions)
        ensures
            res@ == old(self)@.general,
            final(self)@ == (CaptureView { general: final(res)@, ..old(self)@ }),
    {
        &mut self.general
    }

    /// The options of the direction that records.
    pub fn capture(&mut self) -> (res: &mut DirectionalOptions<C, DirCapture>)
        ensures
            res@ == old(self)@.capture,
            final(self)@ == (CaptureView { capture: final(res)@, ..old(self)@ }),
    {
        &mut self.capture
    }
}

impl<C: SampleFormat> Default for CaptureDeviceConfig<C> {
    /// Nothing is set.
    fn default() -> (res: Self)
        ensures
            res@ == (CaptureView {
                general: GeneralView { sample_rate: None, frame_length: None },
                capture: DirectionalView { channel_count: None, device_id: None },
            }),
    {
        CaptureDeviceConfig {
            general: GeneralOptions::default(),
            capture: DirectionalOptions::<C, DirCapture>::default(),
        }
    }
}

impl<C: SampleFormat> ApplyConfig for CaptureDeviceConfig<C> {
    open spec fn applied(&self, cfg: MaDeviceConfig) -> MaDeviceConfig {
        self@.general.applied(
            MaDeviceConfig { capture: self@.capture.applied(C::MA_FORMAT, cfg.capture), ..cfg },
        )
    }

    fn apply(&self, cfg: &mut MaDeviceConfig) {
        self.capture.apply(cfg);
        self.general.apply(cfg);
    }
}

/// Configures a device that plays and records.
pub struct DuplexDeviceConfig<PlaybackFormat: SampleFormat, CaptureFormat: SampleFormat> {
    general: GeneralOptions,
    capture: DirectionalOptions<CaptureFormat, DirCapture>,
    playback: DirectionalOptions<PlaybackFormat, DirPlayback>,
}

/// What is set for a device that plays and records.
pub struct DuplexView {
    /// The options shared between all device types.
    pub general: GeneralView,
    /// The options of the direction that records.
    pub capture: DirectionalView,
    /// The options of the direction that plays.
    pub playback: DirectionalView,
}

impl<P: SampleFormat, C: SampleFormat> View for DuplexDeviceConfig<P, C> {
    type V = DuplexView;

    closed spec fn view(&self) -> DuplexView {
        DuplexView {
            general: self.general@,
            capture: self.capture@,
            playback: self.playback@,
        }
    }
}

impl<P: SampleFormat, C: SampleFormat> DuplexDeviceConfig<P, C> {
    /// The options shared between all device types.
    pub fn general(&mut self) -> (res: &mut GeneralOptions)
        ensures
            res@ == old(self)@.general,
            final(self)@ == (DuplexView { general: final(res)@, ..old(self)@ }),
    {
        &mut self.general
    }

    /// The options of the direction that plays.
    pub fn playback(&mut self) -> (res: &mut DirectionalOptions<P, DirPlayback>)
        ensures
            res@ == old(self)@.playback,
            final(self)@ == (DuplexView { playback: final(res)@, ..old(self)@ }),
    {
        &mut self.playback
    }

    /// The options of the direction that records.
    pub fn capture(&mut self) -> (res: &mut DirectionalOptions<C, DirCapture>)
        ensures
            res@ == old(self)@.capture,
            final(self)@ == (DuplexView { capture: final(res)@, ..old(self)@ }),
    {
        &mut self.capture
    }
}

impl<P: SampleFormat, C: SampleFormat> Default for DuplexDeviceConfig<P, C> {
    /// Nothing is set.
    fn default() -> (res: Self)
        ensures
            res@ == (DuplexView {
                general: GeneralView { sample_rate: None, frame_length: None },
                capture: DirectionalView { channel_count: None, device_id: None },
                playback: DirectionalView { channel_count: None, device_id: None },
            }),
    {
        DuplexDeviceConfig {
            general: GeneralOptions::default(),
            capture: DirectionalOptions::<C, DirCapture>::default(),
            playback: DirectionalOptions::<P, DirPlayback>::default(),
        }
    }
}

impl<P: SampleFormat, C: SampleFormat> ApplyConfig for DuplexDeviceConfig<P, C> {
    open spec fn applied(&self, cfg: MaDeviceConfig) -> MaDeviceConfig {
        self@.general.applied(
            MaDeviceConfig {
                playback: self@.playback.applied(P::MA_FORMAT, cfg.playback),
                capture: self@.capture.applied(C::MA_FORMAT, cfg.capture),
                ..cfg
            },
        )
    }

    fn apply(&self, cfg: &mut MaDeviceConfig) {
        self.general.apply(cfg);
        self.playback.apply(cfg);
        self.capture.apply(cfg);
    }
}

/// A device that plays and for which nothing is set is opened with the default
/// of the backend, but for the sample format.
pub proof fn law_default_playback_keeps_backend_default<P: SampleFormat>(
    opt: PlaybackDeviceConfig<P>,
    cfg: MaDeviceConfig,
)
    requires
        opt@ == (PlaybackView {
            general: GeneralView { sample_rate: None, frame_length: None },
            playback: DirectionalView { channel_count: None, device_id: None },
        }),
    ensures
        opt.applied(cfg) == (MaDeviceConfig {
            playback: MaDirectionConfig { format: P::MA_FORMAT, ..cfg.playback },
            ..cfg
        }),
{
}

/// A device that records and for which nothing is set is opened with the
/// default of the backend, but for the sample format.
pub proof fn law_default_capture_keeps_backend_default<C: SampleFormat>(
    opt: CaptureDeviceConfig<C>,
    cfg: MaDeviceConfig,
)
    requires
        opt@ == (CaptureView {
            general: GeneralView { sample_rate: None, frame_length: None },
            capture: DirectionalView { channel_count: None, device_id: None },
        }),
    ensures
        opt.applied(cfg) == (MaDeviceConfig {
            capture: MaDirectionConfig { format: C::MA_FORMAT, ..cfg.capture },
            ..cfg
        }),
{
}

/// A device that plays and records and for which nothing is set is opened with
/// the default of the backend, but for the sample formats.
pub proof fn law_default_duplex_keeps_backend_default<P: SampleFormat, C: SampleFormat>(
    opt: DuplexDeviceConfig<P, C>,
    cfg: MaDeviceConfig,
)
    requires
        opt@ == (DuplexView {
            general: GeneralView { sample_rate: None, frame_length: None },
            capture: DirectionalView { channel_count: None, device_id: None },
            playback: DirectionalView { channel_count: None, device_id: None },
        }),
    ensures
        opt.applied(cfg) == (MaDeviceConfig {
            playback: MaDirectionConfig { format: P::MA_FORMAT, ..cfg.playback },
            capture: MaDirectionConfig { format: C::MA_FORMAT, ..cfg.capture },
            ..cfg
        }),
{
}

/// The samples of a device have the format that its callback takes, and the type
/// of the device stays what the default was made for.
pub proof fn law_devices_have_the_format_of_their_callback<P: SampleFormat, C: SampleFormat>(
    playback: PlaybackDeviceConfig<P>,
    capture: CaptureDeviceConfig<C>,
    duplex: DuplexDeviceConfig<P, C>,
    cfg: MaDeviceConfig,
)
    ensures
        playback.applied(cfg).playback.format == P::MA_FORMAT,
        capture.applied(cfg).capture.format == C::MA_FORMAT,
        duplex.applied(cfg).playback.format == P::MA_FORMAT,
        duplex.applied(cfg).capture.format == C::MA_FORMAT,
        playback.applied(cfg).device_type == cfg.device_type,
        capture.applied(cfg).device_type == cfg.device_type,
        duplex.applied(cfg).device_type == cfg.device_type,
{
}

/// A device that plays is opened with each option that is set, as it is set, and
/// with the default of the backend for each that is not.
pub proof fn law_playback_options_are_applied<P: SampleFormat>(
    opt: PlaybackDeviceConfig<P>,
    cfg: MaDeviceConfig,
)
    ensures
        match opt@.general.sample_rate {
            Some(v) => opt.applied(cfg).sample_rate == v,
            None => opt.applied(cfg).sample_rate == cfg.sample_rate,
        },
        match opt@.general.frame_length {
            Some(v) => opt.applied(cfg).period_size_in_frames == v,
            None => opt.applied(cfg).period_size_in_frames == cfg.period_size_in_frames,
        },
        match opt@.playback.channel_count {
            Some(v) => opt.applied(cfg).playback.channels == v,
            None => opt.applied(cfg).playback.channels == cfg.playback.channels,
        },
        match opt@.playback.device_id {
            Some(id) => opt.applied(cfg).playback.device_id == Some(id),
            None => opt.applied(cfg).playback.device_id == cfg.playback.device_id,
        },
        opt.applied(cfg).playback.format == P::MA_FORMAT,
        opt.applied(cfg).capture == cfg.capture,
        opt.applied(cfg).device_type == cfg.device_type,
{
}

/// A device that records is opened with each option that is set, as it is set,
/// and with the default of the backend for each that is not.
pub proof fn law_capture_options_are_applied<C: SampleFormat>(
    opt: CaptureDeviceConfig<C>,
    cfg: MaDeviceConfig,
)
    ensures
        match opt@.general.sample_rate {
            Some(v) => opt.applied(cfg).sample_rate == v,
            None => opt.applied(cfg).sample_rate == cfg.sample_rate,
        },
        match opt@.general.frame_length {
            Some(v) => opt.applied(cfg).period_size_in_frames == v,
            None => opt.applied(cfg).period_size_in_frames == cfg.period_size_in_frames,
        },
        match opt@.capture.channel_count {
            Some(v) => opt.applied(cfg).capture.channels == v,
            None => opt.applied(cfg).capture.channels == cfg.capture.channels,
        },
        match opt@.capture.device_id {
            Some(id) => opt.applied(cfg).capture.device_id == Some(id),
            None => opt.applied(cfg).capture.device_id == cfg.capture.device_id,
        },
        opt.applied(cfg).capture.format == C::MA_FORMAT,
        opt.applied(cfg).playback == cfg.playback,
        opt.applied(cfg).device_type == cfg.device_type,
{
}

/// A device that plays and records is opened with each option that is set, as it
/// is set, and with the default of the backend for each that is not.
pub proof fn law_duplex_options_are_applied<P: SampleFormat, C: SampleFormat>(
    opt: DuplexDeviceConfig<P, C>,
    cfg: MaDeviceConfig,
)
    ensures
        match opt@.general.sample_rate {
            Some(v) => opt.applied(cfg).sample_rate == v,
            None => opt.applied(cfg).sample_rate == cfg.sample_rate,
        },
        match opt@.general.frame_length {
            Some(v) => opt.applied(cfg).period_size_in_frames == v,
            None => opt.applied(cfg).period_size_in_frames == cfg.period_size_in_frames,
        },
        match opt@.playback.channel_count {
            Some(v) => opt.applied(cfg).playback.channels == v,
            None => opt.applied(cfg).playback.channels == cfg.playback.channels,
        },
        match opt@.playback.device_id {
            Some(id) => opt.applied(cfg).playback.device_id == Some(id),
            None => opt.applied(cfg).playback.device_id == cfg.playback.device_id,
        },
        opt.applied(cfg).playback.format == P::MA_FORMAT,
        match opt@.capture.channel_count {
            Some(v) => opt.applied(cfg).capture.channels == v,
            None => opt.applied(cfg).capture.channels == cfg.capture.channels,
        },
        match opt@.capture.device_id {
            Some(id) => opt.applied(cfg).capture.device_id == Some(id),
            None => opt.applied(cfg).capture.device_id == cfg.capture.device_id,
        },
        opt.applied(cfg).capture.format == C::MA_FORMAT,
        opt.applied(cfg).device_type == cfg.device_type,
{
}

/// The options by themselves: each that is set is applied as it is set, and
/// nothing else changes.
pub proof fn law_parts_are_applied<P: SampleFormat, C: SampleFormat>(
    general: GeneralOptions,
    playback: DirectionalOptions<P, DirPlayback>,
    capture: DirectionalOptions<C, DirCapture>,
    cfg: MaDeviceConfig,
)
    ensures
        match general@.sample_rate {
            Some(v) => general.applied(cfg).sample_rate == v,
            None => general.applied(cfg).sample_rate == cfg.sample_rate,
        },
        match general@.frame_length {
            Some(v) => general.applied(cfg).period_size_in_frames == v,
            None => general.applied(cfg).period_size_in_frames == cfg.period_size_in_frames,
        },
        general.applied(cfg).playback == cfg.playback,
        general.applied(cfg).capture == cfg.capture,
        general.applied(cfg).device_type == cfg.device_type,
        match playback@.channel_count {
            Some(v) => playback.applied(cfg).playback.channels == v,
            None => playback.applied(cfg).playback.channels == cfg.playback.channels,
        },
        match playback@.device_id {
            Some(id) => playback.applied(cfg).playback.device_id == Some(id),
            None => playback.applied(cfg).playback.device_id == cfg.playback.device_id,
        },
        playback.applied(cfg).playback.format == P::MA_FORMAT,
        playback.applied(cfg) == (MaDeviceConfig {
            playback: playback.applied(cfg).playback,
            ..cfg
        }),
        match capture@.channel_count {
            Some(v) => capture.applied(cfg).capture.channels == v,
            None => capture.applied(cfg).capture.channels == cfg.capture.channels,
        },
        match capture@.device_id {
            Some(id) => capture.applied(cfg).capture.device_id == Some(id),
            None => capture.applied(cfg).capture.device_id == cfg.capture.device_id,
        },
        capture.applied(cfg).capture.format == C::MA_FORMAT,
        capture.applied(cfg) == (MaDeviceConfig { capture: capture.applied(cfg).capture, ..cfg }),
{
}

/// The parts of a configuration do not get in each other's way: it makes no
/// difference in which order they are applied.
pub proof fn law_parts_apply_in_any_order<P: SampleFormat, C: SampleFormat>(
    general: GeneralOptions,
    playback: DirectionalOptions<P, DirPlayback>,
    capture: DirectionalOptions<C, DirCapture>,
    cfg: MaDeviceConfig,
)
    ensures
        general.applied(playback.applied(cfg)) == playback.applied(general.applied(cfg)),
        general.applied(capture.applied(cfg)) == capture.applied(general.applied(cfg)),
        playback.applied(capture.applied(cfg)) == capture.applied(playback.applied(cfg)),
{
}

/// Applying a configuration again changes nothing.
pub proof fn law_apply_is_idempotent<P: SampleFormat, C: SampleFormat>(
    playback: PlaybackDeviceConfig<P>,
    capture: CaptureDeviceConfig<C>,
    duplex: DuplexDeviceConfig<P, C>,
    cfg: MaDeviceConfig,
)
    ensures
        playback.applied(playback.applied(cfg)) == playback.applied(cfg),
        capture.applied(capture.applied(cfg)) == capture.applied(cfg),
        duplex.applied(duplex.applied(cfg)) == duplex.applied(cfg),
{
}

} // verus!
