//! Sample formats, device configuration, device lists and error codes.

use orb::audio::context::{device_list, DeviceList, DeviceReply, MaDeviceInfo};
use orb::audio::device::{
    opening_config, sample_count, ApplyConfig, Capture, DeviceSpec, Duplex, MaDeviceConfig,
    MaDeviceId, MaDirectionConfig, Playback, MA_DEVICE_TYPE_CAPTURE, MA_DEVICE_TYPE_DUPLEX,
    MA_DEVICE_TYPE_PLAYBACK,
};
use orb::audio::device_config::{CaptureDeviceConfig, DuplexDeviceConfig, PlaybackDeviceConfig};
use orb::audio::error::MaResultExt;
use orb::audio::filter::{acceptable_hpf_format, hpf_config};
use orb::audio::sample_format::{
    SampleFormat, F32, MA_FORMAT_F32, MA_FORMAT_S16, MA_FORMAT_S32, MA_FORMAT_U8,
};
use orb::audio::text::c_str_bytes;

fn backend_default(device_type: u32) -> MaDeviceConfig {
    MaDeviceConfig {
        device_type,
        sample_rate: 11,
        period_size_in_frames: 12,
        playback: MaDirectionConfig {
            device_id: None,
            format: 0,
            channels: 13,
        },
        capture: MaDirectionConfig {
            device_id: None,
            format: 0,
            channels: 14,
        },
    }
}

fn id(first: u8) -> MaDeviceId {
    let mut bytes = [0; 256];
    bytes[0] = first;
    MaDeviceId { bytes }
}

fn info(first: u8, name: &[u8], is_default: u32) -> MaDeviceInfo {
    MaDeviceInfo {
        id: id(first),
        name: name.to_vec(),
        is_default,
    }
}

fn list(result: i32) -> Result<DeviceList, i32> {
    let reply = DeviceReply {
        result,
        playback: vec![
            info(1, b"Speakers\0rest", 0),
            info(2, b"Kopfh\xC3\xB6rer\0", 1),
            info(3, b"bad \xFF name\0", 2),
        ],
        capture: vec![info(4, b"", 1), info(5, b"Mic", 0)],
    };
    device_list(&reply).map_err(|e| e.code())
}

#[test]
fn result_codes() {
    assert!(0i32.into_result().is_ok());
    assert_eq!((-1i32).into_result().unwrap_err().code(), -1);
    assert_eq!((-102i32).into_result().unwrap_err().code(), -102);
    assert_eq!(7i32.into_result().unwrap_err().code(), 7);
}

#[test]
fn descriptions() {
    let e = (-2i32).into_result().unwrap_err();
    assert_eq!(e.get_description(b"Invalid argument\0junk"), "Invalid argument");
    assert_eq!(e.get_description(b"no end"), "no end");
    assert_eq!(e.get_description(b"\0"), "");
    assert_eq!(e.get_description(b"bad \xFF\0"), "unknown");
}

#[test]
fn c_strings_end_at_the_first_zero_byte() {
    assert_eq!(c_str_bytes(b"abc\0def\0"), b"abc");
    assert_eq!(c_str_bytes(b"abc"), b"abc");
    assert_eq!(c_str_bytes(b"\0abc"), b"");
    assert_eq!(c_str_bytes(b""), b"");
}

#[test]
fn formats_have_their_codes() {
    assert_eq!(<u8 as SampleFormat>::MA_FORMAT, MA_FORMAT_U8);
    assert_eq!(<i16 as SampleFormat>::MA_FORMAT, MA_FORMAT_S16);
    assert_eq!(<i32 as SampleFormat>::MA_FORMAT, MA_FORMAT_S32);
    assert_eq!(<F32 as SampleFormat>::MA_FORMAT, MA_FORMAT_F32);
    assert_eq!(
        [MA_FORMAT_U8, MA_FORMAT_S16, MA_FORMAT_S32, MA_FORMAT_F32],
        [1, 2, 4, 5]
    );
    assert_eq!(F32::default().bits, 0f32.to_bits());
}

#[test]
fn kinds_of_devices_have_their_types() {
    assert_eq!(
        <Playback<i16, fn(&mut [i16])> as DeviceSpec>::MA_DEVICE_TYPE,
        MA_DEVICE_TYPE_PLAYBACK
    );
    assert_eq!(
        <Capture<i16, fn(&[i16])> as DeviceSpec>::MA_DEVICE_TYPE,
        MA_DEVICE_TYPE_CAPTURE
    );
    assert_eq!(
        <Duplex<i16, u8, fn(&mut [i16], &[u8])> as DeviceSpec>::MA_DEVICE_TYPE,
        MA_DEVICE_TYPE_DUPLEX
    );
    assert_eq!(
        [
            MA_DEVICE_TYPE_PLAYBACK,
            MA_DEVICE_TYPE_CAPTURE,
            MA_DEVICE_TYPE_DUPLEX
        ],
        [1, 2, 3]
    );
}

#[test]
fn nothing_set_keeps_the_default_of_the_backend() {
    let mut cfg = backend_default(MA_DEVICE_TYPE_PLAYBACK);
    PlaybackDeviceConfig::<i16>::default().apply(&mut cfg);
    assert_eq!(cfg.device_type, MA_DEVICE_TYPE_PLAYBACK);
    assert_eq!(cfg.sample_rate, 11);
    assert_eq!(cfg.period_size_in_frames, 12);
    assert_eq!(cfg.playback.format, MA_FORMAT_S16);
    assert_eq!(cfg.playback.channels, 13);
    assert!(cfg.playback.device_id.is_none());
    assert_eq!(cfg.capture.format, 0);
    assert_eq!(cfg.capture.channels, 14);

    let mut cfg = backend_default(MA_DEVICE_TYPE_CAPTURE);
    CaptureDeviceConfig::<u8>::default().apply(&mut cfg);
    assert_eq!(cfg.sample_rate, 11);
    assert_eq!(cfg.period_size_in_frames, 12);
    assert_eq!(cfg.playback.format, 0);
    assert_eq!(cfg.capture.format, MA_FORMAT_U8);
    assert_eq!(cfg.capture.channels, 14);

    let mut cfg = backend_default(MA_DEVICE_TYPE_DUPLEX);
    DuplexDeviceConfig::<i32, F32>::default().apply(&mut cfg);
    assert_eq!(cfg.playback.format, MA_FORMAT_S32);
    assert_eq!(cfg.capture.format, MA_FORMAT_F32);
    assert_eq!(cfg.playback.channels, 13);
    assert_eq!(cfg.capture.channels, 14);
}

#[test]
fn what_is_set_is_applied() {
    let devices = list(0).unwrap();
    let mut opt = DuplexDeviceConfig::<i32, F32>::default();
    opt.general().sample_rate(48000).frame_length(480);
    opt.playback()
        .channel_count(2)
        .device_id(devices.playback_devices[1].device_id);
    opt.capture()
        .device_id(devices.capture_devices[0].device_id)
        .channel_count(1);

    let mut cfg = backend_default(MA_DEVICE_TYPE_DUPLEX);
    // once more makes no difference
    for _ in 0..2 {
        opt.apply(&mut cfg);
        assert_eq!(cfg.device_type, MA_DEVICE_TYPE_DUPLEX);
        assert_eq!(cfg.sample_rate, 48000);
        assert_eq!(cfg.period_size_in_frames, 480);
        assert_eq!(cfg.playback.channels, 2);
        assert_eq!(cfg.playback.device_id.unwrap().bytes, id(2).bytes);
        assert_eq!(cfg.capture.channels, 1);
        assert_eq!(cfg.capture.device_id.unwrap().bytes, id(4).bytes);
    }
}

#[test]
fn one_direction_leaves_the_other_alone() {
    let mut opt = CaptureDeviceConfig::<F32>::default();
    opt.general().frame_length(64);
    opt.capture().channel_count(6);
    let mut cfg = backend_default(MA_DEVICE_TYPE_CAPTURE);
    opt.apply(&mut cfg);
    assert_eq!(cfg.sample_rate, 11);
    assert_eq!(cfg.period_size_in_frames, 64);
    assert_eq!(cfg.capture.channels, 6);
    assert_eq!(cfg.playback.channels, 13);
    assert_eq!(cfg.playback.format, 0);
}

#[test]
fn last_value_that_is_set_counts() {
    let mut opt = PlaybackDeviceConfig::<u8>::default();
    opt.general().sample_rate(8000).sample_rate(16000);
    opt.playback().channel_count(1).channel_count(2);
    let mut cfg = backend_default(MA_DEVICE_TYPE_PLAYBACK);
    opt.apply(&mut cfg);
    assert_eq!(cfg.sample_rate, 16000);
    assert_eq!(cfg.playback.channels, 2);
}

#[test]
fn device_is_opened_with_its_options() {
    let mut opt = PlaybackDeviceConfig::<i16>::default();
    opt.general().sample_rate(44100);
    let cfg = opening_config::<Playback<i16, fn(&mut [i16])>>(
        backend_default(MA_DEVICE_TYPE_PLAYBACK),
        &opt,
    );
    assert_eq!(cfg.device_type, MA_DEVICE_TYPE_PLAYBACK);
    assert_eq!(cfg.sample_rate, 44100);
    assert_eq!(cfg.period_size_in_frames, 12);
    assert_eq!(cfg.playback.format, MA_FORMAT_S16);
}

#[test]
fn samples_of_frames() {
    assert_eq!(sample_count(480, 2), 960);
    assert_eq!(sample_count(0, 2), 0);
    assert_eq!(sample_count(1, 1), 1);
}

#[test]
fn devices_are_listed() {
    let devices = list(0).unwrap();
    let playback = &devices.playback_devices;
    assert_eq!(playback.len(), 3);
    assert_eq!(playback[0].name, "Speakers");
    assert!(!playback[0].is_default);
    assert_eq!(playback[0].device_id.raw().bytes, id(1).bytes);
    assert_eq!(playback[1].name, "Kopfh\u{F6}rer");
    assert!(playback[1].is_default);
    // bytes that are no UTF-8 are replaced
    assert_eq!(playback[2].name, "bad \u{FFFD} name");
    // only one stands for the default device
    assert!(!playback[2].is_default);

    let capture = &devices.capture_devices;
    assert_eq!(capture.len(), 2);
    assert_eq!(capture[0].name, "");
    assert!(capture[0].is_default);
    assert_eq!(capture[1].name, "Mic");
    assert_eq!(capture[1].device_id.raw().bytes, id(5).bytes);
}

#[test]
fn error_of_the_backend_is_handed_on() {
    assert_eq!(list(-201).err(), Some(-201));
    assert_eq!(list(1).err(), Some(1));
}

#[test]
fn device_id_shows_nothing_of_itself() {
    let devices = list(0).unwrap();
    let device_id = devices.playback_devices[0].device_id;
    let copy = device_id;
    assert_eq!(device_id.debug_label(), "[DeviceId]");
    assert_eq!(copy.raw().bytes, device_id.clone().raw().bytes);
}

#[test]
fn filter_formats() {
    assert!(acceptable_hpf_format::<i16>());
    assert!(acceptable_hpf_format::<F32>());
    assert!(!acceptable_hpf_format::<u8>());
    assert!(!acceptable_hpf_format::<i32>());
}

#[test]
fn filter_is_mono_and_floating_point() {
    let cfg = hpf_config::<i16>(2, 48000);
    assert_eq!(cfg.format, MA_FORMAT_F32);
    assert_eq!(cfg.channels, 1);
    assert_eq!(cfg.order, 2);
    assert_eq!(cfg.sample_rate, 48000);
}
