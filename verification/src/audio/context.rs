//! Lists of devices.

use crate::audio::device::{DeviceId, DirCapture, DirPlayback, MaDeviceId};
use crate::audio::error::{MaError, MaResult, MaResultExt, MA_SUCCESS};
use crate::audio::text::{
    before_nul, c_str_bytes, from_utf8_lossy, law_text_ends_at_the_first_zero_byte, lossy_text,
};
use vstd::prelude::*;
use vstd::utf8::{decode_utf8, valid_utf8};

verus! {

/// What the backend tells of a device.
pub struct MaDeviceInfo {
    /// Identifies the device.
    pub id: MaDeviceId,
    /// The name, up to the first zero byte.
    pub name: Vec<u8>,
    /// One for the default device.
    pub is_default: u32,
}

/// A device.
pub struct DeviceInfo<Dir> {
    /// The name of the device.
    pub name: String,
    /// Whether it is the default device.
    pub is_default: bool,
    /// Identifies the device.
    pub device_id: DeviceId<Dir>,
}

/// The devices that there are.
pub struct DeviceList {
    /// The devices that play.
    pub playback_devices: Vec<DeviceInfo<DirPlayback>>,
    /// The devices that record.
    pub capture_devices: Vec<DeviceInfo<DirCapture>>,
}

/// What the backend answers when asked for its devices.
pub struct DeviceReply {
    /// The result code.
    pub result: MaResult,
    /// The devices that play.
    pub playback: Vec<MaDeviceInfo>,
    /// The devices that record.
    pub capture: Vec<MaDeviceInfo>,
}

/// What the list says of a device.
pub open spec fn lists<Dir>(info: DeviceInfo<Dir>, raw: MaDeviceInfo) -> bool {
    &&& info.name@ == lossy_text(before_nul(raw.name@))
    &&& valid_utf8(before_nul(raw.name@)) ==> info.name@ == decode_utf8(before_nul(raw.name@))
    &&& info.is_default == (raw.is_default == 1)
    &&& info.device_id@ == raw.id
}

/// A listed name is all of the text up to the first zero byte.
proof fn lemma_names<Dir>(raw: Seq<MaDeviceInfo>, listed: Seq<DeviceInfo<Dir>>)
    requires
        raw.len() == listed.len(),
        forall|i: int| 0 <= i < raw.len() ==> lists(#[trigger] listed[i], raw[i]),
    ensures
        forall|i: int, len: int|
            {
                &&& 0 <= i < raw.len()
                &&& 0 <= len <= raw[i].name@.len()
                &&& forall|j: int| 0 <= j < len ==> raw[i].name@[j] != 0
                &&& len == raw[i].name@.len() || raw[i].name@[len] == 0
            } ==> {
                let text = #[trigger] raw[i].name@.take(len);
                &&& listed[i].name@ == lossy_text(text)
                &&& valid_utf8(text) ==> listed[i].name@ == decode_utf8(text)
            },
{
    assert forall|i: int, len: int|
        {
            &&& 0 <= i < raw.len()
            &&& 0 <= len <= raw[i].name@.len()
            &&& forall|j: int| 0 <= j < len ==> raw[i].name@[j] != 0
            &&& len == raw[i].name@.len() || raw[i].name@[len] == 0
        } implies {
        let text = #[trigger] raw[i].name@.take(len);
        &&& listed[i].name@ == lossy_text(text)
        &&& valid_utf8(text) ==> listed[i].name@ == decode_utf8(text)
    } by {
        law_text_ends_at_the_first_zero_byte(raw[i].name@, len);
        assert(lists(listed[i], raw[i]));
    }
}

/// Lists the devices that the backend has told of, in the order in which it has,
/// or hands on the error that it answered with.
pub fn device_list(reply: &DeviceReply) -> (res: Result<DeviceList, MaError>)
    ensures
        res is Ok <==> reply.result == MA_SUCCESS,
        res matches Err(e) ==> e.spec_code() == reply.result,
        res matches Ok(list) ==> {
            &&& list.playback_devices@.len() == reply.playback@.len()
            &&& list.capture_devices@.len() == reply.capture@.len()
            &&& forall|i: int|
                0 <= i < reply.playback@.len() ==> lists(
                    #[trigger] list.playback_devices@[i],
                    reply.playback@[i],
                )
            &&& forall|i: int|
                0 <= i < reply.capture@.len() ==> lists(
                    #[trigger] list.capture_devices@[i],
                    reply.capture@[i],
                )
            &&& forall|i: int|
                0 <= i < reply.playback@.len() ==> {
                    &&& (#[trigger] list.playback_devices@[i]).is_default == (
                    reply.playback@[i].is_default == 1)
                    &&& list.playback_devices@[i].device_id@ == reply.playback@[i].id
                }
            // the name is all of the text up to the first zero byte
            &&& forall|i: int, len: int|
                {
                    let name = reply.playback@[i].name@;
                    &&& 0 <= i < reply.playback@.len()
                    &&& 0 <= len <= name.len()
                    &&& forall|j: int| 0 <= j < len ==> name[j] != 0
                    &&& len == name.len() || name[len] == 0
                } ==> {
                    let text = #[trigger] reply.playback@[i].name@.take(len);
                    &&& list.playback_devices@[i].name@ == lossy_text(text)
                    &&& valid_utf8(text) ==> list.playback_devices@[i].name@ == decode_utf8(text)
                }
            &&& forall|i: int|
                0 <= i < reply.capture@.len() ==> {
                    &&& (#[trigger] list.capture_devices@[i]).is_default == (
                    reply.capture@[i].is_default == 1)
                    &&& list.capture_devices@[i].device_id@ == reply.capture@[i].id
                }
            // the name is all of the text up to the first zero byte
            &&& forall|i: int, len: int|
                {
                    let name = reply.capture@[i].name@;
                    &&& 0 <= i < reply.capture@.len()
                    &&& 0 <= len <= name.len()
                    &&& forall|j: int| 0 <= j < len ==> name[j] != 0
                    &&& len == name.len() || name[len] == 0
                } ==> {
                    let text = #[trigger] reply.capture@[i].name@.take(len);
                    &&& list.capture_devices@[i].name@ == lossy_text(text)
                    &&& valid_utf8(text) ==> list.capture_devices@[i].name@ == decode_utf8(text)
                }
        },
{
    match reply.result.into_result() {
        Ok(()) => {},
        Err(e) => {
            return Err(e);
        },
    }
    let mut playback_devices: Vec<DeviceInfo<DirPlayback>> = Vec::with_capacity(
        reply.playback.len(),
    );
    let mut capture_devices: Vec<DeviceInfo<DirCapture>> = Vec::with_capacity(reply.capture.len());
    let mut i: usize = 0;
    while i < reply.playback.len()
        invariant
            i <= reply.playback@.len(),
            playback_devices@.len() == i,
            forall|j: int|
                0 <= j < i ==> lists(#[trigger] playback_devices@[j], reply.playback@[j]),
        decreases reply.playback@.len() - i,
    {
        let d = &reply.playback[i];
        let name = from_utf8_lossy(c_str_bytes(d.name.as_slice()));
        let device_id = DeviceId::<DirPlayback>::from(d.id);
        playback_devices.push(DeviceInfo { name, is_default: d.is_default == 1, device_id });
        i = i + 1;
    }
    let mut i: usize = 0;
    while i < reply.capture.len()
        invariant
            i <= reply.capture@.len(),
            capture_devices@.len() == i,
            forall|j: int|
                0 <= j < i ==> lists(#[trigger] capture_devices@[j], reply.capture@[j]),
        decreases reply.capture@.len() - i,
    {
        let d = &reply.capture[i];
        let name = from_utf8_lossy(c_str_bytes(d.name.as_slice()));
        let device_id = DeviceId::<DirCapture>::from(d.id);
        capture_devices.push(DeviceInfo { name, is_default: d.is_default == 1, device_id });
        i = i + 1;
    }
    proof {
        lemma_names(reply.playback@, playback_devices@);
        lemma_names(reply.capture@, capture_devices@);
    }
    Ok(DeviceList { playback_devices, capture_devices })
}

} // verus!
