//! Choosing a device, and feeding it.

use orb::audio::context::{device_list, DeviceInfo, DeviceReply, MaDeviceInfo};
use orb::audio::device::{DirPlayback, MaDeviceId};
use orb::audio::player::{
    choose_device, default_choice, resolve_choice, ChoiceError, Feed, Next,
};

fn devices(defaults: &[u32]) -> Vec<DeviceInfo<DirPlayback>> {
    let playback = defaults
        .iter()
        .map(|is_default| MaDeviceInfo {
            id: MaDeviceId { bytes: [0; 256] },
            name: b"device\0".to_vec(),
            is_default: *is_default,
        })
        .collect();
    let reply = DeviceReply {
        result: 0,
        playback,
        capture: vec![],
    };
    match device_list(&reply) {
        Ok(list) => list.playback_devices,
        Err(e) => panic!("unexpected error {}", e.code()),
    }
}

#[test]
fn last_default_device_is_taken() {
    assert_eq!(default_choice(&devices(&[0, 1, 0])), 1);
    assert_eq!(default_choice(&devices(&[1, 0, 1, 0])), 2);
    assert_eq!(default_choice(&devices(&[0, 0])), 0);
    assert_eq!(default_choice(&devices(&[])), 0);
}

#[test]
fn choices() {
    assert_eq!(resolve_choice("", 2, 4), Ok(2));
    assert_eq!(resolve_choice("0", 2, 4), Ok(0));
    assert_eq!(resolve_choice("3", 2, 4), Ok(3));
    assert_eq!(resolve_choice("+3", 2, 4), Ok(3));
    assert_eq!(resolve_choice("003", 2, 4), Ok(3));
    assert_eq!(resolve_choice("4", 2, 4), Err(ChoiceError::OutOfRange));
    assert_eq!(resolve_choice("", 4, 4), Err(ChoiceError::OutOfRange));
    assert_eq!(resolve_choice("-1", 2, 4), Err(ChoiceError::NotANumber));
    assert_eq!(resolve_choice("+", 2, 4), Err(ChoiceError::NotANumber));
    assert_eq!(resolve_choice("++1", 2, 4), Err(ChoiceError::NotANumber));
    assert_eq!(resolve_choice("1 ", 2, 4), Err(ChoiceError::NotANumber));
    assert_eq!(resolve_choice("1_0", 2, 40), Err(ChoiceError::NotANumber));
    assert_eq!(
        resolve_choice("99999999999999999999", 2, 4),
        Err(ChoiceError::NotANumber)
    );
    let max = format!("{}", usize::MAX);
    assert_eq!(resolve_choice(&max, 2, 4), Err(ChoiceError::OutOfRange));
}

#[test]
fn chosen_device() {
    let list = devices(&[0, 0, 1, 0]);
    assert_eq!(choose_device(&list, "\n"), Ok(2));
    assert_eq!(choose_device(&list, ""), Ok(2));
    assert_eq!(choose_device(&list, " 3\r\n"), Ok(3));
    assert_eq!(choose_device(&list, "\t1 \n"), Ok(1));
    assert_eq!(choose_device(&list, "7\n"), Err(ChoiceError::OutOfRange));
    assert_eq!(choose_device(&list, "1 1\n"), Err(ChoiceError::NotANumber));
    assert_eq!(choose_device(&list, "x\n"), Err(ChoiceError::NotANumber));
    assert_eq!(
        choose_device(&devices(&[]), "0\n"),
        Err(ChoiceError::NoDevices)
    );
}

#[test]
fn white_space_around_a_choice() {
    let list = devices(&[0, 0, 1, 0]);
    let white = [
        0x9, 0xA, 0xB, 0xC, 0xD, 0x20, 0x85, 0xA0, 0x1680, 0x2000, 0x2001, 0x2002, 0x2003, 0x2004,
        0x2005, 0x2006, 0x2007, 0x2008, 0x2009, 0x200A, 0x2028, 0x2029, 0x202F, 0x205F, 0x3000,
    ];
    for code in 0..=0x10FFFFu32 {
        let Some(c) = char::from_u32(code) else {
            continue;
        };
        let alone = choose_device(&list, &format!("{c}"));
        let around = choose_device(&list, &format!("{c}1{c}"));
        if white.contains(&code) {
            assert_eq!(alone, Ok(2));
            assert_eq!(around, Ok(1));
        } else if c.is_ascii_digit() {
            // three digits are one number
            assert!(alone.is_ok() || alone == Err(ChoiceError::OutOfRange));
        } else {
            assert_eq!(alone, Err(ChoiceError::NotANumber));
            assert_eq!(around, Err(ChoiceError::NotANumber));
        }
    }
}

#[test]
fn end_is_reported_once() {
    let mut feed = Feed::new();
    assert!(feed.is_running());

    let fed = feed.step(Next::<i16, &str>::Sample(5));
    assert_eq!(fed.sample, Some(5));
    assert!(fed.report.is_none());
    assert!(feed.is_running());

    let fed = feed.step(Next::<i16, &str>::End);
    assert_eq!(fed.sample, None);
    assert_eq!(fed.report, Some(Ok(())));
    assert!(!feed.is_running());

    let fed = feed.step(Next::<i16, &str>::End);
    assert!(fed.report.is_none());
    let fed = feed.step(Next::<i16, &str>::Failed("late"));
    assert!(fed.report.is_none());
    let fed = feed.step(Next::<i16, &str>::Sample(6));
    assert_eq!(fed.sample, Some(6));
    assert!(!feed.is_running());
}

#[test]
fn failure_is_reported() {
    let mut feed = Feed::new();
    let fed = feed.step(Next::<i16, &str>::Failed("broken"));
    assert_eq!(fed.sample, None);
    assert_eq!(fed.report, Some(Err("broken")));
    assert!(!feed.is_running());
}
