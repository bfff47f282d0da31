use utoaudio::engine::{
    check_band_count, next_startup_rate, startup_sample_rates, usb_device_id, AudioError, CrossfadeCurveSerde, PlaybackState,
    Uac2DeviceInfo,
};
use utoaudio::floats::is_float_literal_in;
use utoaudio::version;

#[test]
fn presets_need_ten_bands() {
    assert!(check_band_count(10).is_ok());
    match check_band_count(7) {
        Err(AudioError::InvalidArgument(m)) => {
            assert_eq!(m, "equalizer preset must have 10 bands, got 7")
        }
        other => panic!("unexpected {:?}", other),
    }
    match check_band_count(0) {
        Err(AudioError::InvalidArgument(m)) => {
            assert_eq!(m, "equalizer preset must have 10 bands, got 0")
        }
        other => panic!("unexpected {:?}", other),
    }
}

#[test]
fn not_initialize_wording_also_maps() {
    let err = AudioError::from("engine not initialize yet".to_string());
    assert!(matches!(err, AudioError::NotInitialized(m) if m == "engine not initialize yet"));
}

#[test]
fn usb_ids_are_four_hex_digits_each() {
    assert_eq!(usb_device_id(0x054c, 0x0ce6), "054c:0ce6");
    assert_eq!(usb_device_id(0, 0xffff), "0000:ffff");
    let d = Uac2DeviceInfo::from_parts(0x20b1, 0x3008, None, "DAC".to_string(), "XMOS".to_string());
    assert_eq!(d.id, "20b1:3008");
    assert_eq!(d.product_name, "DAC");
}

#[test]
fn defaults() {
    assert_eq!(PlaybackState::default(), PlaybackState::Idle);
    assert_eq!(CrossfadeCurveSerde::default(), CrossfadeCurveSerde::EqualPower);
    assert_eq!(version(), "0.1.0");
}

#[test]
fn duration_texts_that_parse_as_numbers() {
    for ok in ["1", "-1", "215", "1.5", ".5", "5.", "+2e3", "1E-7", "inf", "-Infinity", "NaN"] {
        let v: Vec<char> = ok.chars().collect();
        assert!(is_float_literal_in(&v), "{ok}");
        assert!(ok.parse::<f64>().is_ok(), "{ok}");
    }
    for bad in ["", "abc", "1.2.3", "e5", "--1", "1e", " 1", "0x10"] {
        let v: Vec<char> = bad.chars().collect();
        assert!(!is_float_literal_in(&v), "{bad}");
        assert!(bad.parse::<f64>().is_err(), "{bad}");
    }
}

#[test]
fn startup_tries_rates_until_one_succeeds() {
    assert_eq!(startup_sample_rates(), vec![Some(48_000), None, Some(44_100)]);
    assert_eq!(next_startup_rate(0, false), Some(Some(48_000)));
    assert_eq!(next_startup_rate(1, true), Some(None));
    assert_eq!(next_startup_rate(2, true), Some(Some(44_100)));
    assert_eq!(next_startup_rate(3, true), None);
    assert_eq!(next_startup_rate(1, false), None);
}
