use speaker_capture::version::{CaptureBackend, MacVersion};

fn v(major: i32, minor: i32) -> MacVersion {
    MacVersion { major, minor }
}

#[test]
fn ca_tap_needs_14_2() {
    assert!(v(14, 2).supports_ca_tap());
    assert!(v(14, 3).supports_ca_tap());
    assert!(v(15, 0).supports_ca_tap());
    assert!(v(26, 0).supports_ca_tap());
    assert!(!v(14, 1).supports_ca_tap());
    assert!(!v(14, 0).supports_ca_tap());
    assert!(!v(13, 9).supports_ca_tap());
    assert!(!v(-1, 50).supports_ca_tap());
}

#[test]
fn backend_follows_tap_support() {
    assert_eq!(v(14, 2).speaker_input_backend(None), CaptureBackend::CoreAudioTap);
    assert_eq!(v(15, 1).speaker_input_backend(None), CaptureBackend::CoreAudioTap);
    assert_eq!(v(14, 1).speaker_input_backend(None), CaptureBackend::ScreenCaptureStream);
    assert_eq!(v(13, 0).speaker_input_backend(None), CaptureBackend::ScreenCaptureStream);
}

#[test]
fn backend_ignores_requested_device() {
    for version in [v(13, 0), v(14, 1), v(14, 2), v(26, 0)] {
        let base = version.speaker_input_backend(None);
        assert_eq!(version.speaker_input_backend(Some("BuiltInSpeakerDevice")), base);
        assert_eq!(version.speaker_input_backend(Some("")), base);
    }
}

#[test]
fn tap_support_is_monotone_over_ordered_versions() {
    let ordered = [v(12, 7), v(13, 0), v(13, 6), v(14, 0), v(14, 1), v(14, 2), v(14, 6), v(15, 0), v(26, 1)];
    for w in ordered.windows(2) {
        if w[0].supports_ca_tap() {
            assert!(w[1].supports_ca_tap());
        }
    }
}

#[test]
fn parses_product_versions() {
    assert_eq!(MacVersion::parse_product_version("14.2.1\n"), Some(v(14, 2)));
    assert_eq!(MacVersion::parse_product_version("15.0"), Some(v(15, 0)));
    assert_eq!(MacVersion::parse_product_version("  13.6.7  "), Some(v(13, 6)));
    assert_eq!(MacVersion::parse_product_version("14"), None);
    assert_eq!(MacVersion::parse_product_version("abc"), None);
    assert_eq!(MacVersion::parse_product_version("14.x"), None);
    assert_eq!(MacVersion::parse_product_version(""), None);
    assert_eq!(MacVersion::parse_product_version("14.2 beta"), None);
    assert_eq!(MacVersion::parse_product_version("+14.-2"), Some(v(14, -2)));
}

#[test]
fn printed_versions_read_back() {
    for (major, minor) in [(0, 0), (10, 15), (13, 0), (14, 2), (15, 7), (2147483647, 2147483647)] {
        let with_patch = format!("{}.{}.3\n", major, minor);
        let plain = format!("{}.{}", major, minor);
        assert_eq!(MacVersion::parse_product_version(&with_patch), Some(v(major, minor)));
        assert_eq!(MacVersion::parse_product_version(&plain), Some(v(major, minor)));
    }
}

#[test]
fn output_falls_back_to_13_0() {
    assert_eq!(MacVersion::from_product_version_output(None), v(13, 0));
    assert_eq!(MacVersion::from_product_version_output(Some(b"garbage")), v(13, 0));
    assert_eq!(MacVersion::from_product_version_output(Some(b"")), v(13, 0));
    assert_eq!(MacVersion::from_product_version_output(Some(&[0xff, 0x2e, 0x31])), v(13, 0));
    assert_eq!(MacVersion::from_product_version_output(Some(b"14.3\n")), v(14, 3));
    assert_eq!(MacVersion::from_product_version_output(Some(b"26.0.1\n")), v(26, 0));
}
