use nvmux::error::NvimError;
use nvmux::nvim::{
    check_banner, check_banner_of, parse_version, Version, MIN_MAJOR, MIN_MINOR, MIN_VERSION,
};

fn v(major: u64, minor: u64, patch: u64, pre: Option<&str>) -> Version {
    Version {
        major,
        minor,
        patch,
        prerelease: pre.map(String::from),
    }
}

#[test]
fn parses_every_banner_shape_in_the_wild() {
    let cases = [
        ("NVIM v0.11.4", v(0, 11, 4, None)),
        (
            "NVIM v0.13.0-dev-1511+g5209695703",
            v(0, 13, 0, Some("dev-1511")),
        ),
        ("NVIM v0.12.0-dev", v(0, 12, 0, Some("dev"))),
        (
            "NVIM v0.12.0-dev-145+g0f9113907-dirty",
            v(0, 12, 0, Some("dev-145")),
        ),
        (
            "NVIM v0.12.0-dev-0f9113907",
            v(0, 12, 0, Some("dev-0f9113907")),
        ),
        ("NVIM v0.11.4+ubuntu1", v(0, 11, 4, None)),
        ("NVIM v0.10.2\nBuild type: Release", v(0, 10, 2, None)),
        ("NVIM v1.0", v(1, 0, 0, None)),
    ];
    for (banner, want) in cases {
        assert_eq!(
            parse_version(banner).as_ref(),
            Some(&want),
            "for {banner:?}"
        );
    }
}

#[test]
fn rejects_nonsense_rather_than_guessing() {
    for banner in ["", "not a version", "NVIM", "NVIM vx.y.z", "NVIM v1.2.3.4"] {
        assert_eq!(parse_version(banner), None, "should not parse {banner:?}");
    }
}

#[test]
fn the_version_gate_is_the_documented_one() {
    assert!(!v(0, 9, 5, None).is_supported());
    assert!(!v(0, 10, 4, None).is_supported());
    assert!(
        v(0, 11, 0, None).is_supported(),
        "0.11 is where :detach landed"
    );
    assert!(
        v(0, 13, 0, Some("dev")).is_supported(),
        "nightlies must pass"
    );
    assert!(v(1, 0, 0, None).is_supported());
}

#[test]
fn display_round_trips() {
    assert_eq!(v(0, 11, 4, None).text(), "0.11.4");
    assert_eq!(v(0, 13, 0, Some("dev-1511")).text(), "0.13.0-dev-1511");
}

#[test]
fn the_printed_minimum_is_the_enforced_one() {
    assert_eq!(MIN_VERSION, format!("{}.{}", MIN_MAJOR, MIN_MINOR));
}

#[test]
fn the_banner_gate_refuses_old_and_unreadable_banners_by_name() {
    assert_eq!(
        check_banner("myhost", "NVIM v0.11.4\nBuild type: Release").expect("new enough"),
        v(0, 11, 4, None)
    );
    match check_banner("myhost", "NVIM v0.9.5") {
        Err(NvimError::TooOld { where_, found, min }) => {
            assert_eq!(where_, "myhost");
            assert_eq!(found, "0.9.5");
            assert_eq!(min, MIN_VERSION);
        }
        other => panic!("expected TooOld, got {other:?}"),
    }
    match check_banner("myhost", "garbage\nmore") {
        Err(NvimError::UnparsableVersion { where_, raw }) => {
            assert_eq!(where_, "myhost");
            assert_eq!(raw, "garbage", "the first line, which is the version line");
        }
        other => panic!("expected UnparsableVersion, got {other:?}"),
    }
}

#[test]
fn a_banner_is_read_from_the_bytes_nvim_wrote() {
    assert_eq!(
        check_banner_of("local", b"NVIM v0.11.4\nBuild type: \xff").expect("new enough"),
        v(0, 11, 4, None)
    );
    match check_banner_of("local", b"NVIM v0.9.5\n") {
        Err(NvimError::TooOld { where_, found, .. }) => {
            assert_eq!((where_.as_str(), found.as_str()), ("local", "0.9.5"));
        }
        other => panic!("expected TooOld, got {other:?}"),
    }
    match check_banner_of("local", b"gar\xffbage\nmore") {
        Err(NvimError::UnparsableVersion { where_, raw }) => {
            assert_eq!((where_.as_str(), raw.as_str()), ("local", "gar\u{fffd}bage"));
        }
        other => panic!("expected UnparsableVersion, got {other:?}"),
    }
}

#[test]
fn a_carriage_return_before_the_line_feed_is_not_part_of_the_line() {
    match check_banner("h", "what is this\r\nmore") {
        Err(NvimError::UnparsableVersion { raw, .. }) => assert_eq!(raw, "what is this"),
        other => panic!("expected UnparsableVersion, got {other:?}"),
    }
    assert_eq!(parse_version("NVIM v0.11.4\r\n"), Some(v(0, 11, 4, None)));
}

#[test]
fn a_number_that_does_not_fit_is_no_version() {
    assert_eq!(parse_version("NVIM v18446744073709551616.0"), None);
    assert_eq!(
        parse_version("NVIM v18446744073709551615.0"),
        Some(v(u64::MAX, 0, 0, None))
    );
}

/// A printed version parses back, with or without what a banner puts round it.
#[test]
fn a_printed_version_parses_back() {
    for (numbers, prerelease) in [
        ((0, 11, 4), None),
        ((10, 0, u64::MAX), None),
        ((0, 13, 0), Some("dev-1511")),
        ((1, 2, 3), Some("")),
    ] {
        let version = Version {
            major: numbers.0,
            minor: numbers.1,
            patch: numbers.2,
            prerelease: prerelease.map(String::from),
        };
        let text = version.text();
        for banner in [
            text.clone(),
            format!("NVIM v{text}"),
            format!("NVIM v{text}+g52-dirty+x"),
            format!("NVIM v{text}\nBuild type: Release"),
            format!("NVIM v{text}+ubuntu1\nBuild type: Release\n0.1.0"),
        ] {
            assert_eq!(parse_version(&banner).as_ref(), Some(&version), "{banner:?}");
        }
    }
}
