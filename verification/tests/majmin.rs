use blocktree::majmin::{FormatError, MajorMinor};

#[test]
fn from_str_reads_two_numbers() {
    assert_eq!(MajorMinor::from_str("8:1"), Ok(MajorMinor { major: 8, minor: 1 }));
    assert_eq!(MajorMinor::from_str("0:0"), Ok(MajorMinor { major: 0, minor: 0 }));
    assert_eq!(MajorMinor::from_str("255:255"), Ok(MajorMinor { major: 255, minor: 255 }));
    assert_eq!(MajorMinor::from_str("259:12"), Err(FormatError::OutOfRange));
}

#[test]
fn from_str_reads_leading_zeros() {
    assert_eq!(MajorMinor::from_str("008:01"), Ok(MajorMinor { major: 8, minor: 1 }));
    assert_eq!(MajorMinor::from_str("0000000000000000000000255:0"), Ok(MajorMinor { major: 255, minor: 0 }));
}

#[test]
fn from_str_malformed() {
    for text in ["", ":", "8", "8:", ":1", "8:1:2", "8::1", " 8:1", "8:1 ", "8:1\n", "a:1", "8:b",
                 "+8:1", "-8:1", "8.0:1", "8;1", "\u{663}:1", "8:\u{ff11}"] {
        assert_eq!(MajorMinor::from_str(text), Err(FormatError::Malformed), "{:?}", text);
    }
}

#[test]
fn from_str_out_of_range() {
    for text in ["256:0", "0:256", "256:256", "1000:1", "1:99999999999999999999999999999999"] {
        assert_eq!(MajorMinor::from_str(text), Err(FormatError::OutOfRange), "{:?}", text);
    }
}

#[test]
fn from_str_malformed_comes_before_out_of_range() {
    assert_eq!(MajorMinor::from_str("256:x"), Err(FormatError::Malformed));
    assert_eq!(MajorMinor::from_str("x:256"), Err(FormatError::Malformed));
}

#[test]
fn to_string_has_no_padding() {
    assert_eq!(MajorMinor { major: 8, minor: 1 }.to_string(), "8:1");
    assert_eq!(MajorMinor { major: 0, minor: 0 }.to_string(), "0:0");
    assert_eq!(MajorMinor { major: 10, minor: 100 }.to_string(), "10:100");
    assert_eq!(MajorMinor { major: 255, minor: 9 }.to_string(), "255:9");
}

#[test]
fn to_string_agrees_with_std_for_every_device_number() {
    for major in 0..=255u8 {
        for minor in 0..=255u8 {
            assert_eq!(MajorMinor { major, minor }.to_string(), format!("{}:{}", major, minor));
        }
    }
}

#[test]
fn parse_then_format_round_trips() {
    for major in 0..=255u8 {
        for minor in 0..=255u8 {
            let text = format!("{}:{}", major, minor);
            let parsed = MajorMinor::from_str(&text).unwrap();
            assert_eq!(parsed, MajorMinor { major, minor });
            assert_eq!(parsed.to_string(), text);
        }
    }
}

#[test]
fn udev_path_is_under_the_database_root() {
    assert_eq!(MajorMinor { major: 8, minor: 1 }.udev_path(), "/run/udev/data/b8:1");
    assert_eq!(MajorMinor { major: 0, minor: 0 }.udev_path(), "/run/udev/data/b0:0");
    assert_eq!(MajorMinor { major: 253, minor: 17 }.udev_path(), "/run/udev/data/b253:17");
}
