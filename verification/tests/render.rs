use blocktree::majmin::MajorMinor;
use blocktree::render::{
    describe_block_type, format_major_minor, pretty_readonly, pretty_removable, pretty_size,
    pretty_units, size_unit, BlockType, SizeUnit,
};

fn scaled(size: Option<u64>) -> String {
    match size {
        Some(size) => {
            let unit = size_unit(size);
            let n = (size as f64) / ((1024 as u64).pow(unit.power()) as f64);
            format!("{0:.1$}", n, unit.precision())
        }
        None => String::new(),
    }
}

fn pretty(size: Option<u64>) -> String {
    pretty_size(size, &scaled(size))
}

#[test]
fn test_pretty_size() {
    assert!("     " == pretty(None));
    assert!(" 1023" == pretty(Some(1023)));
    assert!("   1K" == pretty(Some(1024)));
    assert!("57.3M" == pretty(Some(60063744)));
    assert!("   4G" == pretty(Some(4292870144)));
    assert!("  28G" == pretty(Some(30063722496)));
    assert!("  32G" == pretty(Some(34359738368)));
}

#[test]
fn pretty_size_of_bytes_ignores_the_scaled_text() {
    assert_eq!(pretty_size(None, "12.5"), "     ");
    assert_eq!(pretty_size(Some(0), "12.5"), "    0");
    assert_eq!(pretty_size(Some(7), ""), "    7");
    assert_eq!(pretty_size(Some(1023), "1.0"), " 1023");
}

#[test]
fn pretty_size_adds_the_letter_of_the_unit() {
    assert_eq!(pretty_size(Some(1024), "1"), "   1K");
    assert_eq!(pretty_size(Some(1 << 20), "1024"), "1024K");
    assert_eq!(pretty_size(Some((1 << 20) + 1), "1.0"), " 1.0M");
    assert_eq!(pretty_size(Some(1 << 30), "1024.0"), "1024.0M");
    assert_eq!(pretty_size(Some(1 << 40), "1024"), "1024G");
    assert_eq!(pretty_size(Some(1 << 41), "2"), "   2T");
    assert_eq!(pretty_size(Some(1 << 51), "2"), "   2P");
    assert_eq!(pretty_size(Some(u64::MAX), "16"), "  16E");
    assert_eq!(pretty_size(Some(2048), ""), "    K");
}

#[test]
fn pretty_units_pads_to_four_columns() {
    assert_eq!(pretty_units("1", "K"), "   1K");
    assert_eq!(pretty_units("57.3", "M"), "57.3M");
    assert_eq!(pretty_units("1024.0", "M"), "1024.0M");
    assert_eq!(pretty_units("", ""), "    ");
}

#[test]
fn pretty_size_agrees_with_std_formatting() {
    let mut size: u64 = 1;
    while size < (1 << 60) {
        for s in [size - 1, size, size + 1, size + size / 3, size + size / 2] {
            let expected = match size_unit(s) {
                SizeUnit::Bytes => format!("{:>5}", s),
                unit => format!(
                    "{0:>4.1$}{2}",
                    (s as f64) / ((1024 as u64).pow(unit.power()) as f64),
                    unit.precision(),
                    unit.suffix()
                ),
            };
            assert_eq!(pretty(Some(s)), expected);
        }
        size *= 2;
    }
}

#[test]
fn test_format_major_minor() {
    assert!(format_major_minor(&MajorMinor { major:   1, minor:   0 }) == "  1:0  ");
    assert!(format_major_minor(&MajorMinor { major:  10, minor:   0 }) == " 10:0  ");
    assert!(format_major_minor(&MajorMinor { major:   1, minor:  20 }) == "  1:20 ");
    assert!(format_major_minor(&MajorMinor { major: 100, minor:  20 }) == "100:20 ");
    assert!(format_major_minor(&MajorMinor { major: 100, minor: 200 }) == "100:200");
}

#[test]
fn test_pretty_readonly() {
    assert!("  " == pretty_readonly(None));
    assert!(" 0" == pretty_readonly(Some(0)));
    assert!(" 1" == pretty_readonly(Some(1)));
    assert!(" 1" == pretty_readonly(Some(2)));
    assert!(" 1" == pretty_readonly(Some(1234)));
}

#[test]
fn pretty_removable_cells() {
    assert_eq!(pretty_removable(None), "  ");
    assert_eq!(pretty_removable(Some(0)), " 0");
    assert_eq!(pretty_removable(Some(1)), " 1");
    assert_eq!(pretty_removable(Some(u64::MAX)), " 1");
}

#[test]
fn block_type_words() {
    assert_eq!(describe_block_type(BlockType::Disk), "disk");
    assert_eq!(describe_block_type(BlockType::Partition), "part");
}

#[test]
fn major_minor_cell_agrees_with_std_for_every_device_number() {
    for major in 0..=255u8 {
        for minor in 0..=255u8 {
            assert_eq!(
                format_major_minor(&MajorMinor { major, minor }),
                format!("{:>3}:{:<3}", major, minor)
            );
        }
    }
}

#[test]
fn size_units_change_just_above_each_power_of_1024() {
    assert_eq!(size_unit(0), SizeUnit::Bytes);
    assert_eq!(size_unit(1023), SizeUnit::Bytes);
    assert_eq!(size_unit(1024), SizeUnit::Kibi);
    assert_eq!(size_unit(1 << 20), SizeUnit::Kibi);
    assert_eq!(size_unit((1 << 20) + 1), SizeUnit::Mebi);
    assert_eq!(size_unit(60063744), SizeUnit::Mebi);
    assert_eq!(size_unit(1 << 30), SizeUnit::Mebi);
    assert_eq!(size_unit((1 << 30) + 1), SizeUnit::Gibi);
    assert_eq!(size_unit(4292870144), SizeUnit::Gibi);
    assert_eq!(size_unit(1 << 40), SizeUnit::Gibi);
    assert_eq!(size_unit((1 << 40) + 1), SizeUnit::Tebi);
    assert_eq!(size_unit(1 << 50), SizeUnit::Tebi);
    assert_eq!(size_unit((1 << 50) + 1), SizeUnit::Pebi);
    assert_eq!(size_unit(1 << 60), SizeUnit::Pebi);
    assert_eq!(size_unit((1 << 60) + 1), SizeUnit::Exbi);
    assert_eq!(size_unit(u64::MAX), SizeUnit::Exbi);
}

#[test]
fn size_unit_powers_letters_and_digits() {
    let units = [
        (SizeUnit::Bytes, 0, "", 0),
        (SizeUnit::Kibi, 1, "K", 0),
        (SizeUnit::Mebi, 2, "M", 1),
        (SizeUnit::Gibi, 3, "G", 0),
        (SizeUnit::Tebi, 4, "T", 0),
        (SizeUnit::Pebi, 5, "P", 0),
        (SizeUnit::Exbi, 6, "E", 0),
    ];
    for (unit, power, suffix, precision) in units {
        assert_eq!(unit.power(), power);
        assert_eq!(unit.suffix(), suffix);
        assert_eq!(unit.precision(), precision);
    }
}
