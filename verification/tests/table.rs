use blocktree::majmin::MajorMinor;
use blocktree::render::{header_line, name_width, row_line, table_rows, BlockType, Row};
use blocktree::scan::{Block, Partition};

fn partition(name: &str, minor: u8, size: Option<u64>, readonly: Option<u64>, mountpoint: &str) -> Partition {
    Partition {
        name: name.to_string(),
        majmin: MajorMinor { major: 8, minor },
        removable: Some(1),
        size,
        readonly,
        metadata: None,
        mountpoint: mountpoint.to_string(),
    }
}

fn disk(name: &str, minor: u8, removable: Option<u64>, partitions: Vec<Partition>) -> Block {
    Block {
        name: name.to_string(),
        majmin: MajorMinor { major: 8, minor },
        removable,
        size: Some(1 << 30),
        readonly: Some(0),
        partitions,
        mountpoint: String::new(),
    }
}

fn row(name: &str, majmin: &str, removable: &'static str, size: Option<u64>, readonly: &'static str,
       row_type: BlockType, mountpoint: &str) -> Row {
    Row {
        name: name.to_string(),
        majmin: majmin.to_string(),
        removable,
        size,
        readonly,
        row_type,
        mountpoint: mountpoint.to_string(),
    }
}

#[test]
fn rows_follow_disks_and_partitions() {
    let blocks = vec![
        disk("sda", 0, Some(0), vec![
            partition("sda1", 1, Some(512), Some(0), "/boot"),
            partition("sda2", 2, None, None, "[SWAP]"),
            partition("sda3", 3, Some(2048), Some(7), ""),
        ]),
        disk("sr0", 16, None, vec![]),
        disk("sdb", 32, Some(1), vec![partition("sdb1", 33, Some(1), Some(1), "/mnt")]),
    ];
    assert_eq!(
        table_rows(&blocks),
        vec![
            row("sda", "  8:0  ", " 0", Some(1 << 30), " 0", BlockType::Disk, ""),
            row("\u{251C}\u{2500}sda1", "  8:1  ", " 0", Some(512), " 0", BlockType::Partition, "/boot"),
            row("\u{251C}\u{2500}sda2", "  8:2  ", " 0", None, "  ", BlockType::Partition, "[SWAP]"),
            row("\u{2514}\u{2500}sda3", "  8:3  ", " 0", Some(2048), " 1", BlockType::Partition, ""),
            row("sr0", "  8:16 ", "  ", Some(1 << 30), " 0", BlockType::Disk, ""),
            row("sdb", "  8:32 ", " 1", Some(1 << 30), " 0", BlockType::Disk, ""),
            row("\u{2514}\u{2500}sdb1", "  8:33 ", " 1", Some(1), " 1", BlockType::Partition, "/mnt"),
        ]
    );
    assert_eq!(table_rows(&vec![]), vec![]);
}

#[test]
fn name_width_counts_characters() {
    let blocks = vec![disk("sda", 0, None, vec![partition("sda1", 1, None, None, "")])];
    let rows = table_rows(&blocks);
    assert_eq!(name_width(&rows), 6);
    assert_eq!(name_width(&vec![]), 0);
    let wide = vec![disk("nvme0n1", 0, None, vec![]), disk("sda", 1, None, vec![])];
    assert_eq!(name_width(&table_rows(&wide)), 7);
}

#[test]
fn header_line_pads_the_name_column() {
    assert_eq!(header_line(6), format!("{1:<0$} MAJ:MIN RM  SIZE RO TYPE MOUNTPOINT", 6, "NAME"));
    assert_eq!(header_line(6), "NAME   MAJ:MIN RM  SIZE RO TYPE MOUNTPOINT");
    assert_eq!(header_line(0), "NAME MAJ:MIN RM  SIZE RO TYPE MOUNTPOINT");
    assert_eq!(header_line(4), "NAME MAJ:MIN RM  SIZE RO TYPE MOUNTPOINT");
}

#[test]
fn row_line_lays_out_the_cells() {
    let blocks = vec![disk("sda", 0, Some(0), vec![partition("sda1", 1, Some(512), Some(0), "/boot")])];
    let rows = table_rows(&blocks);
    assert_eq!(row_line(&rows[0], 6, "   1G"), "sda      8:0    0    1G  0 disk ");
    assert_eq!(row_line(&rows[1], 6, "  512"), "\u{2514}\u{2500}sda1   8:1    0   512  0 part /boot");
    assert_eq!(row_line(&rows[1], 2, "57.3M"), "\u{2514}\u{2500}sda1   8:1    0 57.3M  0 part /boot");
    assert_eq!(row_line(&rows[0], 3, "1024.0M"), "sda   8:0    0 1024.0M  0 disk ");
    assert_eq!(row_line(&rows[0], 5, ""), "sda     8:0    0        0 disk ");
}

#[test]
fn row_line_agrees_with_std_formatting() {
    let blocks = vec![
        disk("sda", 0, Some(0), vec![partition("sda1", 1, Some(512), Some(0), "/boot")]),
        disk("mmcblk0", 179, None, vec![partition("mmcblk0p1", 180, None, None, "")]),
    ];
    let rows = table_rows(&blocks);
    let width = name_width(&rows);
    for r in &rows {
        for size in ["", "1", " 1023", "   1K", "57.3M", "1024.0M"] {
            let word = match r.row_type {
                BlockType::Disk => "disk",
                BlockType::Partition => "part",
            };
            let expected = format!(
                "{1:<0$} {2} {3} {4:>5} {5} {6:<4} {7}",
                width, r.name, r.majmin, r.removable, size, r.readonly, word, r.mountpoint
            );
            assert_eq!(row_line(r, width, size), expected);
        }
    }
}
