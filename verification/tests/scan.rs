use blocktree::majmin::MajorMinor;
use blocktree::mounts::{parse_proc_mounts, parse_proc_swaps, MountTable, SwapTable};
use blocktree::scan::{read_block, read_blocks, read_partitions, Block, DeviceFiles, DiskFiles, Partition};
use blocktree::udev::BlockMetadata;

fn text(s: &str) -> Option<String> {
    Some(s.to_string())
}

fn entry(name: &str, dev: Option<&str>) -> DeviceFiles {
    DeviceFiles {
        name: name.to_string(),
        dev: dev.map(|d| d.to_string()),
        removable: None,
        size: None,
        ro: None,
        udev: None,
    }
}

fn names(partitions: &[Partition]) -> Vec<&str> {
    partitions.iter().map(|p| p.name.as_str()).collect()
}

fn tables() -> (MountTable, SwapTable) {
    let mounts = parse_proc_mounts(
        "/dev/sda1 /boot/efi vfat rw 0 0\n/dev/sda2 / ext4 rw 0 0\n/dev/sda3 /odd ext4 rw 0 0\n",
    );
    let swaps = parse_proc_swaps(
        "Filename Type Size Used Priority\n/dev/sda3 partition 1 0 -2\n/dev/sda4 partition 1 0 -2\n",
    );
    (mounts, swaps)
}

#[test]
fn partition_is_built_from_its_files() {
    let (mounts, swaps) = tables();
    let entries = vec![DeviceFiles {
        name: "sda1".to_string(),
        dev: text("8:1\n"),
        removable: text("0\n"),
        size: text("8388608\n"),
        ro: text("1\n"),
        udev: text("E:ID_TYPE=disk\nE:ID_FS_TYPE=vfat\nE:ID_FS_UUID=AB12-CD34\n"),
    }];
    let partitions = read_partitions(&entries, "sda", &mounts, &swaps);
    assert_eq!(
        partitions,
        vec![Partition {
            name: "sda1".to_string(),
            majmin: MajorMinor { major: 8, minor: 1 },
            removable: Some(0),
            size: Some(4294967296),
            readonly: Some(1),
            metadata: Some(BlockMetadata {
                id_type: "disk".to_string(),
                id_fs_type: Some("vfat".to_string()),
                id_fs_uuid: Some("AB12-CD34".to_string()),
            }),
            mountpoint: "/boot/efi".to_string(),
        }]
    );
}

#[test]
fn partition_with_absent_attributes_keeps_them_unknown() {
    let (mounts, swaps) = tables();
    let entries = vec![DeviceFiles {
        name: "sda9".to_string(),
        dev: text("8:9\n"),
        removable: None,
        size: text("many\n"),
        ro: text(""),
        udev: text("E:ID_FS_TYPE=ext4\n"),
    }];
    let partitions = read_partitions(&entries, "sda", &mounts, &swaps);
    assert_eq!(
        partitions,
        vec![Partition {
            name: "sda9".to_string(),
            majmin: MajorMinor { major: 8, minor: 9 },
            removable: None,
            size: None,
            readonly: None,
            metadata: None,
            mountpoint: String::new(),
        }]
    );
}

#[test]
fn partitions_are_the_entries_named_after_the_disk() {
    let (mounts, swaps) = tables();
    let entries = vec![
        entry("holders", None),
        entry("sda2", Some("8:2\n")),
        entry("queue", Some("8:77\n")),
        entry("sda1", Some("8:1\n")),
        entry("sdb1", Some("8:17\n")),
        entry("subsystem", None),
        entry("sda", Some("8:0\n")),
        entry("sd", Some("8:99\n")),
    ];
    let partitions = read_partitions(&entries, "sda", &mounts, &swaps);
    assert_eq!(names(&partitions), vec!["sda2", "sda1", "sda"]);
}

#[test]
fn partition_without_device_number_is_left_out() {
    let (mounts, swaps) = tables();
    let with = vec![entry("sda1", Some("8:1\n")), entry("sda2", Some("8:2\n")), entry("sda3", Some("8:3\n"))];
    let unreadable = vec![entry("sda1", Some("8:1\n")), entry("sda2", None), entry("sda3", Some("8:3\n"))];
    let unparsable = vec![entry("sda1", Some("8:1\n")), entry("sda2", Some("8-2\n")), entry("sda3", Some("8:3\n"))];
    let too_large = vec![entry("sda1", Some("8:1\n")), entry("sda2", Some("8:256\n")), entry("sda3", Some("8:3\n"))];
    let all = read_partitions(&with, "sda", &mounts, &swaps);
    assert_eq!(names(&all), vec!["sda1", "sda2", "sda3"]);
    for listing in [unreadable, unparsable, too_large] {
        let fewer = read_partitions(&listing, "sda", &mounts, &swaps);
        assert_eq!(fewer.len() + 1, all.len());
        assert_eq!(names(&fewer), vec!["sda1", "sda3"]);
    }
}

#[test]
fn partitions_keep_the_order_of_the_listing() {
    let (mounts, swaps) = tables();
    let order = ["sda10", "sda2", "sda7", "sda1", "sda3", "sda11"];
    let entries: Vec<DeviceFiles> = order
        .iter()
        .enumerate()
        .map(|(i, name)| DeviceFiles { size: text(&format!("{}", 100 - i)), ..entry(name, Some("8:1")) })
        .collect();
    let partitions = read_partitions(&entries, "sda", &mounts, &swaps);
    assert_eq!(names(&partitions), order.to_vec());
}

#[test]
fn prefix_match_takes_in_a_longer_disk_name() {
    let (mounts, swaps) = tables();
    let entries = vec![entry("sda1", Some("8:1")), entry("sda2x", Some("8:33")), entry("sdaa1", Some("65:1"))];
    let partitions = read_partitions(&entries, "sda", &mounts, &swaps);
    assert_eq!(names(&partitions), vec!["sda1", "sda2x", "sdaa1"]);
}

#[test]
fn partition_mountpoints_come_from_both_tables() {
    let (mounts, swaps) = tables();
    let entries = vec![
        entry("sda1", Some("8:1")),
        entry("sda2", Some("8:2")),
        entry("sda3", Some("8:3")),
        entry("sda4", Some("8:4")),
        entry("sda5", Some("8:5")),
    ];
    let partitions = read_partitions(&entries, "sda", &mounts, &swaps);
    let mountpoints: Vec<&str> = partitions.iter().map(|p| p.mountpoint.as_str()).collect();
    assert_eq!(mountpoints, vec!["/boot/efi", "/", "/odd", "[SWAP]", ""]);
}

#[test]
fn block_is_built_with_its_partitions() {
    let (mounts, swaps) = tables();
    let disk = DiskFiles {
        device: DeviceFiles {
            name: "sda".to_string(),
            dev: text("8:0\n"),
            removable: text("1\n"),
            size: text("976773168\n"),
            ro: text("0\n"),
            udev: text("E:ID_TYPE=disk\n"),
        },
        children: vec![entry("queue", None), entry("sda2", Some("8:2\n")), entry("sda1", Some("8:1\n"))],
    };
    let block = read_block(&disk, &mounts, &swaps).unwrap();
    assert_eq!(block.name, "sda");
    assert_eq!(block.majmin, MajorMinor { major: 8, minor: 0 });
    assert_eq!(block.removable, Some(1));
    assert_eq!(block.size, Some(500107862016));
    assert_eq!(block.readonly, Some(0));
    assert_eq!(block.mountpoint, "");
    assert_eq!(names(&block.partitions), vec!["sda2", "sda1"]);
    assert_eq!(block.partitions[0].mountpoint, "/");
}

#[test]
fn block_is_never_shown_as_mounted() {
    let mounts = parse_proc_mounts("/dev/sdc /mnt/whole ext4 rw 0 0\n");
    let swaps = parse_proc_swaps("");
    let disk = DiskFiles { device: entry("sdc", Some("8:32\n")), children: vec![] };
    let block = read_block(&disk, &mounts, &swaps).unwrap();
    assert_eq!(block.mountpoint, "");
    assert_eq!(block.partitions, vec![]);
}

#[test]
fn block_without_device_number_is_no_block() {
    let (mounts, swaps) = tables();
    let children = || vec![entry("sda1", Some("8:1\n"))];
    assert_eq!(read_block(&DiskFiles { device: entry("sda", None), children: children() }, &mounts, &swaps), None);
    assert_eq!(read_block(&DiskFiles { device: entry("sda", Some("")), children: children() }, &mounts, &swaps), None);
    assert_eq!(read_block(&DiskFiles { device: entry("sda", Some("8")), children: children() }, &mounts, &swaps), None);
}

#[test]
fn blocks_keep_the_order_of_the_listing_and_skip_what_is_no_device() {
    let (mounts, swaps) = tables();
    let disks = vec![
        DiskFiles { device: entry("sdb", Some("8:16\n")), children: vec![entry("sdb1", Some("8:17\n"))] },
        DiskFiles { device: entry("bogus", None), children: vec![] },
        DiskFiles { device: entry("loop0", Some("7:0\n")), children: vec![] },
        DiskFiles { device: entry("sda", Some("8:0\n")), children: vec![entry("sda2", Some("8:2\n")), entry("sda1", Some("8:1\n"))] },
        DiskFiles { device: entry("nvme0n1", Some("259:0\n")), children: vec![] },
    ];
    let blocks: Vec<Block> = read_blocks(&disks, &mounts, &swaps);
    let seen: Vec<(&str, Vec<&str>)> = blocks.iter().map(|b| (b.name.as_str(), names(&b.partitions))).collect();
    assert_eq!(
        seen,
        vec![("sdb", vec!["sdb1"]), ("loop0", vec![]), ("sda", vec!["sda2", "sda1"])]
    );
    assert_eq!(read_blocks(&vec![], &mounts, &swaps), vec![]);
}

#[test]
fn device_files_read_each_attribute() {
    let files = DeviceFiles {
        name: "sda".to_string(),
        dev: text("8:0\n"),
        removable: text("1\n"),
        size: text("2\n"),
        ro: text("x\n"),
        udev: None,
    };
    assert_eq!(files.device_number(), Some(MajorMinor { major: 8, minor: 0 }));
    assert_eq!(files.removable(), Some(1));
    assert_eq!(files.size(), Some(1024));
    assert_eq!(files.readonly(), None);
    let none = entry("sda", None);
    assert_eq!(none.device_number(), None);
    assert_eq!(none.removable(), None);
    assert_eq!(none.size(), None);
    assert_eq!(none.readonly(), None);
}
