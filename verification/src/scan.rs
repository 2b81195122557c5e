//! Disks and their partitions, assembled from what was read of the device
//! directories.

use crate::attr::{
    bytes_of, count_of, device_number_of, parse_block_file, parse_device_file, parse_sector_file,
};
use crate::majmin::MajorMinor;
use crate::mounts::{mountpoint_of, read_partition_mountpoint, MountTable, SwapTable};
use crate::order::{kept, lemma_kept};
use crate::text::{has_prefix, starts_with, to_chars};
use crate::udev::{load_uevent_metadata, loaded_metadata_of, BlockMetadata, MetadataView};
use vstd::prelude::*;

verus! {

/// What was read of one device directory: its name, the contents of its
/// attribute files and of the device manager's record. A file that could
/// not be read is absent.
#[derive(Debug, PartialEq)]
pub struct DeviceFiles {
    pub name: String,
    pub dev: Option<String>,
    pub removable: Option<String>,
    pub size: Option<String>,
    pub ro: Option<String>,
    pub udev: Option<String>,
}

/// What was read of a disk: its own directory, and the directories listed
/// in it, in the order of the listing.
#[derive(Debug, PartialEq)]
pub struct DiskFiles {
    pub device: DeviceFiles,
    pub children: Vec<DeviceFiles>,
}

/// A partition of a disk.
#[derive(Debug, PartialEq)]
pub struct Partition {
    pub name: String,
    pub majmin: MajorMinor,
    pub removable: Option<u64>,
    pub size: Option<u64>,
    pub readonly: Option<u64>,
    pub metadata: Option<BlockMetadata>,
    pub mountpoint: String,
}

/// A disk with its partitions, in the order in which they were listed.
#[derive(Debug, PartialEq)]
pub struct Block {
    pub name: String,
    pub majmin: MajorMinor,
    pub removable: Option<u64>,
    pub size: Option<u64>,
    pub readonly: Option<u64>,
    pub partitions: Vec<Partition>,
    pub mountpoint: String,
}

/// A `DeviceFiles` as plain text.
pub struct DeviceFilesView {
    pub name: Seq<char>,
    pub dev: Option<Seq<char>>,
    pub removable: Option<Seq<char>>,
    pub size: Option<Seq<char>>,
    pub ro: Option<Seq<char>>,
    pub udev: Option<Seq<char>>,
}

/// A `DiskFiles` as plain text.
pub struct DiskFilesView {
    pub device: DeviceFilesView,
    pub children: Seq<DeviceFilesView>,
}

/// A `Partition` as plain values.
pub struct PartitionView {
    pub name: Seq<char>,
    pub majmin: MajorMinor,
    pub removable: Option<u64>,
    pub size: Option<u64>,
    pub readonly: Option<u64>,
    pub metadata: Option<MetadataView>,
    pub mountpoint: Seq<char>,
}

/// A `Block` as plain values.
pub struct BlockView {
    pub name: Seq<char>,
    pub majmin: MajorMinor,
    pub removable: Option<u64>,
    pub size: Option<u64>,
    pub readonly: Option<u64>,
    pub partitions: Seq<PartitionView>,
    pub mountpoint: Seq<char>,
}

impl DeepView for DeviceFiles {
    type V = DeviceFilesView;

    open spec fn deep_view(&self) -> DeviceFilesView {
        DeviceFilesView {
            name: self.name@,
            dev: self.dev.deep_view(),
            removable: self.removable.deep_view(),
            size: self.size.deep_view(),
            ro: self.ro.deep_view(),
            udev: self.udev.deep_view(),
        }
    }
}

impl DeepView for DiskFiles {
    type V = DiskFilesView;

    open spec fn deep_view(&self) -> DiskFilesView {
        DiskFilesView { device: self.device.deep_view(), children: self.children.deep_view() }
    }
}

impl DeepView for Partition {
    type V = PartitionView;

    open spec fn deep_view(&self) -> PartitionView {
        PartitionView {
            name: self.name@,
            majmin: self.majmin,
            removable: self.removable,
            size: self.size,
            readonly: self.readonly,
            metadata: self.metadata.deep_view(),
            mountpoint: self.mountpoint@,
        }
    }
}

impl DeepView for Block {
    type V = BlockView;

    open spec fn deep_view(&self) -> BlockView {
        BlockView {
            name: self.name@,
            majmin: self.majmin,
            removable: self.removable,
            size: self.size,
            readonly: self.readonly,
            partitions: self.partitions.deep_view(),
            mountpoint: self.mountpoint@,
        }
    }
}

/// The count in an attribute file that was read, or could not be read.
pub open spec fn count_attribute(contents: Option<Seq<char>>) -> Option<u64> {
    match contents {
        Some(text) => count_of(text),
        None => None,
    }
}

/// The byte count in a `size` file that was read, or could not be read.
pub open spec fn bytes_attribute(contents: Option<Seq<char>>) -> Option<u64> {
    match contents {
        Some(text) => bytes_of(text),
        None => None,
    }
}

/// The device number in a `dev` file that was read, or could not be read.
pub open spec fn device_attribute(contents: Option<Seq<char>>) -> Option<MajorMinor> {
    match contents {
        Some(text) => device_number_of(text),
        None => None,
    }
}

/// Whether the directory `files`, listed in the directory of the disk
/// `disk`, is a partition of it: its name begins with the disk's, and it
/// has a device number.
pub open spec fn is_partition_of(disk: Seq<char>, files: DeviceFilesView) -> bool {
    starts_with(files.name, disk) && device_attribute(files.dev) is Some
}

/// The partition that `files` describes.
pub open spec fn partition_of(
    files: DeviceFilesView,
    mounts: Map<Seq<char>, Seq<char>>,
    swaps: Set<Seq<char>>,
) -> PartitionView {
    PartitionView {
        name: files.name,
        majmin: device_attribute(files.dev).unwrap(),
        removable: count_attribute(files.removable),
        size: bytes_attribute(files.size),
        readonly: count_attribute(files.ro),
        metadata: loaded_metadata_of(files.udev),
        mountpoint: mountpoint_of(files.name, mounts, swaps),
    }
}

/// The partitions of the disk `disk` among `entries`: those of `entries`
/// that are partitions of it, in the order of `entries`.
pub open spec fn partitions_of(
    disk: Seq<char>,
    entries: Seq<DeviceFilesView>,
    mounts: Map<Seq<char>, Seq<char>>,
    swaps: Set<Seq<char>>,
) -> Seq<PartitionView>
    decreases entries.len(),
{
    if entries.len() == 0 {
        Seq::empty()
    } else if is_partition_of(disk, entries.last()) {
        partitions_of(disk, entries.drop_last(), mounts, swaps).push(
            partition_of(entries.last(), mounts, swaps),
        )
    } else {
        partitions_of(disk, entries.drop_last(), mounts, swaps)
    }
}

/// The disk that `disk` describes, if it has a device number. A disk is
/// never shown as mounted itself.
pub open spec fn block_of(
    disk: DiskFilesView,
    mounts: Map<Seq<char>, Seq<char>>,
    swaps: Set<Seq<char>>,
) -> Option<BlockView> {
    match device_attribute(disk.device.dev) {
        Some(majmin) => Some(
            BlockView {
                name: disk.device.name,
                majmin,
                removable: count_attribute(disk.device.removable),
                size: bytes_attribute(disk.device.size),
                readonly: count_attribute(disk.device.ro),
                partitions: partitions_of(disk.device.name, disk.children, mounts, swaps),
                mountpoint: Seq::empty(),
            },
        ),
        None => None,
    }
}

/// The disks among `disks`: those with a device number, in the order of
/// `disks`.
pub open spec fn blocks_of(
    disks: Seq<DiskFilesView>,
    mounts: Map<Seq<char>, Seq<char>>,
    swaps: Set<Seq<char>>,
) -> Seq<BlockView>
    decreases disks.len(),
{
    if disks.len() == 0 {
        Seq::empty()
    } else {
        match block_of(disks.last(), mounts, swaps) {
            Some(block) => blocks_of(disks.drop_last(), mounts, swaps).push(block),
            None => blocks_of(disks.drop_last(), mounts, swaps),
        }
    }
}

/// For each of `entries`, whether it is a partition of `disk`.
pub open spec fn partition_flags(disk: Seq<char>, entries: Seq<DeviceFilesView>) -> Seq<bool> {
    Seq::new(entries.len(), |i: int| is_partition_of(disk, entries[i]))
}

/// For each of `disks`, whether it has a device number.
pub open spec fn block_flags(disks: Seq<DiskFilesView>) -> Seq<bool> {
    Seq::new(disks.len(), |i: int| device_attribute(disks[i].device.dev) is Some)
}

/// The partitions are the entries at the kept positions, one for one.
pub proof fn lemma_partitions_are_kept(
    disk: Seq<char>,
    entries: Seq<DeviceFilesView>,
    mounts: Map<Seq<char>, Seq<char>>,
    swaps: Set<Seq<char>>,
)
    ensures
        partitions_of(disk, entries, mounts, swaps).len() == kept(
            partition_flags(disk, entries),
        ).len(),
        forall|k: int|
            0 <= k < kept(partition_flags(disk, entries)).len() ==> {
                let i = #[trigger] kept(partition_flags(disk, entries))[k];
                &&& 0 <= i < entries.len()
                &&& is_partition_of(disk, entries[i])
                &&& partitions_of(disk, entries, mounts, swaps)[k] == partition_of(
                    entries[i],
                    mounts,
                    swaps,
                )
            },
    decreases entries.len(),
{
    let flags = partition_flags(disk, entries);
    lemma_kept(flags);
    if entries.len() > 0 {
        let rest = entries.drop_last();
        assert(flags.drop_last() == partition_flags(disk, rest));
        lemma_partitions_are_kept(disk, rest, mounts, swaps);
        lemma_kept(partition_flags(disk, rest));
        assert forall|k: int| 0 <= k < kept(flags).len() implies {
            let i = #[trigger] kept(flags)[k];
            &&& partitions_of(disk, entries, mounts, swaps)[k] == partition_of(
                entries[i],
                mounts,
                swaps,
            )
        } by {
            if k < kept(partition_flags(disk, rest)).len() {
                let i = kept(partition_flags(disk, rest))[k];
                assert(kept(flags)[k] == i);
                assert(rest[i] == entries[i]);
            }
        }
    }
}

/// Whether `from` gives, for each partition of `disk` among `entries`, the
/// position of the entry that it was made from, these positions rise, and
/// no entry that is a partition is missing from them.
pub open spec fn partitions_come_from(
    from: Seq<int>,
    disk: Seq<char>,
    entries: Seq<DeviceFilesView>,
    mounts: Map<Seq<char>, Seq<char>>,
    swaps: Set<Seq<char>>,
) -> bool {
    let partitions = partitions_of(disk, entries, mounts, swaps);
    &&& from.len() == partitions.len()
    &&& forall|k: int|
        0 <= k < from.len() ==> 0 <= #[trigger] from[k] < entries.len() && is_partition_of(
            disk,
            entries[from[k]],
        ) && partitions[k] == partition_of(entries[from[k]], mounts, swaps)
    &&& forall|k: int, l: int| 0 <= k < l < from.len() ==> #[trigger] from[k] < #[trigger] from[l]
    &&& forall|i: int|
        0 <= i < entries.len() && is_partition_of(disk, #[trigger] entries[i]) ==> from.contains(i)
}

/// The partitions of a disk come in the order in which its directory
/// lists them: each was made from one entry, and of two partitions the
/// earlier was made from the earlier entry. No entry that is a partition
/// is left out.
pub proof fn lemma_partitions_keep_order(
    disk: Seq<char>,
    entries: Seq<DeviceFilesView>,
    mounts: Map<Seq<char>, Seq<char>>,
    swaps: Set<Seq<char>>,
)
    ensures
        exists|from: Seq<int>| #[trigger] partitions_come_from(from, disk, entries, mounts, swaps),
{
    let flags = partition_flags(disk, entries);
    let from = kept(flags);
    lemma_kept(flags);
    lemma_partitions_are_kept(disk, entries, mounts, swaps);
    assert forall|i: int|
        0 <= i < entries.len() && is_partition_of(disk, #[trigger] entries[i]) implies from.contains(
        i,
    ) by {
        assert(flags[i]);
    }
    assert(partitions_come_from(from, disk, entries, mounts, swaps));
}

/// The partitions among two listings, one after the other, are those of
/// the first and then those of the second.
pub proof fn lemma_partitions_concat(
    disk: Seq<char>,
    first: Seq<DeviceFilesView>,
    second: Seq<DeviceFilesView>,
    mounts: Map<Seq<char>, Seq<char>>,
    swaps: Set<Seq<char>>,
)
    ensures
        partitions_of(disk, first + second, mounts, swaps) == partitions_of(
            disk,
            first,
            mounts,
            swaps,
        ) + partitions_of(disk, second, mounts, swaps),
    decreases second.len(),
{
    if second.len() == 0 {
        assert(first + second == first);
    } else {
        assert((first + second).drop_last() == first + second.drop_last());
        lemma_partitions_concat(disk, first, second.drop_last(), mounts, swaps);
    }
}

/// An entry whose `dev` file cannot be read, or does not hold a device
/// number, is no partition: the partitions are those of the listing
/// without it, and one fewer than they would be if the file held the
/// device number `dev`.
pub proof fn lemma_unreadable_dev_drops_partition(
    disk: Seq<char>,
    entries: Seq<DeviceFilesView>,
    i: int,
    dev: Seq<char>,
    mounts: Map<Seq<char>, Seq<char>>,
    swaps: Set<Seq<char>>,
)
    requires
        0 <= i < entries.len(),
        starts_with(entries[i].name, disk),
        device_attribute(entries[i].dev) is None,
        device_number_of(dev) is Some,
    ensures
        partitions_of(disk, entries, mounts, swaps) == partitions_of(
            disk,
            entries.remove(i),
            mounts,
            swaps,
        ),
        partitions_of(disk, entries, mounts, swaps).len() + 1 == partitions_of(
            disk,
            entries.update(i, DeviceFilesView { dev: Some(dev), ..entries[i] }),
            mounts,
            swaps,
        ).len(),
{
    let readable = DeviceFilesView { dev: Some(dev), ..entries[i] };
    let before = entries.take(i);
    let after = entries.skip(i + 1);
    let none = Seq::<DeviceFilesView>::empty();
    assert(entries == before + seq![entries[i]] + after);
    assert(entries.remove(i) == before + after);
    assert(entries.update(i, readable) == before + seq![readable] + after);
    assert(seq![entries[i]].drop_last() == none);
    assert(seq![readable].drop_last() == none);
    assert(partitions_of(disk, none, mounts, swaps).len() == 0);
    lemma_partitions_concat(disk, before, seq![entries[i]], mounts, swaps);
    lemma_partitions_concat(disk, before + seq![entries[i]], after, mounts, swaps);
    lemma_partitions_concat(disk, before, seq![readable], mounts, swaps);
    lemma_partitions_concat(disk, before + seq![readable], after, mounts, swaps);
    lemma_partitions_concat(disk, before, after, mounts, swaps);
}

/// The disks are the listed disks at the kept positions, one for one.
pub proof fn lemma_blocks_are_kept(
    disks: Seq<DiskFilesView>,
    mounts: Map<Seq<char>, Seq<char>>,
    swaps: Set<Seq<char>>,
)
    ensures
        blocks_of(disks, mounts, swaps).len() == kept(block_flags(disks)).len(),
        forall|k: int|
            0 <= k < kept(block_flags(disks)).len() ==> {
                let i = #[trigger] kept(block_flags(disks))[k];
                &&& 0 <= i < disks.len()
                &&& block_of(disks[i], mounts, swaps) == Some(blocks_of(disks, mounts, swaps)[k])
            },
    decreases disks.len(),
{
    let flags = block_flags(disks);
    lemma_kept(flags);
    if disks.len() > 0 {
        let rest = disks.drop_last();
        assert(flags.drop_last() == block_flags(rest));
        lemma_blocks_are_kept(rest, mounts, swaps);
        lemma_kept(block_flags(rest));
        assert forall|k: int| 0 <= k < kept(flags).len() implies {
            let i = #[trigger] kept(flags)[k];
            block_of(disks[i], mounts, swaps) == Some(blocks_of(disks, mounts, swaps)[k])
        } by {
            if k < kept(block_flags(rest)).len() {
                let i = kept(block_flags(rest))[k];
                assert(kept(flags)[k] == i);
                assert(rest[i] == disks[i]);
            }
        }
    }
}

/// Whether `from` gives, for each disk among `disks`, the position of the
/// listed disk that it was made from, these positions rise, and no listed
/// disk with a device number is missing from them.
pub open spec fn blocks_come_from(
    from: Seq<int>,
    disks: Seq<DiskFilesView>,
    mounts: Map<Seq<char>, Seq<char>>,
    swaps: Set<Seq<char>>,
) -> bool {
    let blocks = blocks_of(disks, mounts, swaps);
    &&& from.len() == blocks.len()
    &&& forall|k: int|
        0 <= k < from.len() ==> 0 <= #[trigger] from[k] < disks.len() && block_of(
            disks[from[k]],
            mounts,
            swaps,
        ) == Some(blocks[k])
    &&& forall|k: int, l: int| 0 <= k < l < from.len() ==> #[trigger] from[k] < #[trigger] from[l]
    &&& forall|i: int|
        0 <= i < disks.len() && block_of(#[trigger] disks[i], mounts, swaps) is Some
            ==> from.contains(i)
}

/// The disks come in the order in which they were listed: each was made
/// from one listed disk, and of two disks the earlier was made from the
/// earlier listed one. No listed disk with a device number is left out.
pub proof fn lemma_blocks_keep_order(
    disks: Seq<DiskFilesView>,
    mounts: Map<Seq<char>, Seq<char>>,
    swaps: Set<Seq<char>>,
)
    ensures
        exists|from: Seq<int>| #[trigger] blocks_come_from(from, disks, mounts, swaps),
{
    let flags = block_flags(disks);
    let from = kept(flags);
    lemma_kept(flags);
    lemma_blocks_are_kept(disks, mounts, swaps);
    assert forall|i: int|
        0 <= i < disks.len() && block_of(
            #[trigger] disks[i],
            mounts,
            swaps,
        ) is Some implies from.contains(i) by {
        assert(flags[i]);
    }
    assert(blocks_come_from(from, disks, mounts, swaps));
}

impl DeviceFiles {
    /// The device number in the `dev` file.
    pub fn device_number(&self) -> (r: Option<MajorMinor>)
        ensures
            r == device_attribute(self.dev.deep_view()),
    {
        match &self.dev {
            Some(text) => parse_device_file(text.as_str()),
            None => None,
        }
    }

    /// The count in the `removable` file.
    pub fn removable(&self) -> (r: Option<u64>)
        ensures
            r == count_attribute(self.removable.deep_view()),
    {
        match &self.removable {
            Some(text) => parse_block_file(text.as_str()),
            None => None,
        }
    }

    /// The size in bytes, from the `size` file.
    pub fn size(&self) -> (r: Option<u64>)
        ensures
            r == bytes_attribute(self.size.deep_view()),
    {
        match &self.size {
            Some(text) => parse_sector_file(text.as_str()),
            None => None,
        }
    }

    /// The count in the `ro` file.
    pub fn readonly(&self) -> (r: Option<u64>)
        ensures
            r == count_attribute(self.ro.deep_view()),
    {
        match &self.ro {
            Some(text) => parse_block_file(text.as_str()),
            None => None,
        }
    }
}

/// The partitions of the disk `block_name` among the directories listed in
/// its own, in the order of the listing.
pub fn read_partitions(
    entries: &Vec<DeviceFiles>,
    block_name: &str,
    mounts: &MountTable,
    swaps: &SwapTable,
) -> (partitions: Vec<Partition>)
    ensures
        partitions.deep_view() == partitions_of(
            block_name@,
            entries.deep_view(),
            mounts@,
            swaps@,
        ),
{
    let disk = to_chars(block_name);
    let mut partitions: Vec<Partition> = Vec::new();
    let mut i: usize = 0;
    assert(partitions.deep_view() == Seq::<PartitionView>::empty());
    while i < entries.len()
        invariant
            i <= entries.len(),
            disk@ == block_name@,
            partitions.deep_view() == partitions_of(
                block_name@,
                entries.deep_view().take(i as int),
                mounts@,
                swaps@,
            ),
        decreases entries.len() - i,
    {
        let entry = &entries[i];
        let ghost before = partitions.deep_view();
        proof {
            let seen = entries.deep_view().take(i + 1);
            assert(seen.drop_last() == entries.deep_view().take(i as int));
            assert(seen.last() == entry.deep_view());
        }
        let name = to_chars(entry.name.as_str());
        if has_prefix(name.as_slice(), disk.as_slice()) {
            match entry.device_number() {
                Some(majmin) => {
                    let partition = Partition {
                        name: entry.name.clone(),
                        majmin,
                        removable: entry.removable(),
                        size: entry.size(),
                        readonly: entry.readonly(),
                        metadata: load_uevent_metadata(&entry.udev),
                        mountpoint: read_partition_mountpoint(entry.name.as_str(), mounts, swaps),
                    };
                    let ghost made = partition.deep_view();
                    partitions.push(partition);
                    assert(partitions.deep_view() == before.push(made));
                },
                None => {},
            }
        }
        i += 1;
    }
    assert(entries.deep_view().take(i as int) == entries.deep_view());
    partitions
}

/// The disk that `disk` describes, with its partitions, or nothing where
/// it has no device number.
pub fn read_block(disk: &DiskFiles, mounts: &MountTable, swaps: &SwapTable) -> (block: Option<Block>)
    ensures
        block.deep_view() == block_of(disk.deep_view(), mounts@, swaps@),
{
    match disk.device.device_number() {
        Some(majmin) => Some(
            Block {
                name: disk.device.name.clone(),
                majmin,
                removable: disk.device.removable(),
                size: disk.device.size(),
                readonly: disk.device.readonly(),
                partitions: read_partitions(
                    &disk.children,
                    disk.device.name.as_str(),
                    mounts,
                    swaps,
                ),
                mountpoint: String::new(),
            },
        ),
        None => None,
    }
}

/// The disks among `disks`, each with its partitions, in the order of
/// `disks`.
pub fn read_blocks(disks: &Vec<DiskFiles>, mounts: &MountTable, swaps: &SwapTable) -> (blocks: Vec<
    Block,
>)
    ensures
        blocks.deep_view() == blocks_of(disks.deep_view(), mounts@, swaps@),
{
    let mut blocks: Vec<Block> = Vec::new();
    let mut i: usize = 0;
    assert(blocks.deep_view() == Seq::<BlockView>::empty());
    while i < disks.len()
        invariant
            i <= disks.len(),
            blocks.deep_view() == blocks_of(disks.deep_view().take(i as int), mounts@, swaps@),
        decreases disks.len() - i,
    {
        let ghost before = blocks.deep_view();
        proof {
            let seen = disks.deep_view().take(i + 1);
            assert(seen.drop_last() == disks.deep_view().take(i as int));
            assert(seen.last() == disks[i as int].deep_view());
        }
        match read_block(&disks[i], mounts, swaps) {
            Some(block) => {
                let ghost made = block.deep_view();
                blocks.push(block);
                assert(blocks.deep_view() == before.push(made));
            },
            None => {},
        }
        i += 1;
    }
    assert(disks.deep_view().take(i as int) == disks.deep_view());
    blocks
}

} // verus!
