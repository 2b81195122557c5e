//! The cells of the table in which disks and partitions are shown.

use crate::decimal::{decimal_string, decimal_text, lemma_text_len_below_thousand};
use crate::majmin::MajorMinor;
use crate::scan::{Block, BlockView, Partition, PartitionView};
use vstd::prelude::*;

verus! {

/// What a row of the table shows.
#[derive(Debug, Clone, Copy, PartialEq, Eq, Structural)]
pub enum BlockType {
    Disk,
    Partition,
}

/// The unit in which a size is shown.
#[derive(Debug, Clone, Copy, PartialEq, Eq, Structural)]
pub enum SizeUnit {
    Bytes,
    Kibi,
    Mebi,
    Gibi,
    Tebi,
    Pebi,
    Exbi,
}

/// One row of the table. The size is kept as a number.
#[derive(Debug, PartialEq)]
pub struct Row {
    pub name: String,
    pub majmin: String,
    pub removable: &'static str,
    pub size: Option<u64>,
    pub readonly: &'static str,
    pub row_type: BlockType,
    pub mountpoint: String,
}

/// A `Row` as plain values.
pub struct RowView {
    pub name: Seq<char>,
    pub majmin: Seq<char>,
    pub removable: Seq<char>,
    pub size: Option<u64>,
    pub readonly: Seq<char>,
    pub row_type: BlockType,
    pub mountpoint: Seq<char>,
}

impl DeepView for Row {
    type V = RowView;

    open spec fn deep_view(&self) -> RowView {
        RowView {
            name: self.name@,
            majmin: self.majmin@,
            removable: self.removable@,
            size: self.size,
            readonly: self.readonly@,
            row_type: self.row_type,
            mountpoint: self.mountpoint@,
        }
    }
}

/// `n` spaces.
pub open spec fn spaces(n: int) -> Seq<char> {
    Seq::new(
        if n > 0 {
            n as nat
        } else {
            0
        },
        |i: int| ' ',
    )
}

/// `s` with spaces before it up to `width` characters.
pub open spec fn pad_left(s: Seq<char>, width: int) -> Seq<char> {
    spaces(width - s.len()) + s
}

/// `s` with spaces after it up to `width` characters.
pub open spec fn pad_right(s: Seq<char>, width: int) -> Seq<char> {
    s + spaces(width - s.len())
}

/// The word for a row's type.
pub open spec fn block_type_text(blocktype: BlockType) -> Seq<char> {
    match blocktype {
        BlockType::Disk => "disk"@,
        BlockType::Partition => "part"@,
    }
}

/// The cell of a device number: the major number flush right in three
/// columns, a colon, the minor number flush left in three.
pub open spec fn major_minor_cell(m: MajorMinor) -> Seq<char> {
    pad_left(decimal_text(m.major as nat), 3) + seq![':'] + pad_right(
        decimal_text(m.minor as nat),
        3,
    )
}

/// The cell of a count that stands for yes or no: blank where it is not
/// known, ` 0` for zero, ` 1` for anything else.
pub open spec fn flag_cell(flag: Option<u64>) -> Seq<char> {
    match flag {
        None => "  "@,
        Some(n) => if n == 0 {
            " 0"@
        } else {
            " 1"@
        },
    }
}

/// The unit for a size: bytes below 1024, then the smallest unit of which
/// the size is at most 1024.
pub open spec fn unit_of(size: u64) -> SizeUnit {
    if size < 0x400 {
        SizeUnit::Bytes
    } else if size <= 0x10_0000 {
        SizeUnit::Kibi
    } else if size <= 0x4000_0000 {
        SizeUnit::Mebi
    } else if size <= 0x100_0000_0000 {
        SizeUnit::Gibi
    } else if size <= 0x4_0000_0000_0000 {
        SizeUnit::Tebi
    } else if size <= 0x1000_0000_0000_0000 {
        SizeUnit::Pebi
    } else {
        SizeUnit::Exbi
    }
}

/// The power of 1024 that one of `unit` holds.
pub open spec fn power_of(unit: SizeUnit) -> u32 {
    match unit {
        SizeUnit::Bytes => 0,
        SizeUnit::Kibi => 1,
        SizeUnit::Mebi => 2,
        SizeUnit::Gibi => 3,
        SizeUnit::Tebi => 4,
        SizeUnit::Pebi => 5,
        SizeUnit::Exbi => 6,
    }
}

/// The letter that stands for `unit`; none for bytes.
pub open spec fn suffix_of(unit: SizeUnit) -> Seq<char> {
    match unit {
        SizeUnit::Bytes => ""@,
        SizeUnit::Kibi => "K"@,
        SizeUnit::Mebi => "M"@,
        SizeUnit::Gibi => "G"@,
        SizeUnit::Tebi => "T"@,
        SizeUnit::Pebi => "P"@,
        SizeUnit::Exbi => "E"@,
    }
}

/// How many digits are shown after the point: one for mebibytes, none for
/// the other units.
pub open spec fn precision_of(unit: SizeUnit) -> usize {
    match unit {
        SizeUnit::Mebi => 1,
        _ => 0,
    }
}

/// A number in some unit as it is shown: `scaled`, its digits, flush right
/// in four columns, then the letter of the unit.
pub open spec fn units_cell(scaled: Seq<char>, suffix: Seq<char>) -> Seq<char> {
    pad_left(scaled, 4) + suffix
}

/// The cell of a size: blank where it is not known; the number of bytes,
/// flush right in five columns, below 1024; from there on `scaled`, which
/// is to hold the size in its unit, with the letter of that unit.
pub open spec fn size_cell(size: Option<u64>, scaled: Seq<char>) -> Seq<char> {
    match size {
        None => "     "@,
        Some(bytes) => if unit_of(bytes) == SizeUnit::Bytes {
            pad_left(decimal_text(bytes as nat), 5)
        } else {
            units_cell(scaled, suffix_of(unit_of(bytes)))
        },
    }
}

/// What stands before the name of a partition: a corner before the last
/// partition of a disk, a tee before the others.
pub open spec fn branch(last: bool) -> Seq<char> {
    if last {
        "\u{2514}\u{2500}"@
    } else {
        "\u{251C}\u{2500}"@
    }
}

/// The row of a disk.
pub open spec fn disk_row(block: BlockView) -> RowView {
    RowView {
        name: block.name,
        majmin: major_minor_cell(block.majmin),
        removable: flag_cell(block.removable),
        size: block.size,
        readonly: flag_cell(block.readonly),
        row_type: BlockType::Disk,
        mountpoint: block.mountpoint,
    }
}

/// The row of a partition of `block`. Whether it is removable is said of
/// the disk.
pub open spec fn partition_row(block: BlockView, partition: PartitionView, last: bool) -> RowView {
    RowView {
        name: branch(last) + partition.name,
        majmin: major_minor_cell(partition.majmin),
        removable: flag_cell(block.removable),
        size: partition.size,
        readonly: flag_cell(partition.readonly),
        row_type: BlockType::Partition,
        mountpoint: partition.mountpoint,
    }
}

/// The rows of the first `upto` partitions of `block`.
pub open spec fn partition_rows(block: BlockView, upto: int) -> Seq<RowView> {
    Seq::new(
        upto as nat,
        |k: int| partition_row(block, block.partitions[k], k + 1 == block.partitions.len()),
    )
}

/// The rows of a disk: its own, then one for each partition.
pub open spec fn block_rows(block: BlockView) -> Seq<RowView> {
    seq![disk_row(block)] + partition_rows(block, block.partitions.len() as int)
}

/// The rows of the table: those of each disk, in the order of the disks.
pub open spec fn rows_of(blocks: Seq<BlockView>) -> Seq<RowView>
    decreases blocks.len(),
{
    if blocks.len() == 0 {
        Seq::empty()
    } else {
        rows_of(blocks.drop_last()) + block_rows(blocks.last())
    }
}

/// The length of the longest name among `rows`, in characters.
pub open spec fn name_width_of(rows: Seq<RowView>) -> nat
    decreases rows.len(),
{
    if rows.len() == 0 {
        0
    } else {
        let before = name_width_of(rows.drop_last());
        if rows.last().name.len() > before {
            rows.last().name.len()
        } else {
            before
        }
    }
}

/// The heading of the table, for names `width` characters wide.
pub open spec fn header_line_of(width: int) -> Seq<char> {
    pad_right("NAME"@, width) + " MAJ:MIN RM  SIZE RO TYPE MOUNTPOINT"@
}

/// The line of `row`, for names `width` characters wide and with
/// `size_cell` for its size: the cells with one space between, the name
/// and the type flush left, the size flush right in five columns.
pub open spec fn row_line_of(row: RowView, width: int, size_cell: Seq<char>) -> Seq<char> {
    pad_right(row.name, width) + seq![' '] + row.majmin + seq![' '] + row.removable + seq![' ']
        + pad_left(size_cell, 5) + seq![' '] + row.readonly + seq![' '] + pad_right(
        block_type_text(row.row_type),
        4,
    ) + seq![' '] + row.mountpoint
}

/// Appends `n` spaces to `out`.
fn push_spaces(out: &mut String, n: usize)
    ensures
        final(out)@ == old(out)@ + spaces(n as int),
{
    let ghost before = out@;
    let mut i: usize = 0;
    assert(out@ =~= before + spaces(0));
    while i < n
        invariant
            i <= n,
            out@ == before + spaces(i as int),
        decreases n - i,
    {
        out.append(" ");
        proof {
            reveal_strlit(" ");
            assert(out@ =~= before + spaces(i + 1));
        }
        i += 1;
    }
}

/// Appends `s` and then spaces up to `width` characters.
fn push_flush_left(out: &mut String, s: &str, width: usize)
    ensures
        final(out)@ == old(out)@ + pad_right(s@, width as int),
{
    let ghost before = out@;
    let len = s.unicode_len();
    out.append(s);
    if len < width {
        push_spaces(out, width - len);
    } else {
        assert(spaces(width - len) =~= Seq::<char>::empty());
    }
    assert(out@ =~= before + pad_right(s@, width as int));
}

/// Appends spaces up to `width` characters and then `s`.
fn push_flush_right(out: &mut String, s: &str, width: usize)
    ensures
        final(out)@ == old(out)@ + pad_left(s@, width as int),
{
    let ghost before = out@;
    let len = s.unicode_len();
    if len < width {
        push_spaces(out, width - len);
    } else {
        assert(spaces(width - len) =~= Seq::<char>::empty());
    }
    out.append(s);
    assert(out@ =~= before + pad_left(s@, width as int));
}

/// The word for a row's type.
pub fn describe_block_type(blocktype: BlockType) -> (r: &'static str)
    ensures
        r@ == block_type_text(blocktype),
{
    match blocktype {
        BlockType::Disk => "disk",
        BlockType::Partition => "part",
    }
}

/// The cell of a device number, seven characters wide.
pub fn format_major_minor(majmin: &MajorMinor) -> (r: String)
    ensures
        r@ == major_minor_cell(*majmin),
        r@.len() == 7,
{
    let major = decimal_string(majmin.major as u64);
    let minor = decimal_string(majmin.minor as u64);
    let mut out = String::new();
    push_flush_right(&mut out, major.as_str(), 3);
    out.append(":");
    push_flush_left(&mut out, minor.as_str(), 3);
    proof {
        reveal_strlit(":");
        assert(":"@ =~= seq![':']);
        assert(out@ =~= major_minor_cell(*majmin));
        lemma_text_len_below_thousand(majmin.major as nat);
        lemma_text_len_below_thousand(majmin.minor as nat);
    }
    out
}

/// The cell that says whether a device is removable.
pub fn pretty_removable(removable: Option<u64>) -> (r: &'static str)
    ensures
        r@ == flag_cell(removable),
{
    match removable {
        Some(0) => " 0",
        Some(_) => " 1",
        None => "  ",
    }
}

/// The cell that says whether a device is read-only.
pub fn pretty_readonly(readonly: Option<u64>) -> (r: &'static str)
    ensures
        r@ == flag_cell(readonly),
{
    match readonly {
        Some(0) => " 0",
        Some(_) => " 1",
        None => "  ",
    }
}

/// The unit in which `size` is shown.
pub fn size_unit(size: u64) -> (unit: SizeUnit)
    ensures
        unit == unit_of(size),
{
    if size < 0x400 {
        SizeUnit::Bytes
    } else if size <= 0x10_0000 {
        SizeUnit::Kibi
    } else if size <= 0x4000_0000 {
        SizeUnit::Mebi
    } else if size <= 0x100_0000_0000 {
        SizeUnit::Gibi
    } else if size <= 0x4_0000_0000_0000 {
        SizeUnit::Tebi
    } else if size <= 0x1000_0000_0000_0000 {
        SizeUnit::Pebi
    } else {
        SizeUnit::Exbi
    }
}

impl SizeUnit {
    /// The power of 1024 that one of this unit holds.
    pub fn power(self) -> (p: u32)
        ensures
            p == power_of(self),
    {
        match self {
            SizeUnit::Bytes => 0,
            SizeUnit::Kibi => 1,
            SizeUnit::Mebi => 2,
            SizeUnit::Gibi => 3,
            SizeUnit::Tebi => 4,
            SizeUnit::Pebi => 5,
            SizeUnit::Exbi => 6,
        }
    }

    /// The letter shown after a size in this unit.
    pub fn suffix(self) -> (s: &'static str)
        ensures
            s@ == suffix_of(self),
    {
        match self {
            SizeUnit::Bytes => "",
            SizeUnit::Kibi => "K",
            SizeUnit::Mebi => "M",
            SizeUnit::Gibi => "G",
            SizeUnit::Tebi => "T",
            SizeUnit::Pebi => "P",
            SizeUnit::Exbi => "E",
        }
    }

    /// How many digits are shown after the point.
    pub fn precision(self) -> (digits: usize)
        ensures
            digits == precision_of(self),
    {
        match self {
            SizeUnit::Mebi => 1,
            _ => 0,
        }
    }
}

/// A number in some unit as it is shown. `scaled` holds the digits of the
/// number, `suffix` the letter of the unit.
pub fn pretty_units(scaled: &str, suffix: &str) -> (r: String)
    ensures
        r@ == units_cell(scaled@, suffix@),
{
    let mut out = String::new();
    push_flush_right(&mut out, scaled, 4);
    out.append(suffix);
    assert(out@ =~= units_cell(scaled@, suffix@));
    out
}

/// The cell of a size. For a size of 1024 bytes or more, `scaled` holds
/// the size in the unit that `size_unit` names for it, with as many digits
/// after the point as that unit asks for.
pub fn pretty_size(size: Option<u64>, scaled: &str) -> (r: String)
    ensures
        r@ == size_cell(size, scaled@),
{
    match size {
        Some(bytes) => match size_unit(bytes) {
            SizeUnit::Bytes => {
                let digits = decimal_string(bytes);
                let mut out = String::new();
                push_flush_right(&mut out, digits.as_str(), 5);
                assert(out@ =~= pad_left(decimal_text(bytes as nat), 5));
                out
            },
            unit => pretty_units(scaled, unit.suffix()),
        },
        None => "     ".to_owned(),
    }
}

/// The row of a disk.
fn row_of_disk(block: &Block) -> (row: Row)
    ensures
        row.deep_view() == disk_row(block.deep_view()),
{
    Row {
        name: block.name.clone(),
        majmin: format_major_minor(&block.majmin),
        removable: pretty_removable(block.removable),
        size: block.size,
        readonly: pretty_readonly(block.readonly),
        row_type: BlockType::Disk,
        mountpoint: block.mountpoint.clone(),
    }
}

/// The row of a partition of `block`.
fn row_of_partition(block: &Block, partition: &Partition, last: bool) -> (row: Row)
    ensures
        row.deep_view() == partition_row(block.deep_view(), partition.deep_view(), last),
{
    let mut name = if last {
        "\u{2514}\u{2500}".to_owned()
    } else {
        "\u{251C}\u{2500}".to_owned()
    };
    name.append(partition.name.as_str());
    Row {
        name,
        majmin: format_major_minor(&partition.majmin),
        removable: pretty_removable(block.removable),
        size: partition.size,
        readonly: pretty_readonly(partition.readonly),
        row_type: BlockType::Partition,
        mountpoint: partition.mountpoint.clone(),
    }
}

/// The rows of the table for `blocks`: each disk, followed by its
/// partitions.
pub fn table_rows(blocks: &Vec<Block>) -> (rows: Vec<Row>)
    ensures
        rows.deep_view() == rows_of(blocks.deep_view()),
{
    let mut rows: Vec<Row> = Vec::new();
    let mut i: usize = 0;
    assert(rows.deep_view() == Seq::<RowView>::empty());
    while i < blocks.len()
        invariant
            i <= blocks.len(),
            rows.deep_view() == rows_of(blocks.deep_view().take(i as int)),
        decreases blocks.len() - i,
    {
        let block = &blocks[i];
        let ghost done = rows.deep_view();
        let ghost b = block.deep_view();
        proof {
            let seen = blocks.deep_view().take(i + 1);
            assert(seen.drop_last() == blocks.deep_view().take(i as int));
            assert(seen.last() == b);
        }
        let row = row_of_disk(block);
        rows.push(row);
        assert(rows.deep_view() == done + seq![disk_row(b)] + partition_rows(b, 0));
        let n = block.partitions.len();
        let mut j: usize = 0;
        while j < n
            invariant
                j <= n,
                n == block.partitions.len(),
                b == block.deep_view(),
                rows.deep_view() == done + seq![disk_row(b)] + partition_rows(b, j as int),
            decreases n - j,
        {
            let ghost so_far = rows.deep_view();
            let row = row_of_partition(block, &block.partitions[j], j + 1 == n);
            let ghost made = row.deep_view();
            rows.push(row);
            proof {
                assert(b.partitions[j as int] == block.partitions[j as int].deep_view());
                assert(rows.deep_view() == so_far.push(made));
                assert(partition_rows(b, j + 1) == partition_rows(b, j as int).push(made));
                assert(rows.deep_view() == done + seq![disk_row(b)] + partition_rows(b, j + 1));
            }
            j += 1;
        }
        assert(rows.deep_view() == done + block_rows(b));
        i += 1;
    }
    assert(blocks.deep_view().take(i as int) == blocks.deep_view());
    rows
}

/// The length of the longest name among `rows`, in characters.
pub fn name_width(rows: &Vec<Row>) -> (width: usize)
    ensures
        width == name_width_of(rows.deep_view()),
{
    let mut width: usize = 0;
    let mut i: usize = 0;
    while i < rows.len()
        invariant
            i <= rows.len(),
            width == name_width_of(rows.deep_view().take(i as int)),
        decreases rows.len() - i,
    {
        proof {
            let seen = rows.deep_view().take(i + 1);
            assert(seen.drop_last() == rows.deep_view().take(i as int));
            assert(seen.last() == rows[i as int].deep_view());
        }
        let len = rows[i].name.as_str().unicode_len();
        if len > width {
            width = len;
        }
        i += 1;
    }
    assert(rows.deep_view().take(i as int) == rows.deep_view());
    width
}

/// The heading of the table, for names `width` characters wide.
pub fn header_line(width: usize) -> (line: String)
    ensures
        line@ == header_line_of(width as int),
{
    let mut line = String::new();
    push_flush_left(&mut line, "NAME", width);
    line.append(" MAJ:MIN RM  SIZE RO TYPE MOUNTPOINT");
    assert(line@ =~= header_line_of(width as int));
    line
}

/// The line of `row`, for names `width` characters wide, with `size_cell`
/// in the place of its size.
pub fn row_line(row: &Row, width: usize, size_cell: &str) -> (line: String)
    ensures
        line@ == row_line_of(row.deep_view(), width as int, size_cell@),
{
    proof {
        reveal_strlit(" ");
        assert(" "@ =~= seq![' ']);
    }
    let mut line = String::new();
    push_flush_left(&mut line, row.name.as_str(), width);
    line.append(" ");
    line.append(row.majmin.as_str());
    line.append(" ");
    line.append(row.removable);
    line.append(" ");
    push_flush_right(&mut line, size_cell, 5);
    line.append(" ");
    line.append(row.readonly);
    line.append(" ");
    push_flush_left(&mut line, describe_block_type(row.row_type), 4);
    line.append(" ");
    line.append(row.mountpoint.as_str());
    assert(line@ =~= row_line_of(row.deep_view(), width as int, size_cell@));
    line
}

} // verus!
