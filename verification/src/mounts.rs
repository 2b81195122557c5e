//! The mount table and the swap list, and where a partition is mounted.

use crate::text::{
    is_space, lemma_space_len, lemma_space_len_is, lemma_word_len, lemma_word_len_is, lines_of,
    same_text, space_end, space_len, split_lines, to_chars, word_end, word_len,
};
use vstd::prelude::*;

verus! {

/// Device paths and where each is mounted. A path entered twice keeps what
/// was entered last.
pub struct MountTable {
    entries: Vec<(String, String)>,
}

/// The device paths that serve as swap space.
pub struct SwapTable {
    devices: Vec<String>,
}

/// The map that entering `entries` in order gives.
spec fn table_of(entries: Seq<(String, String)>) -> Map<Seq<char>, Seq<char>>
    decreases entries.len(),
{
    if entries.len() == 0 {
        Map::empty()
    } else {
        table_of(entries.drop_last()).insert(entries.last().0@, entries.last().1@)
    }
}

/// The set of the texts of `devices`.
spec fn set_of(devices: Seq<String>) -> Set<Seq<char>>
    decreases devices.len(),
{
    if devices.len() == 0 {
        Set::empty()
    } else {
        set_of(devices.drop_last()).insert(devices.last()@)
    }
}

/// Whether `t` splits after `k` characters into whitespace and a rest that
/// holds no line feed.
pub open spec fn splits_at(t: Seq<char>, k: int) -> bool {
    &&& forall|j: int| 0 <= j < k ==> is_space(#[trigger] t[j])
    &&& forall|j: int| k <= j < t.len() ==> #[trigger] t[j] != '\n'
}

/// Whether `t` is whitespace followed by at least one more character, the
/// characters after that whitespace free of line feeds: what must follow
/// the fields that a table line is read for.
pub open spec fn is_tail(t: Seq<char>) -> bool {
    exists|k: int| 1 <= k < t.len() && #[trigger] splits_at(t, k)
}

/// Whether `w` is a word: one character or more, none of them whitespace.
pub open spec fn is_word(w: Seq<char>) -> bool {
    w.len() > 0 && forall|j: int| 0 <= j < w.len() ==> !is_space(#[trigger] w[j])
}

/// Whether `g` is a gap: one character or more, all of them whitespace.
pub open spec fn is_gap(g: Seq<char>) -> bool {
    g.len() > 0 && forall|j: int| 0 <= j < g.len() ==> is_space(#[trigger] g[j])
}

/// Whether `line` is the word `device`, the gap `gap`, the word `point`
/// and the tail `tail`, in this order and with nothing else.
pub open spec fn is_mount_line(
    line: Seq<char>,
    device: Seq<char>,
    gap: Seq<char>,
    point: Seq<char>,
    tail: Seq<char>,
) -> bool {
    &&& line == device + gap + point + tail
    &&& is_word(device)
    &&& is_gap(gap)
    &&& is_word(point)
    &&& is_tail(tail)
}

/// Whether `line` is the word `device`, which begins with a slash and goes
/// on, and the tail `tail`.
pub open spec fn is_swap_line(line: Seq<char>, device: Seq<char>, tail: Seq<char>) -> bool {
    &&& line == device + tail
    &&& is_word(device)
    &&& device.len() >= 2
    &&& device[0] == '/'
    &&& is_tail(tail)
}

/// The device path and the mount point of a line of the mount table: its
/// first two words, if whitespace and more text follow the second.
pub open spec fn mount_line(line: Seq<char>) -> Option<(Seq<char>, Seq<char>)> {
    let a = word_len(line);
    let b = a + space_len(line.skip(a));
    let c = b + word_len(line.skip(b));
    if 0 < a < b < c && is_tail(line.skip(c)) {
        Some((line.take(a), line.subrange(b, c)))
    } else {
        None
    }
}

/// The device path of a line of the swap list: its first word, if that
/// begins with a slash and goes on, and whitespace and more text follow it.
pub open spec fn swap_line(line: Seq<char>) -> Option<Seq<char>> {
    let a = word_len(line);
    if a >= 2 && line[0] == '/' && is_tail(line.skip(a)) {
        Some(line.take(a))
    } else {
        None
    }
}

/// The mount table that `lines` make, a later line overwriting an earlier
/// one for the same device path.
pub open spec fn mounts_of(lines: Seq<Seq<char>>) -> Map<Seq<char>, Seq<char>>
    decreases lines.len(),
{
    if lines.len() == 0 {
        Map::empty()
    } else {
        match mount_line(lines.last()) {
            Some(entry) => mounts_of(lines.drop_last()).insert(entry.0, entry.1),
            None => mounts_of(lines.drop_last()),
        }
    }
}

/// The swap devices that `lines` name.
pub open spec fn swaps_of(lines: Seq<Seq<char>>) -> Set<Seq<char>>
    decreases lines.len(),
{
    if lines.len() == 0 {
        Set::empty()
    } else {
        match swap_line(lines.last()) {
            Some(device) => swaps_of(lines.drop_last()).insert(device),
            None => swaps_of(lines.drop_last()),
        }
    }
}

/// The path of the device node of the partition `name`.
pub open spec fn device_path(name: Seq<char>) -> Seq<char> {
    "/dev/"@ + name
}

/// The label shown for a partition that is swap space.
pub open spec fn swap_label() -> Seq<char> {
    "[SWAP]"@
}

/// Where the partition `name` is mounted: what the mount table says of its
/// device path; failing that, the swap label if the swap list names the
/// path; failing that, nothing.
pub open spec fn mountpoint_of(
    name: Seq<char>,
    mounts: Map<Seq<char>, Seq<char>>,
    swaps: Set<Seq<char>>,
) -> Seq<char> {
    let path = device_path(name);
    if mounts.contains_key(path) {
        mounts[path]
    } else if swaps.contains(path) {
        swap_label()
    } else {
        Seq::empty()
    }
}

/// A tail begins with whitespace.
proof fn lemma_tail_begins_with_space(tail: Seq<char>)
    requires
        is_tail(tail),
    ensures
        tail.len() >= 2,
        is_space(tail[0]),
{
    let k = choose|k: int| 1 <= k < tail.len() && #[trigger] splits_at(tail, k);
    assert(is_space(tail[0]));
}

/// A line of the mount table is read as a device path and a mount point
/// exactly when it is these two words with a gap between and a tail after.
pub proof fn lemma_mount_line_grammar(line: Seq<char>, device: Seq<char>, point: Seq<char>)
    ensures
        mount_line(line) == Some((device, point)) <==> exists|gap: Seq<char>, tail: Seq<char>|
            #[trigger] is_mount_line(line, device, gap, point, tail),
{
    let a = word_len(line);
    let b = a + space_len(line.skip(a));
    let c = b + word_len(line.skip(b));
    lemma_word_len(line);
    lemma_space_len(line.skip(a));
    if mount_line(line) == Some((device, point)) {
        lemma_word_len(line.skip(b));
        let gap = line.subrange(a, b);
        let tail = line.skip(c);
        assert(line == device + gap + point + tail);
        assert forall|j: int| 0 <= j < gap.len() implies is_space(#[trigger] gap[j]) by {
            assert(gap[j] == line.skip(a)[j]);
        }
        assert forall|j: int| 0 <= j < point.len() implies !is_space(#[trigger] point[j]) by {
            assert(point[j] == line.skip(b)[j]);
        }
        assert(is_mount_line(line, device, gap, point, tail));
    }
    if exists|gap: Seq<char>, tail: Seq<char>| #[trigger]
        is_mount_line(line, device, gap, point, tail) {
        let (gap, tail) = choose|gap: Seq<char>, tail: Seq<char>| #[trigger]
            is_mount_line(line, device, gap, point, tail);
        lemma_tail_begins_with_space(tail);
        let d = device.len() as int;
        let g = gap.len() as int;
        let p = point.len() as int;
        assert(line[d] == gap[0]);
        assert forall|j: int| 0 <= j < d implies !is_space(line[j]) by {
            assert(line[j] == device[j]);
        }
        lemma_word_len_is(line, d);
        let after_device = line.skip(d);
        assert(after_device == gap + point + tail);
        assert(after_device[g] == point[0]);
        assert forall|j: int| 0 <= j < g implies is_space(after_device[j]) by {
            assert(after_device[j] == gap[j]);
        }
        lemma_space_len_is(after_device, g);
        let after_gap = line.skip(d + g);
        assert(after_gap == point + tail);
        assert(after_gap[p] == tail[0]);
        assert forall|j: int| 0 <= j < p implies !is_space(after_gap[j]) by {
            assert(after_gap[j] == point[j]);
        }
        lemma_word_len_is(after_gap, p);
        assert(line.skip(d + g + p) == tail);
        assert(line.take(d) == device);
        assert(line.subrange(d + g, d + g + p) == point);
    }
}

/// A line of the swap list is read as a device path exactly when it is
/// that path, a word of a slash and more, with a tail after it.
pub proof fn lemma_swap_line_grammar(line: Seq<char>, device: Seq<char>)
    ensures
        swap_line(line) == Some(device) <==> exists|tail: Seq<char>| #[trigger]
            is_swap_line(line, device, tail),
{
    let a = word_len(line);
    lemma_word_len(line);
    if swap_line(line) == Some(device) {
        let tail = line.skip(a);
        assert(line == device + tail);
        assert(device[0] == line[0]);
        assert(is_swap_line(line, device, tail));
    }
    if exists|tail: Seq<char>| #[trigger] is_swap_line(line, device, tail) {
        let tail = choose|tail: Seq<char>| #[trigger] is_swap_line(line, device, tail);
        lemma_tail_begins_with_space(tail);
        let d = device.len() as int;
        assert(line[d] == tail[0]);
        assert forall|j: int| 0 <= j < d implies !is_space(line[j]) by {
            assert(line[j] == device[j]);
        }
        lemma_word_len_is(line, d);
        assert(line.skip(d) == tail);
        assert(line.take(d) == device);
        assert(line[0] == device[0]);
    }
}

/// A device path that the mount table knows is reported with its mount
/// point, whether or not the swap list names it too.
pub proof fn lemma_mount_before_swap(
    name: Seq<char>,
    mounts: Map<Seq<char>, Seq<char>>,
    swaps: Set<Seq<char>>,
)
    requires
        mounts.contains_key(device_path(name)),
    ensures
        mountpoint_of(name, mounts, swaps) == mounts[device_path(name)],
{
}

/// The last line to name a device path decides its mount point.
pub proof fn lemma_last_mount_wins(lines: Seq<Seq<char>>, i: int)
    requires
        0 <= i < lines.len(),
        mount_line(lines[i]) is Some,
        forall|j: int|
            i < j < lines.len() ==> !(mount_line(#[trigger] lines[j]) matches Some(later)
                && later.0 == mount_line(lines[i]).unwrap().0),
    ensures
        mounts_of(lines).contains_key(mount_line(lines[i]).unwrap().0),
        mounts_of(lines)[mount_line(lines[i]).unwrap().0] == mount_line(lines[i]).unwrap().1,
    decreases lines.len(),
{
    if i < lines.len() - 1 {
        let rest = lines.drop_last();
        assert(rest[i] == lines[i]);
        assert forall|j: int| i < j < rest.len() implies !(mount_line(
            #[trigger] rest[j],
        ) matches Some(later) && later.0 == mount_line(rest[i]).unwrap().0) by {
            assert(rest[j] == lines[j]);
        }
        lemma_last_mount_wins(rest, i);
        let last = lines[lines.len() - 1];
        assert(!(mount_line(last) matches Some(later) && later.0 == mount_line(
            lines[i],
        ).unwrap().0));
    }
}

/// A path is in the table exactly when some entry names it, and entries
/// after the first `i` that do not name `key` do not change what it maps to.
proof fn lemma_table_suffix(entries: Seq<(String, String)>, i: int, key: Seq<char>)
    requires
        0 <= i <= entries.len(),
        forall|j: int| i <= j < entries.len() ==> (#[trigger] entries[j]).0@ != key,
    ensures
        table_of(entries).contains_key(key) == table_of(entries.take(i)).contains_key(key),
        table_of(entries)[key] == table_of(entries.take(i))[key],
    decreases entries.len(),
{
    if i == entries.len() {
        assert(entries.take(i) == entries);
    } else {
        let rest = entries.drop_last();
        assert(entries.last() == entries[entries.len() - 1]);
        assert forall|j: int| i <= j < rest.len() implies (#[trigger] rest[j]).0@ != key by {
            assert(rest[j] == entries[j]);
        }
        lemma_table_suffix(rest, i, key);
        assert(rest.take(i) == entries.take(i));
    }
}

/// A path is in the set exactly when one of the devices is that path.
proof fn lemma_set_of(devices: Seq<String>, key: Seq<char>)
    ensures
        set_of(devices).contains(key) <==> exists|j: int|
            0 <= j < devices.len() && (#[trigger] devices[j])@ == key,
    decreases devices.len(),
{
    if devices.len() > 0 {
        let rest = devices.drop_last();
        lemma_set_of(rest, key);
        if set_of(devices).contains(key) {
            if devices.last()@ == key {
                assert(devices[devices.len() - 1]@ == key);
            } else {
                let j = choose|j: int| 0 <= j < rest.len() && (#[trigger] rest[j])@ == key;
                assert(devices[j]@ == key);
            }
        }
        if exists|j: int| 0 <= j < devices.len() && (#[trigger] devices[j])@ == key {
            let j = choose|j: int| 0 <= j < devices.len() && (#[trigger] devices[j])@ == key;
            if j < rest.len() {
                assert(rest[j]@ == key);
            }
        }
    }
}

impl View for MountTable {
    type V = Map<Seq<char>, Seq<char>>;

    closed spec fn view(&self) -> Map<Seq<char>, Seq<char>> {
        table_of(self.entries@)
    }
}

impl View for SwapTable {
    type V = Set<Seq<char>>;

    closed spec fn view(&self) -> Set<Seq<char>> {
        set_of(self.devices@)
    }
}

impl MountTable {
    /// A table without entries.
    pub fn new() -> (table: MountTable)
        ensures
            table@ == Map::<Seq<char>, Seq<char>>::empty(),
    {
        MountTable { entries: Vec::new() }
    }

    /// Enters `device` as mounted at `mountpoint`, in place of what the
    /// table held for `device`.
    pub fn insert(&mut self, device: String, mountpoint: String)
        ensures
            final(self)@ == old(self)@.insert(device@, mountpoint@),
    {
        let ghost before = self.entries@;
        self.entries.push((device, mountpoint));
        assert(self.entries@.drop_last() == before);
    }

    /// Where `device` is mounted, if the table holds it.
    pub fn get<'a>(&'a self, device: &str) -> (r: Option<&'a str>)
        ensures
            match r {
                Some(mountpoint) => self@.contains_key(device@) && self@[device@] == mountpoint@,
                None => !self@.contains_key(device@),
            },
    {
        let mut i: usize = self.entries.len();
        while i > 0
            invariant
                i <= self.entries.len(),
                forall|j: int|
                    i <= j < self.entries.len() ==> (#[trigger] self.entries@[j]).0@ != device@,
            decreases i,
        {
            i -= 1;
            if same_text(self.entries[i].0.as_str(), device) {
                proof {
                    lemma_table_suffix(self.entries@, i + 1, device@);
                    assert(self.entries@.take(i + 1).drop_last() == self.entries@.take(i as int));
                }
                return Some(self.entries[i].1.as_str());
            }
        }
        proof {
            lemma_table_suffix(self.entries@, 0, device@);
        }
        None
    }
}

impl SwapTable {
    /// A list without devices.
    pub fn new() -> (table: SwapTable)
        ensures
            table@ == Set::<Seq<char>>::empty(),
    {
        SwapTable { devices: Vec::new() }
    }

    /// Adds `device` to the list.
    pub fn insert(&mut self, device: String)
        ensures
            final(self)@ == old(self)@.insert(device@),
    {
        let ghost before = self.devices@;
        self.devices.push(device);
        assert(self.devices@.drop_last() == before);
    }

    /// Whether the list names `device`.
    pub fn contains(&self, device: &str) -> (b: bool)
        ensures
            b == self@.contains(device@),
    {
        let mut i: usize = 0;
        while i < self.devices.len()
            invariant
                i <= self.devices.len(),
                forall|j: int| 0 <= j < i ==> (#[trigger] self.devices@[j])@ != device@,
            decreases self.devices.len() - i,
        {
            if same_text(self.devices[i].as_str(), device) {
                proof {
                    lemma_set_of(self.devices@, device@);
                }
                return true;
            }
            i += 1;
        }
        proof {
            lemma_set_of(self.devices@, device@);
        }
        false
    }
}

/// Whether what begins at `from` is whitespace and then more text without
/// a line feed.
fn has_tail(s: &[char], from: usize) -> (b: bool)
    requires
        from <= s.len(),
    ensures
        b == is_tail(s@.skip(from as int)),
{
    let n = s.len();
    let ghost t = s@.skip(from as int);
    if n - from < 2 {
        return false;
    }
    let spaces = space_end(s, from);
    let mut start: usize = n;
    while start > from && s[start - 1] != '\n'
        invariant
            from <= start <= n,
            n == s.len(),
            forall|j: int| start <= j < n ==> s@[j] != '\n',
        decreases start,
    {
        start -= 1;
    }
    let lo = if start > from + 1 {
        start
    } else {
        from + 1
    };
    let hi = if spaces < n - 1 {
        spaces
    } else {
        n - 1
    };
    proof {
        lemma_space_len(t);
        if lo <= hi {
            assert(splits_at(t, lo - from)) by {
                assert forall|j: int| 0 <= j < lo - from implies is_space(#[trigger] t[j]) by {}
                assert forall|j: int| lo - from <= j < t.len() implies #[trigger] t[j] != '\n' by {
                    assert(t[j] == s@[from + j]);
                }
            }
        } else if is_tail(t) {
            let k = choose|k: int| 1 <= k < t.len() && #[trigger] splits_at(t, k);
            if from + k > spaces {
                assert(is_space(t[spaces - from]));
            }
            if from + k < start {
                assert(t[start - 1 - from] == s@[start - 1]);
            }
        }
    }
    lo <= hi
}

/// Reads one line of the mount table.
pub fn parse_proc_mounts_line(line: &str) -> (r: Option<(String, String)>)
    ensures
        match r {
            Some(entry) => mount_line(line@) == Some((entry.0@, entry.1@)),
            None => mount_line(line@) is None,
        },
{
    let chars = to_chars(line);
    let s = chars.as_slice();
    assert(s@.skip(0) == s@);
    let a = word_end(s, 0);
    let b = space_end(s, a);
    let c = word_end(s, b);
    if 0 < a && a < b && b < c && has_tail(s, c) {
        let device = line.substring_char(0, a).to_owned();
        let mountpoint = line.substring_char(b, c).to_owned();
        assert(device@ == line@.take(a as int));
        Some((device, mountpoint))
    } else {
        None
    }
}

/// Reads one line of the swap list.
pub fn parse_proc_swaps_line(line: &str) -> (r: Option<String>)
    ensures
        match r {
            Some(device) => swap_line(line@) == Some(device@),
            None => swap_line(line@) is None,
        },
{
    let chars = to_chars(line);
    let s = chars.as_slice();
    assert(s@.skip(0) == s@);
    let a = word_end(s, 0);
    if a >= 2 && s[0] == '/' && has_tail(s, a) {
        let device = line.substring_char(0, a).to_owned();
        assert(device@ == line@.take(a as int));
        Some(device)
    } else {
        None
    }
}

/// Reads the mount table. Lines that are no table lines are passed over.
pub fn parse_proc_mounts(text: &str) -> (table: MountTable)
    ensures
        table@ == mounts_of(lines_of(text@)),
{
    let lines = split_lines(text);
    let mut table = MountTable::new();
    let mut i: usize = 0;
    while i < lines.len()
        invariant
            i <= lines.len(),
            lines@.map_values(|l: &str| l@) == lines_of(text@),
            table@ == mounts_of(lines_of(text@).take(i as int)),
        decreases lines.len() - i,
    {
        proof {
            let seen = lines_of(text@).take(i + 1);
            assert(seen.drop_last() == lines_of(text@).take(i as int));
            assert(seen.last() == lines@.map_values(|l: &str| l@)[i as int]);
        }
        match parse_proc_mounts_line(lines[i]) {
            Some(entry) => {
                table.insert(entry.0, entry.1);
            },
            None => {},
        }
        i += 1;
    }
    assert(lines_of(text@).take(i as int) == lines_of(text@));
    table
}

/// Reads the swap list. Its heading, like any line that names no device
/// path, is passed over.
pub fn parse_proc_swaps(text: &str) -> (table: SwapTable)
    ensures
        table@ == swaps_of(lines_of(text@)),
{
    let lines = split_lines(text);
    let mut table = SwapTable::new();
    let mut i: usize = 0;
    while i < lines.len()
        invariant
            i <= lines.len(),
            lines@.map_values(|l: &str| l@) == lines_of(text@),
            table@ == swaps_of(lines_of(text@).take(i as int)),
        decreases lines.len() - i,
    {
        proof {
            let seen = lines_of(text@).take(i + 1);
            assert(seen.drop_last() == lines_of(text@).take(i as int));
            assert(seen.last() == lines@.map_values(|l: &str| l@)[i as int]);
        }
        match parse_proc_swaps_line(lines[i]) {
            Some(device) => {
                table.insert(device);
            },
            None => {},
        }
        i += 1;
    }
    assert(lines_of(text@).take(i as int) == lines_of(text@));
    table
}

/// Where the partition `name` is mounted, by the two tables.
pub fn read_partition_mountpoint(name: &str, mounts: &MountTable, swaps: &SwapTable) -> (r: String)
    ensures
        r@ == mountpoint_of(name@, mounts@, swaps@),
{
    let mut path = "/dev/".to_owned();
    path.append(name);
    match mounts.get(path.as_str()) {
        Some(mountpoint) => mountpoint.to_owned(),
        None => if swaps.contains(path.as_str()) {
            "[SWAP]".to_owned()
        } else {
            String::new()
        },
    }
}

} // verus!
