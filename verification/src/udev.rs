//! Device-manager records: `E:KEY=VALUE` lines, of which three keys are kept.

use crate::text::{find_char, first_index, lemma_first_index, lemma_first_index_is, lines_of, same_text, split_lines, to_chars};
use vstd::prelude::*;

verus! {

/// One `E:KEY=VALUE` line, both parts borrowed from the line.
#[derive(Debug, PartialEq)]
pub struct KeyValue<'a> {
    pub key: &'a str,
    pub value: &'a str,
}

/// What the device manager asserts of a device.
#[derive(Debug, PartialEq)]
pub struct BlockMetadata {
    pub id_type: String,
    pub id_fs_type: Option<String>,
    pub id_fs_uuid: Option<String>,
}

/// A `BlockMetadata` as plain text.
pub struct MetadataView {
    pub id_type: Seq<char>,
    pub id_fs_type: Option<Seq<char>>,
    pub id_fs_uuid: Option<Seq<char>>,
}

impl DeepView for BlockMetadata {
    type V = MetadataView;

    open spec fn deep_view(&self) -> MetadataView {
        MetadataView {
            id_type: self.id_type@,
            id_fs_type: self.id_fs_type.deep_view(),
            id_fs_uuid: self.id_fs_uuid.deep_view(),
        }
    }
}

/// The key of the device type, the field without which no record counts.
pub open spec fn id_type_key() -> Seq<char> {
    "ID_TYPE"@
}

/// The key of the filesystem type.
pub open spec fn id_fs_type_key() -> Seq<char> {
    "ID_FS_TYPE"@
}

/// The key of the filesystem's UUID.
pub open spec fn id_fs_uuid_key() -> Seq<char> {
    "ID_FS_UUID"@
}

/// Whether `line` is `E:`, then `key`, one `=`, then `value`, with neither
/// part empty nor holding an `=` itself.
pub open spec fn is_key_value(line: Seq<char>, key: Seq<char>, value: Seq<char>) -> bool {
    &&& line == seq!['E', ':'] + key + seq!['='] + value
    &&& key.len() > 0
    &&& value.len() > 0
    &&& !key.contains('=')
    &&& !value.contains('=')
}

/// The key and the value of `line`, if it is a key-value line.
pub open spec fn key_value_of(line: Seq<char>) -> Option<(Seq<char>, Seq<char>)> {
    let body = line.skip(2);
    let eq = first_index(body, '=');
    let key = body.take(eq);
    let value = body.skip(eq + 1);
    if line.len() >= 2 && line[0] == 'E' && line[1] == ':' && 0 < eq < body.len() && value.len()
        > 0 && !value.contains('=') {
        Some((key, value))
    } else {
        None
    }
}

/// Whether `line` is a key-value line with the key `key`.
pub open spec fn supplies(line: Seq<char>, key: Seq<char>) -> bool {
    key_value_of(line) matches Some(kv) && kv.0 == key
}

/// The value of a key-value line.
pub open spec fn value_of(line: Seq<char>) -> Seq<char> {
    key_value_of(line).unwrap().1
}

/// The value that the last of `lines` to supply `key` gives it.
pub open spec fn last_value(lines: Seq<Seq<char>>, key: Seq<char>) -> Option<Seq<char>>
    decreases lines.len(),
{
    if lines.len() == 0 {
        None
    } else if supplies(lines.last(), key) {
        Some(value_of(lines.last()))
    } else {
        last_value(lines.drop_last(), key)
    }
}

/// The metadata that the record `data` holds: present if and only if some
/// line supplies the device type.
pub open spec fn metadata_of(data: Seq<char>) -> Option<MetadataView> {
    let lines = lines_of(data);
    match last_value(lines, id_type_key()) {
        Some(id_type) => Some(
            MetadataView {
                id_type,
                id_fs_type: last_value(lines, id_fs_type_key()),
                id_fs_uuid: last_value(lines, id_fs_uuid_key()),
            },
        ),
        None => None,
    }
}

/// A line is read as a key and a value exactly when it is `E:`, a key, one
/// `=` and a value: a second `=`, a missing one, an empty part or another
/// prefix leaves it unread.
pub proof fn lemma_key_value_grammar(line: Seq<char>, key: Seq<char>, value: Seq<char>)
    ensures
        key_value_of(line) == Some((key, value)) <==> is_key_value(line, key, value),
{
    let body = line.skip(2);
    let eq = first_index(body, '=');
    lemma_first_index(body, '=');
    if is_key_value(line, key, value) {
        assert(line[0] == 'E' && line[1] == ':');
        assert(body == key + seq!['='] + value);
        assert(body[key.len() as int] == '=');
        assert forall|j: int| 0 <= j < key.len() implies body[j] != '=' by {
            assert(body[j] == key[j]);
        }
        lemma_first_index_is(body, '=', key.len() as int);
        assert(body.take(eq) == key);
        assert(body.skip(eq + 1) == value);
    }
    if key_value_of(line) == Some((key, value)) {
        assert(key == body.take(eq));
        assert(value == body.skip(eq + 1));
        assert(line == seq!['E', ':'] + key + seq!['='] + value);
        if key.contains('=') {
            let j = choose|j: int| 0 <= j < key.len() && key[j] == '=';
            assert(body[j] == '=');
        }
    }
}

/// `last_value` is absent exactly when no line supplies the key; otherwise
/// it is the value of a line that does and that no later such line follows.
pub proof fn lemma_last_value(lines: Seq<Seq<char>>, key: Seq<char>)
    ensures
        last_value(lines, key) is None <==> forall|i: int|
            0 <= i < lines.len() ==> !supplies(#[trigger] lines[i], key),
        last_value(lines, key) matches Some(v) ==> exists|i: int|
            {
                &&& 0 <= i < lines.len()
                &&& supplies(#[trigger] lines[i], key)
                &&& value_of(lines[i]) == v
                &&& forall|j: int| i < j < lines.len() ==> !supplies(#[trigger] lines[j], key)
            },
    decreases lines.len(),
{
    if lines.len() == 0 {
    } else if supplies(lines.last(), key) {
        let i = lines.len() - 1;
        assert(supplies(lines[i], key));
    } else {
        let rest = lines.drop_last();
        lemma_last_value(rest, key);
        assert forall|i: int| 0 <= i < rest.len() implies rest[i] == lines[i] by {}
        if last_value(rest, key) is None {
            assert forall|i: int| 0 <= i < lines.len() implies !supplies(
                #[trigger] lines[i],
                key,
            ) by {
                if i < rest.len() {
                    assert(!supplies(rest[i], key));
                }
            }
        } else {
            let v = last_value(rest, key)->0;
            let i = choose|i: int|
                {
                    &&& 0 <= i < rest.len()
                    &&& supplies(#[trigger] rest[i], key)
                    &&& value_of(rest[i]) == v
                    &&& forall|j: int| i < j < rest.len() ==> !supplies(#[trigger] rest[j], key)
                };
            assert(supplies(lines[i], key));
            assert forall|j: int| i < j < lines.len() implies !supplies(
                #[trigger] lines[j],
                key,
            ) by {
                if j < rest.len() {
                    assert(!supplies(rest[j], key));
                }
            }
        }
    }
}

/// A record describes a device exactly when one of its lines supplies the
/// device type: without such a line nothing is reported, whatever the other
/// lines supply.
pub proof fn lemma_metadata_needs_id_type(data: Seq<char>)
    ensures
        metadata_of(data) is None <==> forall|i: int|
            0 <= i < lines_of(data).len() ==> !supplies(#[trigger] lines_of(data)[i], id_type_key()),
{
    lemma_last_value(lines_of(data), id_type_key());
}

/// The three keys are three different texts.
proof fn lemma_keys_differ()
    ensures
        id_type_key() != id_fs_type_key(),
        id_type_key() != id_fs_uuid_key(),
        id_fs_type_key() != id_fs_uuid_key(),
{
    reveal_strlit("ID_TYPE");
    reveal_strlit("ID_FS_TYPE");
    reveal_strlit("ID_FS_UUID");
    assert(id_type_key().len() == 7);
    assert(id_fs_type_key().len() == 10);
    assert(id_fs_type_key()[6] == 'T');
    assert(id_fs_uuid_key()[6] == 'U');
}

/// Reads one line of a record.
pub fn parse_line<'a>(line: &'a str) -> (r: Option<KeyValue<'a>>)
    ensures
        match r {
            Some(kv) => key_value_of(line@) == Some((kv.key@, kv.value@)),
            None => key_value_of(line@) is None,
        },
{
    let chars = to_chars(line);
    let n = chars.len();
    if n < 2 || chars[0] != 'E' || chars[1] != ':' {
        return None;
    }
    let eq = find_char(chars.as_slice(), 2, '=');
    if eq == 2 || eq >= n || eq + 1 >= n {
        return None;
    }
    let stop = find_char(chars.as_slice(), eq + 1, '=');
    proof {
        let value = line@.skip(2).skip(eq - 2 + 1);
        assert(value == line@.skip(eq + 1));
        lemma_first_index(value, '=');
    }
    if stop < n {
        return None;
    }
    let key = line.substring_char(2, eq);
    let value = line.substring_char(eq + 1, n);
    proof {
        assert(key@ == line@.skip(2).take(eq - 2));
        assert(value@ == line@.skip(2).skip(eq - 2 + 1));
    }
    Some(KeyValue { key, value })
}

/// Reads a whole record. A key given twice keeps its last value; keys other
/// than the three are passed over.
pub fn parse_uevent_metadata(data: &str) -> (r: Option<BlockMetadata>)
    ensures
        r.deep_view() == metadata_of(data@),
{
    let lines = split_lines(data);
    let mut id_type: Option<String> = None;
    let mut id_fs_type: Option<String> = None;
    let mut id_fs_uuid: Option<String> = None;
    let mut i: usize = 0;
    while i < lines.len()
        invariant
            i <= lines.len(),
            lines@.map_values(|l: &str| l@) == lines_of(data@),
            id_type.deep_view() == last_value(lines_of(data@).take(i as int), id_type_key()),
            id_fs_type.deep_view() == last_value(lines_of(data@).take(i as int), id_fs_type_key()),
            id_fs_uuid.deep_view() == last_value(lines_of(data@).take(i as int), id_fs_uuid_key()),
        decreases lines.len() - i,
    {
        proof {
            let seen = lines_of(data@).take(i + 1);
            assert(seen.drop_last() == lines_of(data@).take(i as int));
            assert(seen.last() == lines@.map_values(|l: &str| l@)[i as int]);
            assert(seen.last() == lines@[i as int]@);
            lemma_keys_differ();
        }
        match parse_line(lines[i]) {
            Some(kv) => {
                if same_text(kv.key, "ID_TYPE") {
                    id_type = Some(kv.value.to_owned());
                } else if same_text(kv.key, "ID_FS_TYPE") {
                    id_fs_type = Some(kv.value.to_owned());
                } else if same_text(kv.key, "ID_FS_UUID") {
                    id_fs_uuid = Some(kv.value.to_owned());
                }
            },
            None => {},
        }
        i += 1;
    }
    assert(lines_of(data@).take(i as int) == lines_of(data@));
    match id_type {
        Some(id_type) => Some(BlockMetadata { id_type, id_fs_type, id_fs_uuid }),
        None => None,
    }
}

/// The metadata that a record which was read, or could not be read, holds.
pub open spec fn loaded_metadata_of(record: Option<Seq<char>>) -> Option<MetadataView> {
    match record {
        Some(data) => metadata_of(data),
        None => None,
    }
}

/// The metadata of a device whose record was read as `record`, or nothing
/// where the record could not be read.
pub fn load_uevent_metadata(record: &Option<String>) -> (r: Option<BlockMetadata>)
    ensures
        r.deep_view() == loaded_metadata_of(record.deep_view()),
{
    match record {
        Some(data) => parse_uevent_metadata(data.as_str()),
        None => None,
    }
}

} // verus!
