//! The attribute files of a device directory, read from their contents.
//! Contents that do not read as the value wanted count as no value.

use crate::decimal::{
    decimal_text, is_digit, lemma_text_is_canonical, lemma_value_of_text, number_within,
    parse_number,
};
use crate::majmin::{parse_major_minor, MajorMinor};
use crate::text::{is_space, lemma_trim_end_is, to_chars, trim_end_of, trimmed_len};
use vstd::prelude::*;
use vstd::slice::slice_subrange;

verus! {

/// The number of bytes in a sector, the unit of the `size` attribute.
pub const SECTOR_BYTES: u64 = 512;

/// The count that `contents` holds: digits, a plus sign before them at
/// most, whitespace after them at most, and a value that fits 64 bits.
pub open spec fn count_of(contents: Seq<char>) -> Option<u64> {
    let t = trim_end_of(contents);
    let digits = if t.len() > 0 && t[0] == '+' {
        t.skip(1)
    } else {
        t
    };
    number_within(digits, u64::MAX as nat)
}

/// The byte count that `contents` holds in sectors, if it fits 64 bits.
pub open spec fn bytes_of(contents: Seq<char>) -> Option<u64> {
    match count_of(contents) {
        Some(sectors) => if sectors * SECTOR_BYTES <= u64::MAX {
            Some((sectors * SECTOR_BYTES) as u64)
        } else {
            None
        },
        None => None,
    }
}

/// The device number that `contents` holds before its trailing whitespace.
pub open spec fn device_number_of(contents: Seq<char>) -> Option<MajorMinor> {
    match parse_major_minor(trim_end_of(contents)) {
        Ok(m) => Some(m),
        Err(_) => None,
    }
}

/// A sector count of `n`, written in digits with any whitespace after it,
/// reads as `n * 512` bytes.
pub proof fn lemma_sectors_to_bytes(n: u64, tail: Seq<char>)
    requires
        n * SECTOR_BYTES <= u64::MAX,
        forall|i: int| 0 <= i < tail.len() ==> is_space(#[trigger] tail[i]),
    ensures
        count_of(decimal_text(n as nat) + tail) == Some(n),
        bytes_of(decimal_text(n as nat) + tail) == Some((n * SECTOR_BYTES) as u64),
{
    let digits = decimal_text(n as nat);
    let contents = digits + tail;
    lemma_text_is_canonical(n as nat);
    lemma_value_of_text(n as nat);
    assert(is_digit(digits[digits.len() - 1]));
    assert(is_digit(digits[0]));
    assert(contents[digits.len() - 1] == digits[digits.len() - 1]);
    assert forall|j: int| digits.len() <= j < contents.len() implies is_space(contents[j]) by {
        assert(contents[j] == tail[j - digits.len()]);
    }
    lemma_trim_end_is(contents, digits.len() as int);
    assert(contents.take(digits.len() as int) == digits);
}

/// Reads a count from the contents of an attribute file.
pub fn parse_block_file(contents: &str) -> (r: Option<u64>)
    ensures
        r == count_of(contents@),
{
    let chars = to_chars(contents);
    let n = trimmed_len(chars.as_slice());
    let start: usize = if n > 0 && chars[0] == '+' {
        1
    } else {
        0
    };
    let digits = slice_subrange(chars.as_slice(), start, n);
    assert(digits@ == chars@.take(n as int).skip(start as int));
    assert(chars@.take(n as int).skip(0) == chars@.take(n as int));
    parse_number(digits, u64::MAX)
}

/// Reads the contents of a `size` attribute file, which counts sectors, as
/// a number of bytes.
pub fn parse_sector_file(contents: &str) -> (r: Option<u64>)
    ensures
        r == bytes_of(contents@),
{
    match parse_block_file(contents) {
        Some(sectors) => sectors.checked_mul(SECTOR_BYTES),
        None => None,
    }
}

/// Reads the contents of a `dev` attribute file.
pub fn parse_device_file(contents: &str) -> (r: Option<MajorMinor>)
    ensures
        r == device_number_of(contents@),
{
    let chars = to_chars(contents);
    let n = trimmed_len(chars.as_slice());
    let trimmed = slice_subrange(chars.as_slice(), 0, n);
    assert(trimmed@ == chars@.take(n as int));
    match MajorMinor::from_chars(trimmed) {
        Ok(m) => Some(m),
        Err(_) => None,
    }
}

} // verus!
