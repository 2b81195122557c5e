//! The kernel's device number, a major and a minor part, and its text form.

use crate::decimal::{
    char_is_digit, decimal_text, decimal_value, is_canonical, is_digit, is_number,
    lemma_text_is_canonical, lemma_text_of_value, lemma_value_of_text, parse_number, push_decimal,
};
use crate::text::{find_char, first_index, lemma_first_index, lemma_first_index_is, to_chars};
use vstd::prelude::*;
use vstd::slice::slice_subrange;

verus! {

/// A device number.
#[derive(Debug, Clone, Copy, PartialEq, Eq, Structural)]
pub struct MajorMinor {
    pub major: u8,
    pub minor: u8,
}

/// Why a text is no device number.
#[derive(Debug, Clone, Copy, PartialEq, Eq, Structural)]
pub enum FormatError {
    /// The text is not digits, a colon, digits.
    Malformed,
    /// One of the two numbers is greater than 255.
    OutOfRange,
}

/// Whether `s` is the number `a`, a colon, and the number `b`.
pub open spec fn is_major_minor(s: Seq<char>, a: Seq<char>, b: Seq<char>) -> bool {
    s == a + seq![':'] + b && is_number(a) && is_number(b)
}

/// What `s` reads as.
pub open spec fn parse_major_minor(s: Seq<char>) -> Result<MajorMinor, FormatError> {
    let colon = first_index(s, ':');
    let a = s.take(colon);
    let b = s.skip(colon + 1);
    if colon >= s.len() || !is_number(a) || !is_number(b) {
        Err(FormatError::Malformed)
    } else if decimal_value(a) > 255 || decimal_value(b) > 255 {
        Err(FormatError::OutOfRange)
    } else {
        Ok(MajorMinor { major: decimal_value(a) as u8, minor: decimal_value(b) as u8 })
    }
}

/// The text form of `m`: both numbers without leading zeros, a colon between.
pub open spec fn major_minor_text(m: MajorMinor) -> Seq<char> {
    decimal_text(m.major as nat) + seq![':'] + decimal_text(m.minor as nat)
}

/// Whether `s` is a device number in the form that `major_minor_text` gives.
pub open spec fn is_canonical_major_minor(s: Seq<char>) -> bool {
    let colon = first_index(s, ':');
    colon < s.len() && is_canonical(s.take(colon)) && is_canonical(s.skip(colon + 1))
}

/// Where the device manager keeps the record of the block device `m`.
pub open spec fn udev_path_of(m: MajorMinor) -> Seq<char> {
    "/run/udev/data/b"@ + major_minor_text(m)
}

/// A number holds no colon, so the first colon of `a:b` is the one between.
proof fn lemma_split_at_colon(s: Seq<char>, a: Seq<char>, b: Seq<char>)
    requires
        is_major_minor(s, a, b),
    ensures
        first_index(s, ':') == a.len(),
        s.take(a.len() as int) == a,
        s.skip(a.len() as int + 1) == b,
{
    assert(s[a.len() as int] == ':');
    assert forall|j: int| 0 <= j < a.len() implies s[j] != ':' by {
        assert(s[j] == a[j]);
        assert(is_digit(a[j]));
    }
    lemma_first_index_is(s, ':', a.len() as int);
}

/// A text that is two numbers with a colon between reads as the device
/// number they spell, or as out of range if one of them is above 255.
pub proof fn lemma_parse_matching(s: Seq<char>, a: Seq<char>, b: Seq<char>)
    requires
        is_major_minor(s, a, b),
    ensures
        parse_major_minor(s) == if decimal_value(a) <= 255 && decimal_value(b) <= 255 {
            Ok::<MajorMinor, FormatError>(
                MajorMinor { major: decimal_value(a) as u8, minor: decimal_value(b) as u8 },
            )
        } else {
            Err(FormatError::OutOfRange)
        },
{
    lemma_split_at_colon(s, a, b);
}

/// Any other text is malformed.
pub proof fn lemma_parse_not_matching(s: Seq<char>)
    requires
        forall|a: Seq<char>, b: Seq<char>| !is_major_minor(s, a, b),
    ensures
        parse_major_minor(s) == Err::<MajorMinor, FormatError>(FormatError::Malformed),
{
    let colon = first_index(s, ':');
    lemma_first_index(s, ':');
    if colon < s.len() {
        let a = s.take(colon);
        let b = s.skip(colon + 1);
        assert(s == a + seq![':'] + b);
        assert(!is_major_minor(s, a, b));
    }
}

/// Reading the text form of a device number gives the device number.
pub proof fn lemma_parse_of_text(m: MajorMinor)
    ensures
        parse_major_minor(major_minor_text(m)) == Ok::<MajorMinor, FormatError>(m),
        is_canonical_major_minor(major_minor_text(m)),
{
    let a = decimal_text(m.major as nat);
    let b = decimal_text(m.minor as nat);
    lemma_text_is_canonical(m.major as nat);
    lemma_text_is_canonical(m.minor as nat);
    lemma_value_of_text(m.major as nat);
    lemma_value_of_text(m.minor as nat);
    lemma_split_at_colon(major_minor_text(m), a, b);
}

/// Writing what a text without leading zeros was read as gives that text.
pub proof fn lemma_text_of_parse(s: Seq<char>)
    requires
        parse_major_minor(s) is Ok,
        is_canonical_major_minor(s),
    ensures
        major_minor_text(parse_major_minor(s).unwrap()) == s,
{
    let colon = first_index(s, ':');
    let a = s.take(colon);
    let b = s.skip(colon + 1);
    lemma_first_index(s, ':');
    lemma_text_of_value(a);
    lemma_text_of_value(b);
    assert(s == a + seq![':'] + b);
}

/// Whether `s` is one digit or more, and nothing else.
fn all_digits(s: &[char]) -> (b: bool)
    ensures
        b == is_number(s@),
{
    let mut i: usize = 0;
    while i < s.len()
        invariant
            i <= s.len(),
            forall|j: int| 0 <= j < i ==> is_digit(#[trigger] s@[j]),
        decreases s.len() - i,
    {
        if !char_is_digit(s[i]) {
            return false;
        }
        i += 1;
    }
    s.len() > 0
}

impl MajorMinor {
    /// Reads a device number from its characters.
    pub fn from_chars(s: &[char]) -> (r: Result<MajorMinor, FormatError>)
        ensures
            r == parse_major_minor(s@),
    {
        let n = s.len();
        assert(s@.skip(0) == s@);
        let colon = find_char(s, 0, ':');
        if colon >= n {
            return Err(FormatError::Malformed);
        }
        let a = slice_subrange(s, 0, colon);
        let b = slice_subrange(s, colon + 1, n);
        assert(a@ == s@.take(colon as int));
        assert(b@ == s@.skip(colon + 1));
        if !all_digits(a) || !all_digits(b) {
            return Err(FormatError::Malformed);
        }
        match (parse_number(a, 255), parse_number(b, 255)) {
            (Some(major), Some(minor)) => Ok(MajorMinor { major: major as u8, minor: minor as u8 }),
            _ => Err(FormatError::OutOfRange),
        }
    }

    /// Reads a device number: digits, a colon, digits, each number at most
    /// 255. Leading zeros are read and not kept.
    pub fn from_str(s: &str) -> (r: Result<MajorMinor, FormatError>)
        ensures
            r == parse_major_minor(s@),
    {
        let chars = to_chars(s);
        MajorMinor::from_chars(chars.as_slice())
    }

    /// The text form: `major:minor`, no padding.
    pub fn to_string(&self) -> (r: String)
        ensures
            r@ == major_minor_text(*self),
    {
        let mut s = String::new();
        push_decimal(&mut s, self.major as u64);
        s.append(":");
        push_decimal(&mut s, self.minor as u64);
        proof {
            reveal_strlit(":");
            assert(":"@ =~= seq![':']);
            assert(s@ =~= major_minor_text(*self));
        }
        s
    }

    /// The path of the device manager's record of this block device.
    pub fn udev_path(&self) -> (r: String)
        ensures
            r@ == udev_path_of(*self),
    {
        let mut path = "/run/udev/data/b".to_owned();
        let name = self.to_string();
        path.append(name.as_str());
        path
    }
}

} // verus!
