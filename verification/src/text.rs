//! Characters, lines and trimming: the vocabulary the parsers share.

use vstd::prelude::*;

verus! {

/// Whether `c` is whitespace as Unicode defines it (White_Space).
pub open spec fn is_space(c: char) -> bool {
    let u = c as u32;
    ||| 0x09 <= u <= 0x0D
    ||| u == 0x20
    ||| u == 0x85
    ||| u == 0xA0
    ||| u == 0x1680
    ||| 0x2000 <= u <= 0x200A
    ||| u == 0x2028
    ||| u == 0x2029
    ||| u == 0x202F
    ||| u == 0x205F
    ||| u == 0x3000
}

/// The position of the first `c` in `s`, or `s.len()` where there is none.
pub open spec fn first_index(s: Seq<char>, c: char) -> int
    decreases s.len(),
{
    if s.len() == 0 || s[0] == c {
        0
    } else {
        1 + first_index(s.skip(1), c)
    }
}

/// The length of the longest prefix of `s` that holds no whitespace.
pub open spec fn word_len(s: Seq<char>) -> int
    decreases s.len(),
{
    if s.len() == 0 || is_space(s[0]) {
        0
    } else {
        1 + word_len(s.skip(1))
    }
}

/// The length of the longest prefix of `s` that holds whitespace only.
pub open spec fn space_len(s: Seq<char>) -> int
    decreases s.len(),
{
    if s.len() == 0 || !is_space(s[0]) {
        0
    } else {
        1 + space_len(s.skip(1))
    }
}

/// `s` without the whitespace at its end.
pub open spec fn trim_end_of(s: Seq<char>) -> Seq<char>
    decreases s.len(),
{
    if s.len() > 0 && is_space(s.last()) {
        trim_end_of(s.drop_last())
    } else {
        s
    }
}

/// `s` without a carriage return at its end.
pub open spec fn strip_cr(s: Seq<char>) -> Seq<char> {
    if s.len() > 0 && s.last() == '\r' {
        s.drop_last()
    } else {
        s
    }
}

/// The lines of `text`. A line ends at a line feed; a carriage return just
/// before that line feed belongs to the line ending too. What follows the
/// last line feed is a line of its own unless it is empty.
pub open spec fn lines_of(text: Seq<char>) -> Seq<Seq<char>>
    decreases text.len(),
    via lines_of_decreases
{
    if text.len() == 0 {
        Seq::empty()
    } else {
        let n = first_index(text, '\n');
        if n >= text.len() {
            seq![text]
        } else {
            seq![strip_cr(text.take(n))] + lines_of(text.skip(n + 1))
        }
    }
}

#[via_fn]
proof fn lines_of_decreases(text: Seq<char>) {
    lemma_first_index(text, '\n');
}

/// Whether `p` is a prefix of `s`.
pub open spec fn starts_with(s: Seq<char>, p: Seq<char>) -> bool {
    p.len() <= s.len() && s.take(p.len() as int) == p
}

/// `first_index` is where it says: within bounds, at a `c` unless it is the
/// length, and past no `c`.
pub proof fn lemma_first_index(s: Seq<char>, c: char)
    ensures
        0 <= first_index(s, c) <= s.len(),
        first_index(s, c) < s.len() ==> s[first_index(s, c)] == c,
        forall|j: int| 0 <= j < first_index(s, c) ==> s[j] != c,
    decreases s.len(),
{
    if s.len() == 0 || s[0] == c {
    } else {
        let t = s.skip(1);
        lemma_first_index(t, c);
        assert forall|j: int| 0 <= j < first_index(s, c) implies s[j] != c by {
            if j > 0 {
                assert(s[j] == t[j - 1]);
            }
        }
    }
}

/// A position within bounds, at a `c` unless it is the length, and past
/// no `c`, is `first_index`.
pub proof fn lemma_first_index_is(s: Seq<char>, c: char, i: int)
    requires
        0 <= i <= s.len(),
        i < s.len() ==> s[i] == c,
        forall|j: int| 0 <= j < i ==> s[j] != c,
    ensures
        first_index(s, c) == i,
{
    lemma_first_index(s, c);
    let f = first_index(s, c);
    if f < i {
        assert(s[f] != c);
    } else if i < f {
        assert(s[i] != c);
    }
}

/// `word_len` ends the first word: within bounds, at whitespace unless it is
/// the length, and past none.
pub proof fn lemma_word_len(s: Seq<char>)
    ensures
        0 <= word_len(s) <= s.len(),
        word_len(s) < s.len() ==> is_space(s[word_len(s)]),
        forall|j: int| 0 <= j < word_len(s) ==> !is_space(s[j]),
    decreases s.len(),
{
    if s.len() == 0 || is_space(s[0]) {
    } else {
        let t = s.skip(1);
        lemma_word_len(t);
        assert forall|j: int| 0 <= j < word_len(s) implies !is_space(s[j]) by {
            if j > 0 {
                assert(s[j] == t[j - 1]);
            }
        }
    }
}

/// A position within bounds, at whitespace unless it is the length, and
/// past none, is `word_len`.
pub proof fn lemma_word_len_is(s: Seq<char>, i: int)
    requires
        0 <= i <= s.len(),
        i < s.len() ==> is_space(s[i]),
        forall|j: int| 0 <= j < i ==> !is_space(s[j]),
    ensures
        word_len(s) == i,
{
    lemma_word_len(s);
    let f = word_len(s);
    if f < i {
        assert(!is_space(s[f]));
    } else if i < f {
        assert(is_space(s[i]));
    }
}

/// `space_len` ends the leading whitespace.
pub proof fn lemma_space_len(s: Seq<char>)
    ensures
        0 <= space_len(s) <= s.len(),
        space_len(s) < s.len() ==> !is_space(s[space_len(s)]),
        forall|j: int| 0 <= j < space_len(s) ==> is_space(s[j]),
    decreases s.len(),
{
    if s.len() == 0 || !is_space(s[0]) {
    } else {
        let t = s.skip(1);
        lemma_space_len(t);
        assert forall|j: int| 0 <= j < space_len(s) implies is_space(s[j]) by {
            if j > 0 {
                assert(s[j] == t[j - 1]);
            }
        }
    }
}

/// A position within bounds, past whitespace only and not at whitespace,
/// is `space_len`.
pub proof fn lemma_space_len_is(s: Seq<char>, i: int)
    requires
        0 <= i <= s.len(),
        i < s.len() ==> !is_space(s[i]),
        forall|j: int| 0 <= j < i ==> is_space(s[j]),
    ensures
        space_len(s) == i,
{
    lemma_space_len(s);
    let f = space_len(s);
    if f < i {
        assert(is_space(s[f]));
    } else if i < f {
        assert(!is_space(s[i]));
    }
}

/// `trim_end_of` is the prefix that ends at the last character that is no
/// whitespace.
pub proof fn lemma_trim_end_is(s: Seq<char>, n: int)
    requires
        0 <= n <= s.len(),
        n > 0 ==> !is_space(s[n - 1]),
        forall|j: int| n <= j < s.len() ==> is_space(s[j]),
    ensures
        trim_end_of(s) == s.take(n),
    decreases s.len(),
{
    if s.len() > 0 && is_space(s.last()) {
        assert(n < s.len());
        let t = s.drop_last();
        lemma_trim_end_is(t, n);
        assert(t.take(n) == s.take(n));
    } else {
        assert(n == s.len());
        assert(s.take(n) == s);
    }
}

/// Whether `c` is whitespace.
pub fn char_is_space(c: char) -> (b: bool)
    ensures
        b == is_space(c),
{
    let u: u32 = c as u32;
    (0x09 <= u && u <= 0x0D) || u == 0x20 || u == 0x85 || u == 0xA0 || u == 0x1680 || (0x2000 <= u
        && u <= 0x200A) || u == 0x2028 || u == 0x2029 || u == 0x202F || u == 0x205F || u == 0x3000
}

/// The characters of `s`, in order.
pub fn to_chars(s: &str) -> (out: Vec<char>)
    ensures
        out@ == s@,
{
    let mut out: Vec<char> = Vec::new();
    for c in it: s.chars()
        invariant
            it.seq() == s@,
            out@ == it.seq().take(it.index() as int),
    {
        out.push(c);
    }
    out
}

/// Whether two runs of characters are the same.
pub fn chars_eq(a: &[char], b: &[char]) -> (same: bool)
    ensures
        same == (a@ == b@),
{
    if a.len() != b.len() {
        return false;
    }
    let mut i: usize = 0;
    while i < a.len()
        invariant
            a.len() == b.len(),
            i <= a.len(),
            forall|j: int| 0 <= j < i ==> a@[j] == b@[j],
        decreases a.len() - i,
    {
        if a[i] != b[i] {
            return false;
        }
        i += 1;
    }
    assert(a@ =~= b@);
    true
}

/// Whether two strings hold the same characters.
pub fn same_text(a: &str, b: &str) -> (same: bool)
    ensures
        same == (a@ == b@),
{
    let x = to_chars(a);
    let y = to_chars(b);
    chars_eq(x.as_slice(), y.as_slice())
}

/// Whether `s` begins with `prefix`.
pub fn has_prefix(s: &[char], prefix: &[char]) -> (b: bool)
    ensures
        b == starts_with(s@, prefix@),
{
    if prefix.len() > s.len() {
        return false;
    }
    let mut i: usize = 0;
    while i < prefix.len()
        invariant
            prefix.len() <= s.len(),
            i <= prefix.len(),
            forall|j: int| 0 <= j < i ==> s@[j] == prefix@[j],
        decreases prefix.len() - i,
    {
        if s[i] != prefix[i] {
            assert(s@.take(prefix.len() as int)[i as int] != prefix@[i as int]);
            return false;
        }
        i += 1;
    }
    assert(s@.take(prefix.len() as int) =~= prefix@);
    true
}

/// The position of the first `c` at or after `from`, or the length.
pub fn find_char(s: &[char], from: usize, c: char) -> (at: usize)
    requires
        from <= s.len(),
    ensures
        at == from + first_index(s@.skip(from as int), c),
        from <= at <= s.len(),
{
    let mut i: usize = from;
    while i < s.len() && s[i] != c
        invariant
            from <= i <= s.len(),
            forall|j: int| from <= j < i ==> s@[j] != c,
        decreases s.len() - i,
    {
        i += 1;
    }
    proof {
        lemma_first_index_is(s@.skip(from as int), c, i - from);
    }
    i
}

/// The end of the word that begins at `from`: the first whitespace at or
/// after it, or the length.
pub fn word_end(s: &[char], from: usize) -> (at: usize)
    requires
        from <= s.len(),
    ensures
        at == from + word_len(s@.skip(from as int)),
        from <= at <= s.len(),
{
    let mut i: usize = from;
    while i < s.len() && !char_is_space(s[i])
        invariant
            from <= i <= s.len(),
            forall|j: int| from <= j < i ==> !is_space(s@[j]),
        decreases s.len() - i,
    {
        i += 1;
    }
    proof {
        lemma_word_len_is(s@.skip(from as int), i - from);
    }
    i
}

/// The end of the whitespace that begins at `from`.
pub fn space_end(s: &[char], from: usize) -> (at: usize)
    requires
        from <= s.len(),
    ensures
        at == from + space_len(s@.skip(from as int)),
        from <= at <= s.len(),
{
    let mut i: usize = from;
    while i < s.len() && char_is_space(s[i])
        invariant
            from <= i <= s.len(),
            forall|j: int| from <= j < i ==> is_space(s@[j]),
        decreases s.len() - i,
    {
        i += 1;
    }
    proof {
        lemma_space_len_is(s@.skip(from as int), i - from);
    }
    i
}

/// The length of `s` without the whitespace at its end.
pub fn trimmed_len(s: &[char]) -> (n: usize)
    ensures
        n <= s.len(),
        s@.take(n as int) == trim_end_of(s@),
{
    let mut n: usize = s.len();
    while n > 0 && char_is_space(s[n - 1])
        invariant
            n <= s.len(),
            forall|j: int| n <= j < s.len() ==> is_space(s@[j]),
        decreases n,
    {
        n -= 1;
    }
    proof {
        lemma_trim_end_is(s@, n as int);
    }
    n
}

/// The lines of `text`, each a slice of it.
pub fn split_lines<'a>(text: &'a str) -> (out: Vec<&'a str>)
    ensures
        out@.map_values(|l: &str| l@) == lines_of(text@),
{
    let chars = to_chars(text);
    let n = chars.len();
    let mut out: Vec<&'a str> = Vec::new();
    let mut pos: usize = 0;
    assert(text@.skip(0) == text@);
    assert(out@.map_values(|l: &str| l@) + lines_of(text@) == lines_of(text@));
    while pos < n
        invariant
            pos <= n,
            n == chars.len(),
            chars@ == text@,
            out@.map_values(|l: &str| l@) + lines_of(text@.skip(pos as int)) == lines_of(text@),
        decreases n - pos,
    {
        let ghost rest = text@.skip(pos as int);
        let ghost before = out@.map_values(|l: &str| l@);
        let nl = find_char(chars.as_slice(), pos, '\n');
        let end = if nl < n && nl > pos && chars[nl - 1] == '\r' {
            nl - 1
        } else {
            nl
        };
        let line = text.substring_char(pos, end);
        out.push(line);
        proof {
            let k = nl - pos;
            assert(out@.map_values(|l: &str| l@) == before.push(line@));
            if nl < n {
                assert(rest.take(k) == text@.subrange(pos as int, nl as int));
                assert(line@ == strip_cr(rest.take(k)));
                assert(rest.skip(k + 1) == text@.skip(nl + 1));
                assert(before.push(line@) + lines_of(rest.skip(k + 1)) == before + lines_of(rest));
            } else {
                assert(line@ == rest);
                assert(lines_of(text@.skip(n as int)) == Seq::<Seq<char>>::empty());
                assert(before.push(line@) + Seq::<Seq<char>>::empty() == before + lines_of(rest));
            }
        }
        pos = if nl < n {
            nl + 1
        } else {
            n
        };
    }
    assert(lines_of(text@.skip(pos as int)) == Seq::<Seq<char>>::empty());
    assert(out@.map_values(|l: &str| l@) + Seq::<Seq<char>>::empty() == out@.map_values(
        |l: &str| l@,
    ));
    out
}

} // verus!
