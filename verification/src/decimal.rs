//! Unsigned decimal numbers as text.

use vstd::prelude::*;

verus! {

/// Whether `c` is one of the ten ASCII digits.
pub open spec fn is_digit(c: char) -> bool {
    '0' <= c <= '9'
}

/// The number that the digit `c` stands for.
pub open spec fn digit_value(c: char) -> nat {
    (c as u32 - 48) as nat
}

/// The digit that stands for `d`, for `d` below ten.
pub open spec fn digit_char(d: nat) -> char {
    (d + 48) as char
}

/// Whether `s` is one digit or more, and nothing else.
pub open spec fn is_number(s: Seq<char>) -> bool {
    s.len() > 0 && forall|i: int| 0 <= i < s.len() ==> is_digit(#[trigger] s[i])
}

/// The number that the digits `s` spell, the first digit weighing most.
pub open spec fn decimal_value(s: Seq<char>) -> nat
    decreases s.len(),
{
    if s.len() == 0 {
        0
    } else {
        10 * decimal_value(s.drop_last()) + digit_value(s.last())
    }
}

/// The digits of `n`, without leading zeros.
pub open spec fn decimal_text(n: nat) -> Seq<char>
    decreases n,
{
    if n < 10 {
        seq![digit_char(n)]
    } else {
        decimal_text(n / 10).push(digit_char(n % 10))
    }
}

/// Whether `s` is a number written without leading zeros.
pub open spec fn is_canonical(s: Seq<char>) -> bool {
    is_number(s) && (s.len() == 1 || s[0] != '0')
}

/// What `s` reads as when numbers up to `max` are accepted.
pub open spec fn number_within(s: Seq<char>, max: nat) -> Option<u64> {
    if is_number(s) && decimal_value(s) <= max {
        Some(decimal_value(s) as u64)
    } else {
        None
    }
}

/// Reading more digits never gives a smaller number.
pub proof fn lemma_prefix_value(s: Seq<char>, i: int)
    requires
        0 <= i <= s.len(),
    ensures
        decimal_value(s.take(i)) <= decimal_value(s),
    decreases s.len() - i,
{
    if i < s.len() {
        lemma_prefix_value(s, i + 1);
        assert(s.take(i + 1).drop_last() == s.take(i));
    } else {
        assert(s.take(i) == s);
    }
}

/// A number whose first digit is not zero is not zero.
pub proof fn lemma_value_positive(s: Seq<char>)
    requires
        is_number(s),
        s[0] != '0',
    ensures
        decimal_value(s) > 0,
    decreases s.len(),
{
    if s.len() == 1 {
        assert(s.drop_last().len() == 0);
        assert(decimal_value(s.drop_last()) == 0);
    } else {
        let t = s.drop_last();
        assert(t[0] == s[0]);
        assert forall|i: int| 0 <= i < t.len() implies is_digit(#[trigger] t[i]) by {
            assert(t[i] == s[i]);
        }
        lemma_value_positive(t);
    }
}

/// The digits of a number are written without leading zeros.
pub proof fn lemma_text_is_canonical(n: nat)
    ensures
        is_canonical(decimal_text(n)),
        n > 0 ==> decimal_text(n)[0] != '0',
    decreases n,
{
    if n >= 10 {
        lemma_text_is_canonical(n / 10);
        let t = decimal_text(n / 10);
        let s = t.push(digit_char(n % 10));
        assert(s[0] == t[0]);
        assert forall|i: int| 0 <= i < s.len() implies is_digit(#[trigger] s[i]) by {
            if i < t.len() {
                assert(s[i] == t[i]);
            }
        }
    }
}

/// Writing a number and reading it back gives the number.
pub proof fn lemma_value_of_text(n: nat)
    ensures
        decimal_value(decimal_text(n)) == n,
    decreases n,
{
    if n < 10 {
        let s = seq![digit_char(n)];
        assert(s.drop_last().len() == 0);
        assert(decimal_value(s.drop_last()) == 0);
    } else {
        lemma_value_of_text(n / 10);
        let s = decimal_text(n / 10).push(digit_char(n % 10));
        assert(s.drop_last() == decimal_text(n / 10));
    }
}

/// Reading a number written without leading zeros and writing it again
/// gives the same digits.
pub proof fn lemma_text_of_value(s: Seq<char>)
    requires
        is_canonical(s),
    ensures
        decimal_text(decimal_value(s)) == s,
    decreases s.len(),
{
    let t = s.drop_last();
    if s.len() == 1 {
        assert(t.len() == 0);
        assert(decimal_value(t) == 0);
        assert(is_digit(s[0]));
        assert(seq![digit_char(digit_value(s[0]))] == s);
    } else {
        assert(t[0] == s[0]);
        assert forall|i: int| 0 <= i < t.len() implies is_digit(#[trigger] t[i]) by {
            assert(t[i] == s[i]);
        }
        lemma_value_positive(t);
        lemma_text_of_value(t);
        assert(is_digit(s[s.len() - 1]));
        let v = decimal_value(s);
        assert(v / 10 == decimal_value(t));
        assert(v % 10 == digit_value(s.last()));
        assert(t.push(digit_char(digit_value(s.last()))) == s);
    }
}

/// A number below a thousand has at most three digits.
pub proof fn lemma_text_len_below_thousand(n: nat)
    requires
        n < 1000,
    ensures
        1 <= decimal_text(n).len() <= 3,
{
    if n >= 100 {
        assert(decimal_text(n / 100).len() == 1);
        assert(decimal_text(n / 10).len() == 2);
    } else if n >= 10 {
        assert(decimal_text(n / 10).len() == 1);
    }
}

/// Whether `c` is a digit.
pub fn char_is_digit(c: char) -> (b: bool)
    ensures
        b == is_digit(c),
{
    '0' <= c && c <= '9'
}

/// Reads `s` as a number no greater than `max`.
pub fn parse_number(s: &[char], max: u64) -> (r: Option<u64>)
    ensures
        r == number_within(s@, max as nat),
{
    if s.len() == 0 {
        return None;
    }
    let mut acc: u64 = 0;
    let mut i: usize = 0;
    while i < s.len()
        invariant
            i <= s.len(),
            forall|j: int| 0 <= j < i ==> is_digit(#[trigger] s@[j]),
            acc == decimal_value(s@.take(i as int)),
            acc <= max,
        decreases s.len() - i,
    {
        let c = s[i];
        if !char_is_digit(c) {
            return None;
        }
        let d: u32 = c as u32 - 48;
        let next: u128 = acc as u128 * 10 + d as u128;
        proof {
            assert(s@.take(i + 1).drop_last() == s@.take(i as int));
            assert(next == decimal_value(s@.take(i + 1)));
            lemma_prefix_value(s@, i + 1);
        }
        if next > max as u128 {
            return None;
        }
        acc = next as u64;
        i += 1;
    }
    assert(s@.take(i as int) == s@);
    Some(acc)
}

/// The one-character text of the digit `d`.
fn digit_str(d: u64) -> (r: &'static str)
    requires
        d < 10,
    ensures
        r@ == seq![digit_char(d as nat)],
{
    proof {
        reveal_strlit("0");
        reveal_strlit("1");
        reveal_strlit("2");
        reveal_strlit("3");
        reveal_strlit("4");
        reveal_strlit("5");
        reveal_strlit("6");
        reveal_strlit("7");
        reveal_strlit("8");
        reveal_strlit("9");
    }
    let r = match d {
        0 => "0",
        1 => "1",
        2 => "2",
        3 => "3",
        4 => "4",
        5 => "5",
        6 => "6",
        7 => "7",
        8 => "8",
        _ => "9",
    };
    assert(r@ =~= seq![digit_char(d as nat)]);
    r
}

/// Appends the digits of `n` to `out`.
pub fn push_decimal(out: &mut String, n: u64)
    ensures
        final(out)@ == old(out)@ + decimal_text(n as nat),
    decreases n,
{
    let ghost before = out@;
    if n >= 10 {
        push_decimal(out, n / 10);
    }
    out.append(digit_str(n % 10));
    assert(out@ =~= before + decimal_text(n as nat));
}

/// The digits of `n`.
pub fn decimal_string(n: u64) -> (r: String)
    ensures
        r@ == decimal_text(n as nat),
{
    let mut r = String::new();
    push_decimal(&mut r, n);
    assert(r@ =~= decimal_text(n as nat));
    r
}

} // verus!
