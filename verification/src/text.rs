//! Reading decimal integers and fixed words out of text, with the rules of
//! Rust's `FromStr` for the integer types.

use vstd::prelude::*;

verus! {

/// An ASCII decimal digit.
pub open spec fn is_digit(c: char) -> bool {
    '0' <= c && c <= '9'
}

/// The number that the ASCII digit `c` stands for.
pub open spec fn digit_value(c: char) -> nat {
    ((c as u32) - ('0' as u32)) as nat
}

/// Every character of `s` is an ASCII decimal digit.
pub open spec fn all_digits(s: Seq<char>) -> bool {
    forall|i: int| 0 <= i < s.len() ==> #[trigger] is_digit(s[i])
}

/// The number written by the decimal digits `s`, most significant first.
pub open spec fn decimal_value(s: Seq<char>) -> nat
    decreases s.len(),
{
    if s.len() == 0 {
        0
    } else {
        decimal_value(s.drop_last()) * 10 + digit_value(s.last())
    }
}

/// The digits of an unsigned number as text: a leading `+` is dropped.
pub open spec fn unsigned_digits(s: Seq<char>) -> Seq<char> {
    if s.len() > 0 && s[0] == '+' {
        s.drop_first()
    } else {
        s
    }
}

/// The number that `digits` writes, if it is a non-empty run of digits
/// whose value is at most `limit`.
pub open spec fn bounded_decimal(digits: Seq<char>, limit: nat) -> Option<nat> {
    if digits.len() > 0 && all_digits(digits) && decimal_value(digits) <= limit {
        Some(decimal_value(digits))
    } else {
        None
    }
}

/// What `text.parse::<u32>()` accepts: an optional `+`, then at least one
/// decimal digit, with a value that fits in a `u32`.
pub open spec fn parsed_u32(text: Seq<char>) -> Option<u32> {
    match bounded_decimal(unsigned_digits(text), u32::MAX as nat) {
        Some(v) => Some(v as u32),
        None => None,
    }
}

/// What `i32::from_str_radix(text, 10)` accepts: an optional `+` or `-`,
/// then at least one decimal digit, with a value that fits in an `i32`.
pub open spec fn parsed_i32(text: Seq<char>) -> Option<i32> {
    if text.len() > 0 && text[0] == '-' {
        match bounded_decimal(text.drop_first(), 2147483648) {
            Some(v) => Some((0 - v) as i32),
            None => None,
        }
    } else {
        match bounded_decimal(unsigned_digits(text), i32::MAX as nat) {
            Some(v) => Some(v as i32),
            None => None,
        }
    }
}

/// A prefix of a run of digits writes a number no larger than the whole run.
pub proof fn lemma_decimal_prefix_le(s: Seq<char>, k: int)
    requires
        0 <= k <= s.len(),
    ensures
        decimal_value(s.take(k)) <= decimal_value(s),
    decreases s.len(),
{
    if k < s.len() {
        assert(s.drop_last().take(k) =~= s.take(k));
        lemma_decimal_prefix_le(s.drop_last(), k);
    } else {
        assert(s.take(k) =~= s);
    }
}

/// Reads the characters of `text` from index `start` on as a decimal number
/// no larger than `limit`.
fn read_decimal(text: &str, start: usize, limit: u64) -> (value: Option<u64>)
    requires
        start <= text@.len(),
        limit <= u32::MAX,
    ensures
        match bounded_decimal(text@.skip(start as int), limit as nat) {
            Some(v) => value == Some(v as u64),
            None => value is None,
        },
{
    let ghost digits = text@.skip(start as int);
    let len = text.unicode_len();
    if start == len {
        return None;
    }
    let mut acc: u64 = 0;
    let mut i: usize = start;
    while i < len
        invariant
            len == text@.len(),
            digits == text@.skip(start as int),
            start <= i <= len,
            limit <= u32::MAX,
            acc <= limit,
            all_digits(digits.take(i - start)),
            acc == decimal_value(digits.take(i - start)),
        decreases len - i,
    {
        let c = text.get_char(i);
        proof {
            assert(digits.take(i - start + 1).drop_last() =~= digits.take(i - start));
            assert(digits[i - start] == c);
        }
        if !('0' <= c && c <= '9') {
            assert(!is_digit(digits[i - start]));
            return None;
        }
        let d = (c as u32 - '0' as u32) as u64;
        acc = acc * 10 + d;
        if acc > limit {
            proof {
                lemma_decimal_prefix_le(digits, i - start + 1);
            }
            return None;
        }
        i = i + 1;
        proof {
            assert forall|j: int| 0 <= j < digits.take(i - start).len() implies #[trigger] is_digit(
                digits.take(i - start)[j],
            ) by {
                if j < i - start - 1 {
                    assert(digits.take(i - start)[j] == digits.take(i - start - 1)[j]);
                }
            }
        }
    }
    proof {
        assert(digits.take(i - start) =~= digits);
    }
    Some(acc)
}

/// `text.parse::<u32>()`, `None` where that is an error.
pub fn parse_u32(text: &str) -> (value: Option<u32>)
    ensures
        value == parsed_u32(text@),
{
    let len = text.unicode_len();
    let start: usize = if len > 0 && text.get_char(0) == '+' { 1 } else { 0 };
    proof {
        if start == 1 {
            assert(unsigned_digits(text@) =~= text@.skip(1));
        } else {
            assert(unsigned_digits(text@) =~= text@.skip(0));
        }
    }
    match read_decimal(text, start, 4294967295) {
        Some(v) => Some(v as u32),
        None => None,
    }
}

/// `i32::from_str_radix(text, 10)`, `None` where that is an error.
pub fn parse_i32(text: &str) -> (value: Option<i32>)
    ensures
        value == parsed_i32(text@),
{
    let len = text.unicode_len();
    if len > 0 && text.get_char(0) == '-' {
        proof {
            assert(text@.drop_first() =~= text@.skip(1));
        }
        match read_decimal(text, 1, 2147483648) {
            Some(v) => Some((0 - (v as i64)) as i32),
            None => None,
        }
    } else {
        let start: usize = if len > 0 && text.get_char(0) == '+' { 1 } else { 0 };
        proof {
            if start == 1 {
                assert(unsigned_digits(text@) =~= text@.skip(1));
            } else {
                assert(unsigned_digits(text@) =~= text@.skip(0));
            }
        }
        match read_decimal(text, start, 2147483647) {
            Some(v) => Some(v as i32),
            None => None,
        }
    }
}

/// Whether `text` is exactly the characters of `word`.
pub fn text_equals(text: &str, word: &str) -> (same: bool)
    ensures
        same == (text@ == word@),
{
    let len = text.unicode_len();
    if len != word.unicode_len() {
        return false;
    }
    let mut i: usize = 0;
    while i < len
        invariant
            len == text@.len(),
            len == word@.len(),
            0 <= i <= len,
            forall|j: int| 0 <= j < i ==> text@[j] == word@[j],
        decreases len - i,
    {
        if text.get_char(i) != word.get_char(i) {
            return false;
        }
        i = i + 1;
    }
    proof {
        assert(text@ =~= word@);
    }
    true
}

} // verus!
