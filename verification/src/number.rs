//! Which request texts denote numbers, and which numbers they denote.

use vstd::prelude::*;
use crate::text::chars_of;

verus! {

/// The decimal digits.
pub open spec fn is_digit(c: char) -> bool {
    '0' <= c <= '9'
}

/// The number a digit stands for.
pub open spec fn digit_value(c: char) -> int {
    c as int - '0' as int
}

/// Whether every character of `s` is a digit.
pub open spec fn all_digits(s: Seq<char>) -> bool {
    forall|i: int| 0 <= i < s.len() ==> is_digit(#[trigger] s[i])
}

/// The number that the digits `s` write in base ten.
pub open spec fn decimal(s: Seq<char>) -> int
    decreases s.len(),
{
    if s.len() == 0 {
        0
    } else {
        decimal(s.drop_last()) * 10 + digit_value(s.last())
    }
}

/// The integer that `s` denotes, if it denotes one: digits, or `-` and
/// digits, with a value that a signed 64-bit integer holds. A `+` in front,
/// a fraction, or any other character makes it no integer.
pub open spec fn int_text(s: Seq<char>) -> Option<int> {
    if s.len() >= 2 && s[0] == '-' && all_digits(s.skip(1)) && -decimal(s.skip(1)) >= i64::MIN {
        Some(-decimal(s.skip(1)))
    } else if s.len() >= 1 && all_digits(s) && decimal(s) <= i64::MAX {
        Some(decimal(s))
    } else {
        None
    }
}

/// What a longer run of digits writes is no less than what a shorter one
/// that begins it writes.
pub proof fn lemma_decimal_grows(s: Seq<char>, k: int)
    requires
        all_digits(s),
        0 <= k <= s.len(),
    ensures
        0 <= decimal(s.take(k)) <= decimal(s),
    decreases s.len() - k,
{
    if k == s.len() {
        assert(s.take(k) == s);
        lemma_decimal_nonnegative(s);
    } else {
        lemma_decimal_grows(s, k + 1);
        let longer = s.take(k + 1);
        assert(longer.drop_last() == s.take(k));
        assert(is_digit(s[k]) && longer.last() == s[k]);
        lemma_decimal_nonnegative(s.take(k));
    }
}

/// Digits write no negative number.
pub proof fn lemma_decimal_nonnegative(s: Seq<char>)
    requires
        all_digits(s),
    ensures
        decimal(s) >= 0,
    decreases s.len(),
{
    if s.len() > 0 {
        assert(is_digit(s.last()));
        lemma_decimal_nonnegative(s.drop_last());
    }
}

/// Whether `c` is a decimal digit.
pub(crate) fn digit(c: char) -> (r: bool)
    ensures
        r == is_digit(c),
{
    c >= '0' && c <= '9'
}

/// The integer that the characters of `chars` from `from` up to `to`
/// denote, if they denote one.
pub(crate) fn int_at(chars: &Vec<char>, from: usize, to: usize) -> (r: Option<i64>)
    requires
        from <= to <= chars@.len(),
    ensures
        match r {
            Some(v) => int_text(chars@.subrange(from as int, to as int)) == Some(v as int),
            None => int_text(chars@.subrange(from as int, to as int)) is None,
        },
{
    let ghost s = chars@.subrange(from as int, to as int);
    if from == to {
        return None;
    }
    assert(s[0] == chars@[from as int]);
    let negative = chars[from] == '-';
    let first: usize = if negative {
        from + 1
    } else {
        from
    };
    if first == to {
        return None;
    }
    let ghost digits = chars@.subrange(first as int, to as int);
    assert(negative ==> digits == s.skip(1));
    assert(!negative ==> digits == s);
    let limit: u64 = if negative {
        0x8000_0000_0000_0000
    } else {
        0x7fff_ffff_ffff_ffff
    };
    let mut acc: u64 = 0;
    let mut i: usize = first;
    assert(digits.take(0) == Seq::<char>::empty());
    while i < to
        invariant
            first <= i <= to <= chars@.len(),
            digits == chars@.subrange(first as int, to as int),
            s == chars@.subrange(from as int, to as int),
            s.len() >= 1,
            negative == (s[0] == '-'),
            negative ==> digits == s.skip(1),
            !negative ==> digits == s,
            all_digits(digits.take(i - first)),
            acc == decimal(digits.take(i - first)),
            acc <= limit,
            negative ==> limit == 0x8000_0000_0000_0000,
            !negative ==> limit == 0x7fff_ffff_ffff_ffff,
        decreases to - i,
    {
        let c = chars[i];
        assert(digits[i - first] == c);
        if !digit(c) {
            assert(!all_digits(digits));
            return None;
        }
        let d: u64 = (c as u32 - '0' as u32) as u64;
        let ghost longer = digits.take(i - first + 1);
        assert(longer.drop_last() == digits.take(i - first));
        assert(longer.last() == c);
        assert(all_digits(longer));
        if acc > (limit - d) / 10 {
            proof {
                assert(decimal(longer) > limit);
                if all_digits(digits) {
                    lemma_decimal_grows(digits, i - first + 1);
                }
            }
            return None;
        }
        acc = acc * 10 + d;
        i = i + 1;
    }
    assert(digits.take(to - first) == digits);
    if negative {
        if acc == 0x8000_0000_0000_0000 {
            Some(i64::MIN)
        } else {
            Some(-(acc as i64))
        }
    } else {
        Some(acc as i64)
    }
}

/// The integer that `text` denotes, if it denotes one.
pub fn parse_int(text: &str) -> (r: Option<i64>)
    ensures
        match r {
            Some(v) => int_text(text@) == Some(v as int),
            None => int_text(text@) is None,
        },
{
    let chars = chars_of(text);
    assert(chars@.subrange(0, chars@.len() as int) == chars@);
    int_at(&chars, 0, chars.len())
}

} // verus!
