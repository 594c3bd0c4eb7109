//! Which request texts denote a float.
//!
//! A text denotes a float when it is a decimal number, with a sign or
//! without, whose value a double-precision float holds as a finite number.
//! A float rounds to the nearest value it can hold, so the numbers that are
//! too large begin halfway between the largest finite double and two to the
//! power 1024.

use vstd::prelude::*;
use vstd::arithmetic::power::{
    lemma_pow0, lemma_pow_adds, lemma_pow_increases, lemma_pow_positive, pow,
};
use crate::grammar::{first_sep, lemma_first_sep, lemma_first_sep_finds};
use crate::magnitude::{
    below, is_below, lemma_decimal_above_power, lemma_decimal_below_power, lemma_leading_zeros,
    MAX_SCALE,
};
use crate::number::{all_digits, decimal, digit, is_digit};
use crate::text::chars_of;

verus! {

/// The least whole number that is too large for a float: two to the power
/// 1024, less two to the power 970.
pub const OVERFLOW_THRESHOLD: &'static str =
    "179769313486231580793728971405303415079934132710037826936173778980444968292764750946649017977587207096330286416692887910946555547851940402630657488671505820681908902000708383676273854845817711531764475730270069855571366959622842914819860834936475292719074168444365510704342711559699508093042880177904174497792";

/// The threshold is written in 309 digits, the first of them a one.
pub proof fn lemma_threshold_is_a_number()
    ensures
        OVERFLOW_THRESHOLD@.len() == 309,
        OVERFLOW_THRESHOLD@[0] == '1',
        all_digits(OVERFLOW_THRESHOLD@),
{
    reveal_strlit(
        "179769313486231580793728971405303415079934132710037826936173778980444968292764750946649017977587207096330286416692887910946555547851940402630657488671505820681908902000708383676273854845817711531764475730270069855571366959622842914819860834936475292719074168444365510704342711559699508093042880177904174497792",
    );
}

/// `s` without the sign in front of it, if it has one.
pub open spec fn unsigned(s: Seq<char>) -> Seq<char> {
    if s.len() > 0 && (s[0] == '+' || s[0] == '-') {
        s.skip(1)
    } else {
        s
    }
}

/// Where the exponent letter stands in `u`: at its first `e` or `E`, or at
/// `u.len()` if it has neither.
pub open spec fn exponent_at(u: Seq<char>) -> int {
    if first_sep(u, 'e') <= first_sep(u, 'E') {
        first_sep(u, 'e')
    } else {
        first_sep(u, 'E')
    }
}

/// The part of an unsigned number before the exponent letter.
pub open spec fn mantissa(u: Seq<char>) -> Seq<char> {
    u.take(exponent_at(u))
}

/// The part of the mantissa before its first dot.
pub open spec fn whole_digits(u: Seq<char>) -> Seq<char> {
    mantissa(u).take(first_sep(mantissa(u), '.'))
}

/// The part of the mantissa after its first dot; empty if it has no dot.
pub open spec fn fraction_digits(u: Seq<char>) -> Seq<char> {
    let m = mantissa(u);
    if first_sep(m, '.') < m.len() {
        m.skip(first_sep(m, '.') + 1)
    } else {
        Seq::empty()
    }
}

/// What follows the exponent letter, if there is one.
pub open spec fn exponent_text(u: Seq<char>) -> Option<Seq<char>> {
    if exponent_at(u) < u.len() {
        Some(u.skip(exponent_at(u) + 1))
    } else {
        None
    }
}

/// The unsigned decimal numbers: digits with a dot somewhere among them,
/// before them, after them or nowhere, at least one digit in all, and then
/// an exponent or none: the letter `e` or `E`, a sign or none, and at least
/// one digit.
pub open spec fn is_decimal_number(u: Seq<char>) -> bool {
    &&& all_digits(whole_digits(u))
    &&& all_digits(fraction_digits(u))
    &&& whole_digits(u).len() + fraction_digits(u).len() > 0
    &&& exponent_text(u) is Some ==> {
        let x = unsigned(exponent_text(u)->0);
        x.len() > 0 && all_digits(x)
    }
}

/// The exponent of an unsigned decimal number: zero if it has none.
pub open spec fn exponent(u: Seq<char>) -> int {
    match exponent_text(u) {
        Some(x) => if x.len() > 0 && x[0] == '-' {
            -decimal(unsigned(x))
        } else {
            decimal(unsigned(x))
        },
        None => 0,
    }
}

/// Whether the value of an unsigned decimal number is below the threshold:
/// its digits, whole and fraction together, with the decimal point moved
/// right by the exponent less the count of the fraction's digits.
pub open spec fn is_finite_number(u: Seq<char>) -> bool {
    is_below(
        whole_digits(u) + fraction_digits(u),
        exponent(u) - fraction_digits(u).len(),
        OVERFLOW_THRESHOLD@,
    )
}

/// The texts that denote a float: a decimal number, with a sign or none,
/// that is not too large. The words for infinity and for not-a-number
/// denote none.
pub open spec fn is_float_text(s: Seq<char>) -> bool {
    is_decimal_number(unsigned(s)) && is_finite_number(unsigned(s))
}

/// Where the parts of an unsigned decimal number lie among the characters
/// that hold it: the whole digits, the fraction digits, and the digits of
/// the exponent with whether a minus stands before them.
struct Layout {
    whole: (usize, usize),
    fraction: (usize, usize),
    exponent: Option<(bool, usize, usize)>,
}

impl Layout {
    /// Whether the layout is that of the number `chars[from..to]`.
    spec fn describes(&self, chars: Seq<char>, from: int, to: int) -> bool {
        let u = chars.subrange(from, to);
        &&& self.whole.0 <= self.whole.1 <= chars.len()
        &&& self.fraction.0 <= self.fraction.1 <= chars.len()
        &&& whole_digits(u) == chars.subrange(self.whole.0 as int, self.whole.1 as int)
        &&& fraction_digits(u) == chars.subrange(self.fraction.0 as int, self.fraction.1 as int)
        &&& match self.exponent {
            None => exponent_text(u) is None,
            Some((negative, first, end)) => {
                &&& first <= end <= chars.len()
                &&& exponent_text(u) is Some
                &&& negative == (exponent_text(u)->0.len() > 0 && exponent_text(u)->0[0] == '-')
                &&& unsigned(exponent_text(u)->0) == chars.subrange(first as int, end as int)
            },
        }
    }
}

/// Where the run of digits that begins at `from` ends.
fn digits_end(chars: &Vec<char>, from: usize, to: usize) -> (end: usize)
    requires
        from <= to <= chars@.len(),
    ensures
        from <= end <= to,
        forall|k: int| from <= k < end ==> is_digit(#[trigger] chars@[k]),
        end < to ==> !is_digit(chars@[end as int]),
{
    let mut i: usize = from;
    while i < to && digit(chars[i])
        invariant
            from <= i <= to <= chars@.len(),
            forall|k: int| from <= k < i ==> is_digit(#[trigger] chars@[k]),
        decreases to - i,
    {
        i = i + 1;
    }
    i
}

/// A text that is free of a separator up to `n` has its first one at `n`
/// or later.
proof fn lemma_first_sep_later(s: Seq<char>, sep: char, n: int)
    requires
        0 <= n <= s.len(),
        forall|k: int| 0 <= k < n ==> s[k] != sep,
    ensures
        n <= first_sep(s, sep) <= s.len(),
{
    lemma_first_sep_finds(s, sep);
}

/// What a scan of `u` has found: digits up to `w`; if `dotted`, a dot at
/// `w` and digits from there up to `f`, else `f` is `w`.
spec fn scanned(u: Seq<char>, w: int, dotted: bool, f: int) -> bool {
    &&& 0 <= w <= f <= u.len()
    &&& forall|k: int| 0 <= k < w ==> is_digit(#[trigger] u[k])
    &&& if dotted {
        &&& w < f
        &&& u[w] == '.'
        &&& forall|k: int| w < k < f ==> is_digit(#[trigger] u[k])
    } else {
        f == w
    }
}

/// The fraction that a scan has found.
spec fn scanned_fraction(u: Seq<char>, w: int, dotted: bool, f: int) -> Seq<char> {
    if dotted {
        u.subrange(w + 1, f)
    } else {
        u.subrange(w, w)
    }
}

/// Where a scan ends at the end of the text or at an exponent letter, the
/// parts of the number are the parts that the scan has found.
proof fn lemma_scan_finds_parts(u: Seq<char>, w: int, dotted: bool, f: int)
    requires
        scanned(u, w, dotted, f),
        f == u.len() || u[f] == 'e' || u[f] == 'E',
    ensures
        exponent_at(u) == f,
        whole_digits(u) == u.take(w),
        fraction_digits(u) == scanned_fraction(u, w, dotted, f),
        all_digits(whole_digits(u)),
        all_digits(fraction_digits(u)),
{
    assert forall|k: int| 0 <= k < f implies u[k] != 'e' && u[k] != 'E' by {
        if k != w {
            assert(is_digit(u[k]));
        }
    }
    lemma_first_sep_later(u, 'e', f);
    lemma_first_sep_later(u, 'E', f);
    if f < u.len() {
        if u[f] == 'e' {
            lemma_first_sep(u, 'e', f);
        } else {
            lemma_first_sep(u, 'E', f);
        }
    }
    let m = mantissa(u);
    assert(m == u.take(f));
    assert forall|k: int| 0 <= k < w implies m[k] != '.' by {
        assert(is_digit(u[k]));
    }
    lemma_first_sep(m, '.', w);
    assert(whole_digits(u) == u.take(w));
    assert(fraction_digits(u) == scanned_fraction(u, w, dotted, f));
    assert forall|k: int| 0 <= k < whole_digits(u).len() implies is_digit(
        #[trigger] whole_digits(u)[k],
    ) by {
        assert(whole_digits(u)[k] == u[k]);
    }
    assert forall|k: int| 0 <= k < fraction_digits(u).len() implies is_digit(
        #[trigger] fraction_digits(u)[k],
    ) by {
        assert(fraction_digits(u)[k] == u[w + 1 + k]);
    }
}

/// Where a scan ends at a character that is no digit, no exponent letter
/// and no dot that could be the first, the text is no decimal number.
proof fn lemma_scan_finds_none(u: Seq<char>, w: int, dotted: bool, f: int)
    requires
        scanned(u, w, dotted, f),
        f < u.len(),
        !is_digit(u[f]),
        u[f] != 'e' && u[f] != 'E',
        dotted || u[f] != '.',
    ensures
        !is_decimal_number(u),
{
    assert forall|k: int| 0 <= k < f + 1 implies u[k] != 'e' && u[k] != 'E' by {
        if k != w && k != f {
            assert(is_digit(u[k]));
        }
    }
    lemma_first_sep_later(u, 'e', f + 1);
    lemma_first_sep_later(u, 'E', f + 1);
    let m = mantissa(u);
    assert(m.len() > f);
    assert(m[f] == u[f]);
    if dotted {
        assert(m[w] == '.');
        assert forall|k: int| 0 <= k < w implies m[k] != '.' by {
            assert(is_digit(u[k]));
        }
        lemma_first_sep(m, '.', w);
        assert(fraction_digits(u)[f - w - 1] == u[f]);
    } else {
        assert forall|k: int| 0 <= k < w + 1 implies m[k] != '.' by {
            if k < w {
                assert(is_digit(u[k]));
            }
        }
        lemma_first_sep_later(m, '.', w + 1);
        assert(whole_digits(u)[w] == u[f]);
    }
}

/// The layout of the characters of `chars` from `from` up to `to`, if they
/// form an unsigned decimal number.
fn decimal_number_at(chars: &Vec<char>, from: usize, to: usize) -> (r: Option<Layout>)
    requires
        from <= to <= chars@.len(),
    ensures
        match r {
            Some(layout) => is_decimal_number(chars@.subrange(from as int, to as int))
                && layout.describes(chars@, from as int, to as int),
            None => !is_decimal_number(chars@.subrange(from as int, to as int)),
        },
{
    let ghost u = chars@.subrange(from as int, to as int);
    let whole_end = digits_end(chars, from, to);
    let dotted = whole_end < to && chars[whole_end] == '.';
    let frac_end = if dotted {
        digits_end(chars, whole_end + 1, to)
    } else {
        whole_end
    };
    let digit_count = if dotted {
        (whole_end - from) + (frac_end - whole_end - 1)
    } else {
        whole_end - from
    };
    let fraction = if dotted {
        (whole_end + 1, frac_end)
    } else {
        (whole_end, whole_end)
    };
    let ghost w = whole_end - from;
    let ghost f = frac_end - from;
    proof {
        assert forall|k: int| 0 <= k < u.len() implies #[trigger] u[k] == chars@[from + k] by {}
        assert(scanned(u, w, dotted, f));
        assert(u.take(w) == chars@.subrange(from as int, whole_end as int));
        assert(scanned_fraction(u, w, dotted, f) == chars@.subrange(
            fraction.0 as int,
            fraction.1 as int,
        ));
    }
    if frac_end == to {
        proof {
            lemma_scan_finds_parts(u, w, dotted, f);
        }
        return if digit_count > 0 {
            Some(Layout { whole: (from, whole_end), fraction, exponent: None })
        } else {
            None
        };
    }
    let c = chars[frac_end];
    assert(u[f] == c);
    if c != 'e' && c != 'E' {
        proof {
            lemma_scan_finds_none(u, w, dotted, f);
        }
        return None;
    }
    proof {
        lemma_scan_finds_parts(u, w, dotted, f);
    }
    if digit_count == 0 {
        return None;
    }
    let ghost x = u.skip(f + 1);
    assert(x == chars@.subrange(frac_end + 1, to as int));
    let signed = frac_end + 1 < to && (chars[frac_end + 1] == '+' || chars[frac_end + 1] == '-');
    let negative = signed && chars[frac_end + 1] == '-';
    let first: usize = if signed {
        frac_end + 2
    } else {
        frac_end + 1
    };
    proof {
        if frac_end + 1 < to {
            assert(x[0] == chars@[frac_end + 1]);
        }
        assert(unsigned(x) == chars@.subrange(first as int, to as int));
    }
    let end = digits_end(chars, first, to);
    proof {
        let ux = unsigned(x);
        if end == to {
            assert forall|k: int| 0 <= k < ux.len() implies is_digit(#[trigger] ux[k]) by {
                assert(ux[k] == chars@[first + k]);
            }
        } else {
            assert(ux[end - first] == chars@[end as int]);
        }
    }
    if end == to && first < to {
        Some(Layout { whole: (from, whole_end), fraction, exponent: Some((negative, first, to)) })
    } else {
        None
    }
}

/// The characters of two ranges of `chars`, one after the other.
fn gather(chars: &Vec<char>, first: (usize, usize), second: (usize, usize)) -> (both: Vec<char>)
    requires
        first.0 <= first.1 <= chars@.len(),
        second.0 <= second.1 <= chars@.len(),
    ensures
        both@ == chars@.subrange(first.0 as int, first.1 as int) + chars@.subrange(
            second.0 as int,
            second.1 as int,
        ),
{
    let mut both: Vec<char> = Vec::new();
    let mut i: usize = first.0;
    while i < first.1
        invariant
            first.0 <= i <= first.1 <= chars@.len(),
            both@ == chars@.subrange(first.0 as int, i as int),
        decreases first.1 - i,
    {
        both.push(chars[i]);
        i = i + 1;
    }
    let mut k: usize = second.0;
    while k < second.1
        invariant
            second.0 <= k <= second.1 <= chars@.len(),
            both@ == chars@.subrange(first.0 as int, first.1 as int) + chars@.subrange(
                second.0 as int,
                k as int,
            ),
        decreases second.1 - k,
    {
        both.push(chars[k]);
        k = k + 1;
    }
    both
}

/// Ten to the power 25, written out.
proof fn lemma_ten_to_25()
    ensures
        pow(10, 25) == 10_000_000_000_000_000_000_000_000,
{
    assert(pow(10, 5) == 100_000) by {
        reveal_with_fuel(pow, 6);
    }
    lemma_pow_adds(10, 5, 5);
    assert(pow(10, 10) == 10_000_000_000);
    lemma_pow_adds(10, 10, 10);
    assert(pow(10, 20) == 100_000_000_000_000_000_000);
    lemma_pow_adds(10, 20, 5);
}

/// Far from the limit the shift alone decides, together with whether the
/// digits write zero: two shifts that are both at least the count of the
/// limit's digits, or both at most the negated count of the number's
/// digits, give the same answer.
proof fn lemma_far_shifts_agree(digits: Seq<char>, one: int, other: int, limit: Seq<char>)
    requires
        all_digits(digits),
        all_digits(limit),
        limit.len() > 0,
        limit[0] != '0',
        (one >= limit.len() && other >= limit.len()) || (one <= -digits.len() && other
            <= -digits.len()),
    ensures
        is_below(digits, one, limit) == is_below(digits, other, limit),
{
    let d = decimal(digits);
    let t = decimal(limit);
    lemma_decimal_below_power(digits);
    lemma_decimal_below_power(limit);
    lemma_decimal_above_power(limit);
    lemma_pow_positive(10, (limit.len() - 1) as nat);
    if one >= limit.len() {
        let p = pow(10, one as nat);
        let q = pow(10, other as nat);
        lemma_pow_increases(10, limit.len(), one as nat);
        lemma_pow_increases(10, limit.len(), other as nat);
        if d == 0 {
            assert(d * p == 0 && d * q == 0) by (nonlinear_arith)
                requires
                    d == 0,
            ;
        } else {
            assert(d * p >= p && d * q >= q) by (nonlinear_arith)
                requires
                    d >= 1,
                    p > 0,
                    q > 0,
            ;
        }
    } else {
        let p = pow(10, (-one) as nat);
        let q = pow(10, (-other) as nat);
        lemma_pow_increases(10, digits.len(), (-one) as nat);
        lemma_pow_increases(10, digits.len(), (-other) as nat);
        assert(t * p >= p && t * q >= q) by (nonlinear_arith)
            requires
                t >= 1,
                p > 0,
                q > 0,
        ;
    }
}

/// Whether the unsigned decimal number `chars[from..to]`, laid out as
/// `layout` says, is below the threshold.
fn finite_at(chars: &Vec<char>, from: usize, to: usize, layout: &Layout) -> (r: bool)
    requires
        from <= to <= chars@.len(),
        is_decimal_number(chars@.subrange(from as int, to as int)),
        layout.describes(chars@, from as int, to as int),
    ensures
        r == is_finite_number(chars@.subrange(from as int, to as int)),
{
    let ghost u = chars@.subrange(from as int, to as int);
    let digits = gather(chars, layout.whole, layout.fraction);
    let limit = chars_of(OVERFLOW_THRESHOLD);
    let places = (layout.fraction.1 - layout.fraction.0) as i128;
    proof {
        lemma_threshold_is_a_number();
        assert(all_digits(digits@)) by {
            assert forall|i: int| 0 <= i < digits@.len() implies is_digit(#[trigger] digits@[i]) by {
                if i < whole_digits(u).len() {
                    assert(digits@[i] == whole_digits(u)[i]);
                } else {
                    assert(digits@[i] == fraction_digits(u)[i - whole_digits(u).len()]);
                }
            }
        }
    }
    match layout.exponent {
        None => below(&digits, -places, &limit),
        Some((negative, first, end)) => {
            let ghost written = chars@.subrange(first as int, end as int);
            let mut start: usize = first;
            while start < end && chars[start] == '0'
                invariant
                    first <= start <= end <= chars@.len(),
                    forall|i: int| first <= i < start ==> chars@[i] == '0',
                decreases end - start,
            {
                start = start + 1;
            }
            let ghost significant = chars@.subrange(start as int, end as int);
            proof {
                assert forall|i: int| 0 <= i < start - first implies written[i] == '0' by {
                    assert(written[i] == chars@[first + i]);
                }
                lemma_leading_zeros(written, start - first);
                assert(written.skip(start - first) == significant);
                assert(all_digits(significant)) by {
                    assert forall|i: int| 0 <= i < significant.len() implies is_digit(
                        #[trigger] significant[i],
                    ) by {
                        assert(significant[i] == written[start - first + i]);
                    }
                }
                lemma_decimal_below_power(significant);
                lemma_ten_to_25();
            }
            if end - start > 25 {
                proof {
                    assert(significant[0] == chars@[start as int]);
                    lemma_decimal_above_power(significant);
                    lemma_pow_increases(10, 25, (significant.len() - 1) as nat);
                    let shift = exponent(u) - fraction_digits(u).len();
                    let far: int = if negative {
                        -MAX_SCALE
                    } else {
                        MAX_SCALE as int
                    };
                    lemma_far_shifts_agree(digits@, shift, far, limit@);
                }
                return below(
                    &digits,
                    if negative {
                        -MAX_SCALE
                    } else {
                        MAX_SCALE
                    },
                    &limit,
                );
            }
            let mut value: i128 = 0;
            let mut i: usize = start;
            proof {
                assert(significant.take(0) == Seq::<char>::empty());
                lemma_pow0(10);
            }
            while i < end
                invariant
                    start <= i <= end <= chars@.len(),
                    end - start <= 25,
                    significant == chars@.subrange(start as int, end as int),
                    all_digits(significant),
                    value == decimal(significant.take(i - start)),
                    0 <= value < pow(10, (i - start) as nat),
                    pow(10, 25) == 10_000_000_000_000_000_000_000_000,
                decreases end - i,
            {
                let c = chars[i];
                proof {
                    let longer = significant.take(i - start + 1);
                    assert(longer.drop_last() == significant.take(i - start));
                    assert(longer.last() == c);
                    assert(is_digit(significant[i - start]));
                    assert(all_digits(longer)) by {
                        assert forall|j: int| 0 <= j < longer.len() implies is_digit(
                            #[trigger] longer[j],
                        ) by {
                            assert(longer[j] == significant[j]);
                        }
                    }
                    lemma_decimal_below_power(longer);
                    lemma_pow_increases(10, (i - start) as nat, 25);
                    lemma_pow_increases(10, (i - start + 1) as nat, 25);
                }
                value = value * 10 + (c as u32 - '0' as u32) as i128;
                i = i + 1;
            }
            proof {
                assert(significant.take(end - start) == significant);
                lemma_pow_increases(10, (end - start) as nat, 25);
            }
            let shift = if negative {
                -value - places
            } else {
                value - places
            };
            below(&digits, shift, &limit)
        },
    }
}

/// Whether the characters of `chars` from `from` up to `to` denote a float.
pub(crate) fn float_at(chars: &Vec<char>, from: usize, to: usize) -> (r: bool)
    requires
        from <= to <= chars@.len(),
    ensures
        r == is_float_text(chars@.subrange(from as int, to as int)),
{
    let ghost s = chars@.subrange(from as int, to as int);
    let signed = from < to && (chars[from] == '+' || chars[from] == '-');
    let first: usize = if signed {
        from + 1
    } else {
        from
    };
    proof {
        if from < to {
            assert(s[0] == chars@[from as int]);
        }
        assert(unsigned(s) == chars@.subrange(first as int, to as int));
    }
    match decimal_number_at(chars, first, to) {
        Some(layout) => finite_at(chars, first, to, &layout),
        None => false,
    }
}

/// Whether `text` denotes a float.
pub fn is_float(text: &str) -> (r: bool)
    ensures
        r == is_float_text(text@),
{
    let chars = chars_of(text);
    assert(chars@.subrange(0, chars@.len() as int) == chars@);
    float_at(&chars, 0, chars.len())
}

} // verus!
