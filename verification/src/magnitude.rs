//! How large a decimal number is: whether the digits `d` with the decimal
//! point moved `scale` places to the right write less than a given limit.

use vstd::prelude::*;
use vstd::arithmetic::power::{lemma_pow0, lemma_pow_adds, lemma_pow_increases, lemma_pow_positive, pow};
use crate::number::{all_digits, decimal, digit_value, is_digit};

verus! {

/// Whether `digits` times ten to the power `scale` is less than `limit`,
/// both written in digits.
pub open spec fn is_below(digits: Seq<char>, scale: int, limit: Seq<char>) -> bool {
    if scale >= 0 {
        decimal(digits) * pow(10, scale as nat) < decimal(limit)
    } else {
        decimal(digits) < decimal(limit) * pow(10, (-scale) as nat)
    }
}

/// `n` zeros.
pub open spec fn zeros(n: nat) -> Seq<char> {
    Seq::new(n, |i: int| '0')
}

/// The next power of ten is ten times this one, and every power of ten is
/// positive.
pub proof fn lemma_ten_step(n: nat)
    ensures
        pow(10, n + 1) == 10 * pow(10, n),
        pow(10, n) > 0,
{
    reveal(pow);
    lemma_pow_positive(10, n);
}

/// What two runs of digits write when one follows the other.
pub proof fn lemma_decimal_concat(a: Seq<char>, b: Seq<char>)
    ensures
        decimal(a + b) == decimal(a) * pow(10, b.len()) + decimal(b),
    decreases b.len(),
{
    if b.len() == 0 {
        assert(a + b == a);
        lemma_pow0(10);
    } else {
        let shorter = b.drop_last();
        assert((a + b).drop_last() == a + shorter);
        assert((a + b).last() == b.last());
        lemma_decimal_concat(a, shorter);
        lemma_ten_step(shorter.len());
        let x = decimal(a);
        let p = pow(10, shorter.len());
        let y = decimal(shorter);
        let d = digit_value(b.last());
        assert((x * p + y) * 10 + d == x * (10 * p) + (y * 10 + d)) by (nonlinear_arith);
    }
}

/// Digits write a number below the power of ten of their count.
pub proof fn lemma_decimal_below_power(s: Seq<char>)
    requires
        all_digits(s),
    ensures
        0 <= decimal(s) < pow(10, s.len()),
    decreases s.len(),
{
    if s.len() == 0 {
        lemma_pow0(10);
    } else {
        assert(is_digit(s.last()));
        lemma_decimal_below_power(s.drop_last());
        lemma_ten_step(s.drop_last().len());
    }
}

/// Digits that do not begin with a zero write a number that is at least
/// the power of ten of one less than their count.
pub proof fn lemma_decimal_above_power(s: Seq<char>)
    requires
        all_digits(s),
        s.len() > 0,
        s[0] != '0',
    ensures
        decimal(s) >= pow(10, (s.len() - 1) as nat),
{
    let head = seq![s[0]];
    let rest = s.skip(1);
    assert(s == head + rest);
    lemma_decimal_concat(head, rest);
    assert(all_digits(rest)) by {
        assert forall|i: int| 0 <= i < rest.len() implies is_digit(#[trigger] rest[i]) by {
            assert(rest[i] == s[i + 1]);
        }
    }
    lemma_decimal_below_power(rest);
    assert(head.drop_last() == Seq::<char>::empty());
    assert(decimal(head.drop_last()) == 0);
    assert(head.last() == s[0]);
    assert(decimal(head) == digit_value(s[0]));
    assert(is_digit(s[0]));
    lemma_ten_step(rest.len());
    let p = pow(10, rest.len());
    let h = decimal(head);
    assert(h * p >= p) by (nonlinear_arith)
        requires
            h >= 1,
            p > 0,
    ;
}

/// Zeros write zero.
pub proof fn lemma_zeros_write_zero(s: Seq<char>)
    requires
        forall|i: int| 0 <= i < s.len() ==> s[i] == '0',
    ensures
        decimal(s) == 0,
    decreases s.len(),
{
    if s.len() > 0 {
        lemma_zeros_write_zero(s.drop_last());
    }
}

/// Zeros in front change nothing.
pub proof fn lemma_leading_zeros(s: Seq<char>, z: int)
    requires
        0 <= z <= s.len(),
        forall|i: int| 0 <= i < z ==> s[i] == '0',
    ensures
        decimal(s) == decimal(s.skip(z)),
{
    assert(s == s.take(z) + s.skip(z));
    lemma_decimal_concat(s.take(z), s.skip(z));
    lemma_zeros_write_zero(s.take(z));
    let p = pow(10, s.skip(z).len());
    assert(0 * p == 0) by (nonlinear_arith);
}

/// Zeros behind multiply by a power of ten.
pub proof fn lemma_trailing_zeros(s: Seq<char>, k: nat)
    ensures
        decimal(s + zeros(k)) == decimal(s) * pow(10, k),
{
    lemma_decimal_concat(s, zeros(k));
    lemma_zeros_write_zero(zeros(k));
}

/// Of two runs of digits of one length, the one with the lesser digit where
/// they first differ writes the lesser number.
pub proof fn lemma_first_difference(a: Seq<char>, b: Seq<char>, i: int)
    requires
        all_digits(a),
        all_digits(b),
        a.len() == b.len(),
        0 <= i < a.len(),
        forall|k: int| 0 <= k < i ==> a[k] == b[k],
        a[i] < b[i],
    ensures
        decimal(a) < decimal(b),
{
    let a_head = a.take(i + 1);
    let b_head = b.take(i + 1);
    let a_tail = a.skip(i + 1);
    let b_tail = b.skip(i + 1);
    assert(a == a_head + a_tail);
    assert(b == b_head + b_tail);
    lemma_decimal_concat(a_head, a_tail);
    lemma_decimal_concat(b_head, b_tail);
    assert(all_digits(a_tail)) by {
        assert forall|k: int| 0 <= k < a_tail.len() implies is_digit(#[trigger] a_tail[k]) by {
            assert(a_tail[k] == a[i + 1 + k]);
        }
    }
    assert(all_digits(b_tail)) by {
        assert forall|k: int| 0 <= k < b_tail.len() implies is_digit(#[trigger] b_tail[k]) by {
            assert(b_tail[k] == b[i + 1 + k]);
        }
    }
    lemma_decimal_below_power(a_tail);
    lemma_decimal_below_power(b_tail);
    assert(a_head.drop_last() == b_head.drop_last()) by {
        assert(a_head.drop_last() =~= a.take(i));
        assert(b_head.drop_last() =~= b.take(i));
        assert(a.take(i) =~= b.take(i));
    }
    assert(a_head.last() == a[i] && b_head.last() == b[i]);
    assert(is_digit(a[i]) && is_digit(b[i]));
    let x = decimal(a_head);
    let y = decimal(b_head);
    let p = pow(10, a_tail.len());
    let r = decimal(a_tail);
    let t = decimal(b_tail);
    assert(x * p + r < y * p + t) by (nonlinear_arith)
        requires
            x + 1 <= y,
            0 <= r < p,
            0 <= t,
    ;
}

/// Where the counts of digits settle the comparison: a number of `len`
/// digits, moved `scale` places, against a limit of `k` digits.
pub proof fn lemma_size_decides(d: int, len: nat, t: int, k: nat, scale: int)
    requires
        len >= 1,
        k >= 1,
        pow(10, (len - 1) as nat) <= d < pow(10, len),
        pow(10, (k - 1) as nat) <= t < pow(10, k),
        len + scale != k,
    ensures
        scale >= 0 ==> (d * pow(10, scale as nat) < t <==> len + scale < k),
        scale < 0 ==> (d < t * pow(10, (-scale) as nat) <==> len + scale < k),
{
    if scale >= 0 {
        let s = scale as nat;
        let p = pow(10, s);
        lemma_pow_positive(10, s);
        if len + scale < k {
            lemma_pow_adds(10, len, s);
            lemma_pow_increases(10, len + s, (k - 1) as nat);
            assert(d * p < pow(10, len) * p) by (nonlinear_arith)
                requires
                    d < pow(10, len),
                    p > 0,
            ;
        } else {
            lemma_pow_adds(10, (len - 1) as nat, s);
            lemma_pow_increases(10, k, (len - 1 + s) as nat);
            assert(d * p >= pow(10, (len - 1) as nat) * p) by (nonlinear_arith)
                requires
                    d >= pow(10, (len - 1) as nat),
                    p > 0,
            ;
        }
    } else {
        let s = (-scale) as nat;
        let p = pow(10, s);
        lemma_pow_positive(10, s);
        if len + scale < k {
            lemma_pow_adds(10, (k - 1) as nat, s);
            lemma_pow_increases(10, len, (k - 1 + s) as nat);
            assert(t * p >= pow(10, (k - 1) as nat) * p) by (nonlinear_arith)
                requires
                    t >= pow(10, (k - 1) as nat),
                    p > 0,
            ;
        } else {
            lemma_pow_adds(10, k, s);
            lemma_pow_increases(10, k + s, (len - 1) as nat);
            assert(t * p < pow(10, k) * p) by (nonlinear_arith)
                requires
                    t < pow(10, k),
                    p > 0,
            ;
        }
    }
}

/// The largest shift that `below` takes, either way.
pub const MAX_SCALE: i128 = 0x1_0000_0000_0000_0000_0000_0000;

/// Whether `digits` times ten to the power `scale` is less than `limit`.
pub fn below(digits: &Vec<char>, scale: i128, limit: &Vec<char>) -> (r: bool)
    requires
        all_digits(digits@),
        all_digits(limit@),
        limit@.len() > 0,
        limit@[0] != '0',
        -MAX_SCALE <= scale <= MAX_SCALE,
    ensures
        r == is_below(digits@, scale as int, limit@),
{
    let n = digits.len();
    let k = limit.len();
    let mut z: usize = 0;
    while z < n && digits[z] == '0'
        invariant
            z <= n == digits@.len(),
            forall|i: int| 0 <= i < z ==> digits@[i] == '0',
        decreases n - z,
    {
        z = z + 1;
    }
    let ghost significant = digits@.skip(z as int);
    let ghost d = decimal(digits@);
    let ghost t = decimal(limit@);
    proof {
        lemma_leading_zeros(digits@, z as int);
        lemma_decimal_above_power(limit@);
        lemma_decimal_below_power(limit@);
        lemma_pow_positive(10, (k - 1) as nat);
        assert(all_digits(significant)) by {
            assert forall|i: int| 0 <= i < significant.len() implies is_digit(
                #[trigger] significant[i],
            ) by {
                assert(significant[i] == digits@[z + i]);
            }
        }
    }
    if z == n {
        proof {
            assert(d == 0);
            if scale >= 0 {
                assert(0 * pow(10, scale as nat) == 0) by (nonlinear_arith);
            } else {
                let p = pow(10, (-scale) as nat);
                lemma_pow_positive(10, (-scale) as nat);
                assert(t * p > 0) by (nonlinear_arith)
                    requires
                        t > 0,
                        p > 0,
                ;
            }
        }
        return true;
    }
    let len = n - z;
    proof {
        assert(significant[0] == digits@[z as int]);
        lemma_decimal_above_power(significant);
        lemma_decimal_below_power(significant);
    }
    let e: i128 = len as i128 + scale;
    if e != k as i128 {
        proof {
            lemma_size_decides(d, len as nat, t, k as nat, scale as int);
        }
        return e < k as i128;
    }
    let m = if len > k {
        len
    } else {
        k
    };
    let ghost a = significant + zeros((m - len) as nat);
    let ghost b = limit@ + zeros((m - k) as nat);
    proof {
        lemma_trailing_zeros(significant, (m - len) as nat);
        lemma_trailing_zeros(limit@, (m - k) as nat);
        lemma_pow0(10);
        assert(is_below(digits@, scale as int, limit@) == (decimal(a) < decimal(b))) by {
            if scale >= 0 {
                assert(m - len == scale && m - k == 0);
                assert(t * 1 == t) by (nonlinear_arith);
            } else {
                assert(m - len == 0 && m - k == -scale);
                assert(d * 1 == d) by (nonlinear_arith);
            }
        }
        assert(all_digits(a)) by {
            assert forall|i: int| 0 <= i < a.len() implies is_digit(#[trigger] a[i]) by {
                if i < len {
                    assert(a[i] == significant[i]);
                }
            }
        }
        assert(all_digits(b)) by {
            assert forall|i: int| 0 <= i < b.len() implies is_digit(#[trigger] b[i]) by {
                if i < k {
                    assert(b[i] == limit@[i]);
                }
            }
        }
    }
    let mut i: usize = 0;
    while i < m
        invariant
            i <= m,
            n == digits@.len(),
            k == limit@.len(),
            z + len == n,
            len <= m,
            k <= m,
            a.len() == m,
            b.len() == m,
            significant == digits@.skip(z as int),
            a == significant + zeros((m - len) as nat),
            b == limit@ + zeros((m - k) as nat),
            all_digits(a),
            all_digits(b),
            is_below(digits@, scale as int, limit@) == (decimal(a) < decimal(b)),
            forall|j: int| 0 <= j < i ==> a[j] == b[j],
        decreases m - i,
    {
        let x = if i < len {
            digits[z + i]
        } else {
            '0'
        };
        let y = if i < k {
            limit[i]
        } else {
            '0'
        };
        proof {
            if i < len {
                assert(a[i as int] == significant[i as int]);
                assert(significant[i as int] == digits@[z + i]);
            }
            if i < k {
                assert(b[i as int] == limit@[i as int]);
            }
            assert(a[i as int] == x && b[i as int] == y);
        }
        if x < y {
            proof {
                lemma_first_difference(a, b, i as int);
            }
            return true;
        }
        if y < x {
            proof {
                lemma_first_difference(b, a, i as int);
            }
            return false;
        }
        i = i + 1;
    }
    assert(a =~= b);
    false
}

} // verus!
