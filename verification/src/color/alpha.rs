//! The alpha of `rgba(..)`: a decimal fraction from 0 to 1, read exactly
//! and rounded to the nearest byte, or else an integer from 0 to 255.

use vstd::prelude::*;
use vstd::arithmetic::div_mod::{
    lemma_basic_div, lemma_div_denominator, lemma_div_plus_one, lemma_hoist_over_denominator,
};
use vstd::slice::slice_subrange;
use crate::color::number::{
    all_digits, channel_value, digit_value, digits_value, is_digit, is_digit_char, parse_channel,
};

verus! {

/// Ten to the power `n`.
pub open spec fn pow10(n: nat) -> nat
    decreases n,
{
    if n == 0 {
        1
    } else {
        10 * pow10((n - 1) as nat)
    }
}

/// The number of digits that `s` starts with.
pub open spec fn digit_run(s: Seq<char>) -> nat
    decreases s.len(),
{
    if s.len() > 0 && is_digit(s[0]) {
        1 + digit_run(s.drop_first())
    } else {
        0
    }
}

/// Whether `s` starts with a minus sign.
pub open spec fn has_minus(s: Seq<char>) -> bool {
    s.len() > 0 && s[0] == '-'
}

/// `s` without a leading `+` or `-`.
pub open spec fn strip_sign(s: Seq<char>) -> Seq<char> {
    if s.len() > 0 && (s[0] == '+' || s[0] == '-') {
        s.drop_first()
    } else {
        s
    }
}

/// A decimal number as it was written: the number is
/// `digits_value(digits) * 10^(exponent - frac_len)`, negated if `negative`.
pub ghost struct Decimal {
    /// Whether a minus sign stands in front.
    pub negative: bool,
    /// The digits before and after the point, in order.
    pub digits: Seq<char>,
    /// How many of `digits` stood after the point.
    pub frac_len: nat,
    /// The written exponent, 0 if there is none.
    pub exponent: int,
}

/// The exponent that the text after a mantissa writes: nothing, or `e` or
/// `E`, an optional sign and one or more digits.
pub open spec fn exponent_value(e: Seq<char>) -> Option<int> {
    if e.len() == 0 {
        Some(0)
    } else if e[0] == 'e' || e[0] == 'E' {
        let signed = e.drop_first();
        let body = strip_sign(signed);
        if body.len() > 0 && all_digits(body) {
            Some(
                if has_minus(signed) {
                    -(digits_value(body) as int)
                } else {
                    digits_value(body) as int
                },
            )
        } else {
            None
        }
    } else {
        None
    }
}

/// The number of digits before the point of the mantissa `m`.
pub open spec fn int_len(m: Seq<char>) -> nat {
    digit_run(m)
}

/// Whether a point follows the digits that `m` starts with.
pub open spec fn has_point(m: Seq<char>) -> bool {
    int_len(m) < m.len() && m[int_len(m) as int] == '.'
}

/// The number of digits after the point of the mantissa `m`.
pub open spec fn frac_len(m: Seq<char>) -> nat {
    if has_point(m) {
        digit_run(m.skip(int_len(m) as int + 1))
    } else {
        0
    }
}

/// The number of characters of `m` that its mantissa takes.
pub open spec fn mantissa_len(m: Seq<char>) -> nat {
    if has_point(m) {
        int_len(m) + 1 + frac_len(m)
    } else {
        int_len(m)
    }
}

/// The digits of the mantissa of `m`, those before the point and then
/// those after it.
pub open spec fn mantissa_digits(m: Seq<char>) -> Seq<char> {
    if has_point(m) {
        m.take(int_len(m) as int) + m.subrange(int_len(m) as int + 1, mantissa_len(m) as int)
    } else {
        m.take(int_len(m) as int)
    }
}

/// The decimal number that `t` writes: an optional sign; digits, a point
/// and digits, with at least one digit on either side of the point or
/// without a point; then an optional exponent.
pub open spec fn decimal(t: Seq<char>) -> Option<Decimal> {
    let m = strip_sign(t);
    if int_len(m) + frac_len(m) == 0 {
        None
    } else {
        match exponent_value(m.skip(mantissa_len(m) as int)) {
            Some(e) => Some(
                Decimal {
                    negative: has_minus(t),
                    digits: mantissa_digits(m),
                    frac_len: frac_len(m),
                    exponent: e,
                },
            ),
            None => None,
        }
    }
}

/// The alpha byte of a number from 0 to 1: 255 times the number, rounded to
/// the nearest integer, halves upward. A number outside 0 to 1 has none.
pub open spec fn fraction_alpha(d: Decimal) -> Option<u8> {
    let m = digits_value(d.digits);
    let scale = d.exponent - d.frac_len;
    if m == 0 {
        Some(0)
    } else if d.negative {
        None
    } else if scale >= 0 {
        if m * pow10(scale as nat) <= 1 {
            Some(255)
        } else {
            None
        }
    } else {
        let den = pow10((-scale) as nat);
        if m <= den {
            Some(((510 * m + den) / (2 * den)) as u8)
        } else {
            None
        }
    }
}

/// The alpha byte that `t` writes as a decimal number from 0 to 1.
pub open spec fn fraction_value(t: Seq<char>) -> Option<u8> {
    match decimal(t) {
        Some(d) => fraction_alpha(d),
        None => None,
    }
}

/// The alpha byte that `t` writes: a decimal number from 0 to 1, scaled to
/// 0 to 255; failing that, an integer from 0 to 255, taken as it is.
pub open spec fn alpha_value(t: Seq<char>) -> Option<u8> {
    match fraction_value(t) {
        Some(a) => Some(a),
        None => channel_value(t),
    }
}

/// A power of ten is at least 1.
pub proof fn lemma_pow10_positive(n: nat)
    ensures
        pow10(n) >= 1,
    decreases n,
{
    if n > 0 {
        lemma_pow10_positive((n - 1) as nat);
    }
}

/// Ten to a sum is the product of the powers.
pub proof fn lemma_pow10_adds(a: nat, b: nat)
    ensures
        pow10(a + b) == pow10(a) * pow10(b),
    decreases a,
{
    if a > 0 {
        lemma_pow10_adds((a - 1) as nat, b);
        assert(pow10(a + b) == 10 * pow10((a - 1 + b) as nat));
        assert(10 * (pow10((a - 1) as nat) * pow10(b)) == (10 * pow10((a - 1) as nat)) * pow10(b))
            by (nonlinear_arith);
    } else {
        assert(pow10(a) * pow10(b) == pow10(b)) by (nonlinear_arith)
            requires
                pow10(a) == 1,
        ;
    }
}

/// A greater power of ten is at least ten times a smaller one.
pub proof fn lemma_pow10_increases(a: nat, b: nat)
    requires
        a < b,
    ensures
        10 * pow10(a) <= pow10(b),
    decreases b,
{
    lemma_pow10_positive(a);
    if b - 1 > a {
        lemma_pow10_increases(a, (b - 1) as nat);
    }
}

/// The first digit weighs ten to the number of digits after it.
pub proof fn lemma_digits_front(s: Seq<char>)
    requires
        s.len() > 0,
    ensures
        digits_value(s) == digit_value(s[0]) * pow10((s.len() - 1) as nat) + digits_value(
            s.drop_first(),
        ),
    decreases s.len(),
{
    let rest = s.drop_first();
    let d = digit_value(s[0]);
    if rest.len() == 0 {
        assert(s.drop_last().len() == 0);
        assert(digits_value(s.drop_last()) == 0);
        assert(s.last() == s[0]);
        assert(pow10(0) == 1);
        assert(d * 1 == d) by (nonlinear_arith);
    } else {
        let init = s.drop_last();
        lemma_digits_front(init);
        assert(init.drop_first() == rest.drop_last());
        assert(init[0] == s[0]);
        assert(rest.last() == s.last());
        let p = pow10((s.len() - 2) as nat);
        let r = digits_value(rest.drop_last());
        assert(pow10((s.len() - 1) as nat) == 10 * p);
        assert(digits_value(init) == d * p + r);
        assert(digits_value(s) == digits_value(init) * 10 + digit_value(s.last()));
        assert(digits_value(rest) == r * 10 + digit_value(rest.last()));
        assert((d * p + r) * 10 == d * (10 * p) + r * 10) by (nonlinear_arith);
    }
}

/// Digits write a number below ten to their count.
pub proof fn lemma_digits_bound(s: Seq<char>)
    requires
        all_digits(s),
    ensures
        digits_value(s) < pow10(s.len()),
    decreases s.len(),
{
    if s.len() > 0 {
        assert(is_digit(s[s.len() - 1]));
        assert forall|i: int| 0 <= i < s.drop_last().len() implies is_digit(
            #[trigger] s.drop_last()[i],
        ) by {
            assert(s.drop_last()[i] == s[i]);
        }
        lemma_digits_bound(s.drop_last());
    }
}

/// Zeros in front do not change the number.
pub proof fn lemma_leading_zeros(s: Seq<char>, z: int)
    requires
        0 <= z <= s.len(),
        forall|j: int| 0 <= j < z ==> s[j] == '0',
    ensures
        digits_value(s) == digits_value(s.skip(z)),
    decreases z,
{
    if z == 0 {
        assert(s.skip(0) == s);
    } else {
        lemma_digits_front(s);
        let rest = s.drop_first();
        assert forall|j: int| 0 <= j < z - 1 implies rest[j] == '0' by {
            assert(rest[j] == s[j + 1]);
        }
        lemma_leading_zeros(rest, z - 1);
        assert(rest.skip(z - 1) == s.skip(z));
        assert(digit_value(s[0]) * pow10((s.len() - 1) as nat) == 0) by (nonlinear_arith)
            requires
                digit_value(s[0]) == 0,
        ;
    }
}

/// Digits write zero exactly when all of them are `0`.
pub proof fn lemma_zero_digits(s: Seq<char>)
    requires
        all_digits(s),
    ensures
        digits_value(s) == 0 <==> (forall|j: int| 0 <= j < s.len() ==> s[j] == '0'),
    decreases s.len(),
{
    if s.len() > 0 {
        let init = s.drop_last();
        assert(is_digit(s[s.len() - 1]));
        assert forall|i: int| 0 <= i < init.len() implies is_digit(#[trigger] init[i]) by {
            assert(init[i] == s[i]);
        }
        lemma_zero_digits(init);
        if digits_value(s) == 0 {
            assert forall|j: int| 0 <= j < s.len() implies s[j] == '0' by {
                if j < s.len() - 1 {
                    assert(init[j] == s[j]);
                }
            }
        }
        if forall|j: int| 0 <= j < s.len() ==> s[j] == '0' {
            assert forall|j: int| 0 <= j < init.len() implies init[j] == '0' by {
                assert(init[j] == s[j]);
            }
        }
    }
}

/// A number whose first digit is not `0` is at least ten to the count of
/// the digits after it, and it is exactly that when the first digit is `1`
/// and the others are `0`.
pub proof fn lemma_significant(s: Seq<char>)
    requires
        all_digits(s),
        s.len() > 0,
        s[0] != '0',
    ensures
        pow10((s.len() - 1) as nat) <= digits_value(s) < pow10(s.len()),
        digits_value(s) == pow10((s.len() - 1) as nat) <==> (s[0] == '1' && forall|j: int|
            1 <= j < s.len() ==> s[j] == '0'),
{
    let rest = s.drop_first();
    let p = pow10((s.len() - 1) as nat);
    let d = digit_value(s[0]);
    assert(is_digit(s[0]));
    assert forall|i: int| 0 <= i < rest.len() implies is_digit(#[trigger] rest[i]) by {
        assert(rest[i] == s[i + 1]);
    }
    lemma_digits_front(s);
    lemma_digits_bound(s);
    lemma_digits_bound(rest);
    lemma_zero_digits(rest);
    lemma_pow10_positive((s.len() - 1) as nat);
    assert(d >= 1);
    assert(d * p >= p) by (nonlinear_arith)
        requires
            d >= 1,
            p >= 1,
    ;
    if d >= 2 {
        assert(d * p >= 2 * p) by (nonlinear_arith)
            requires
                d >= 2,
                p >= 1,
        ;
    } else {
        assert(d * p == p) by (nonlinear_arith)
            requires
                d == 1,
        ;
    }
    if digits_value(rest) == 0 {
        assert forall|j: int| 1 <= j < s.len() implies s[j] == '0' by {
            assert(rest[j - 1] == s[j]);
        }
    }
    if forall|j: int| 1 <= j < s.len() ==> s[j] == '0' {
        assert forall|j: int| 0 <= j < rest.len() implies rest[j] == '0' by {
            assert(rest[j] == s[j + 1]);
        }
    }
}

/// Rounding a quotient to the nearest integer, halves upward, takes only
/// the quotient's integer part.
pub proof fn lemma_round_half(x: int, den: int)
    requires
        0 <= x,
        0 < den,
    ensures
        (x + den) / (2 * den) == (x / den + 1) / 2,
{
    lemma_div_denominator(x + den, den, 2);
    lemma_div_plus_one(x, den);
    assert(den * 2 == 2 * den);
    assert(den + x == x + den);
}

/// One step of multiplying a decimal fraction by 510 from its last digit
/// to its first: the carry out of a digit is what the digit and the carry
/// into it give, divided by ten.
pub proof fn lemma_carry_step(d: int, v: int, p: int)
    requires
        0 <= d,
        0 <= v,
        0 < p,
    ensures
        (510 * (d * p + v)) / (10 * p) == (510 * d + (510 * v) / p) / 10,
{
    let x = 510 * (d * p + v);
    assert(x >= 0) by (nonlinear_arith)
        requires
            x == 510 * (d * p + v),
            0 <= d,
            0 <= v,
            0 < p,
    ;
    lemma_div_denominator(x, p, 10);
    assert(p * 10 == 10 * p);
    lemma_hoist_over_denominator(510 * v, 510 * d, p as nat);
    assert(510 * v + (510 * d) * p == x) by (nonlinear_arith)
        requires
            x == 510 * (d * p + v),
    ;
}

/// `digit_run` is the one position that has no digit (or the end) with
/// digits only before it.
pub proof fn lemma_digit_run(s: Seq<char>, k: int)
    requires
        0 <= k <= s.len(),
        forall|j: int| 0 <= j < k ==> is_digit(s[j]),
        k < s.len() ==> !is_digit(s[k]),
    ensures
        digit_run(s) == k,
    decreases s.len(),
{
    if k > 0 {
        let t = s.drop_first();
        assert forall|j: int| 0 <= j < k - 1 implies is_digit(t[j]) by {
            assert(t[j] == s[j + 1]);
        }
        assert(k < s.len() ==> t[k - 1] == s[k]);
        lemma_digit_run(t, k - 1);
    }
}

/// The bound past which an exponent is only known to be large.
pub const EXPONENT_CAP: i128 = 1_000_000_000_000_000_000_000_000;

/// `e`, held to the range from `-EXPONENT_CAP` to `EXPONENT_CAP`.
pub open spec fn clamp_exponent(e: int) -> int {
    if e > EXPONENT_CAP {
        EXPONENT_CAP as int
    } else if e < -EXPONENT_CAP {
        -EXPONENT_CAP
    } else {
        e
    }
}

/// The end of the run of digits that starts at `from`.
fn scan_digits(t: &[char], from: usize) -> (to: usize)
    requires
        from <= t@.len(),
    ensures
        from <= to <= t@.len(),
        to - from == digit_run(t@.skip(from as int)),
        forall|j: int| from <= j < to ==> is_digit(t@[j]),
{
    let n = t.len();
    let mut to: usize = from;
    while to < n && is_digit_char(t[to])
        invariant
            n == t@.len(),
            from <= to <= n,
            forall|j: int| from <= j < to ==> is_digit(t@[j]),
        decreases n - to,
    {
        to += 1;
    }
    proof {
        let s = t@.skip(from as int);
        assert forall|j: int| 0 <= j < to - from implies is_digit(s[j]) by {
            assert(s[j] == t@[from + j]);
        }
        lemma_digit_run(s, to - from);
    }
    to
}

/// Reads the exponent part of a number, held to the exponent cap.
fn parse_exponent(e: &[char]) -> (r: Option<i128>)
    ensures
        r == match exponent_value(e@) {
            Some(v) => Some(clamp_exponent(v) as i128),
            None => None,
        },
{
    let n = e.len();
    if n == 0 {
        return Some(0);
    }
    if e[0] != 'e' && e[0] != 'E' {
        return None;
    }
    let negative = n > 1 && e[1] == '-';
    let start: usize = if n > 1 && (e[1] == '+' || e[1] == '-') {
        2
    } else {
        1
    };
    if start == n {
        return None;
    }
    let ghost signed = e@.drop_first();
    let ghost body = strip_sign(signed);
    assert(body == e@.subrange(start as int, n as int));
    let mut acc: i128 = 0;
    let mut i: usize = start;
    while i < n
        invariant
            start <= i <= n,
            n == e@.len(),
            start >= 1,
            e@.len() > 0,
            e@[0] == 'e' || e@[0] == 'E',
            signed == e@.drop_first(),
            body == strip_sign(signed),
            body == e@.subrange(start as int, n as int),
            all_digits(body.take(i - start)),
            0 <= acc <= EXPONENT_CAP,
            acc == clamp_exponent(digits_value(body.take(i - start)) as int),
        decreases n - i,
    {
        let c = e[i];
        let ghost k = i - start;
        assert(body[k] == c);
        assert(body.take(k + 1).drop_last() == body.take(k));
        if !is_digit_char(c) {
            return None;
        }
        proof {
            assert forall|j: int| 0 <= j < k + 1 implies is_digit(#[trigger] body.take(k + 1)[j]) by {
                if j < k {
                    assert(body.take(k)[j] == body[j]);
                }
            }
        }
        let next: i128 = acc * 10 + (c as u8 - '0' as u8) as i128;
        acc = if next > EXPONENT_CAP {
            EXPONENT_CAP
        } else {
            next
        };
        i += 1;
    }
    assert(body.take(n - start) == body);
    if negative {
        Some(-acc)
    } else {
        Some(acc)
    }
}

/// The alpha byte of the number that `ds` writes with `frac_len` of its
/// digits after the point and the exponent `e`, of which `exp` keeps what
/// fits under the exponent cap.
fn unit_alpha(
    ds: &Vec<char>,
    negative: bool,
    frac_len: usize,
    exp: i128,
    Ghost(e): Ghost<int>,
) -> (a: Option<u8>)
    requires
        ds@.len() > 0,
        all_digits(ds@),
        frac_len <= ds@.len(),
        exp == clamp_exponent(e),
    ensures
        a == fraction_alpha(
            Decimal { negative, digits: ds@, frac_len: frac_len as nat, exponent: e },
        ),
{
    let n = ds.len();
    let mut z: usize = 0;
    while z < n && ds[z] == '0'
        invariant
            n == ds@.len(),
            z <= n,
            forall|j: int| 0 <= j < z ==> ds@[j] == '0',
        decreases n - z,
    {
        z += 1;
    }
    proof {
        lemma_zero_digits(ds@);
    }
    if z == n {
        return Some(0);
    }
    let ghost sig = ds@.skip(z as int);
    let ghost m = n - z;
    let ghost mant = digits_value(ds@) as int;
    proof {
        lemma_leading_zeros(ds@, z as int);
        assert forall|j: int| 0 <= j < sig.len() implies is_digit(#[trigger] sig[j]) by {
            assert(sig[j] == ds@[z + j]);
        }
        assert(sig[0] == ds@[z as int]);
        lemma_significant(sig);
        lemma_pow10_positive((m - 1) as nat);
    }
    if negative {
        return None;
    }
    let p: i128 = (n - frac_len) as i128 - z as i128 + exp;
    let ghost p_true = (n - frac_len) - z + e;
    let ghost scale = e - frac_len;
    assert(scale == p_true - m);
    if p >= 2 {
        proof {
            assert(p_true >= 2);
            if scale >= 1 {
                lemma_pow10_increases(0, scale as nat);
                assert(mant * pow10(scale as nat) >= 10) by (nonlinear_arith)
                    requires
                        mant >= 1,
                        pow10(scale as nat) >= 10,
                ;
            } else if scale == 0 {
                lemma_pow10_increases(0, (m - 1) as nat);
                assert(pow10(0) == 1);
                assert(mant * 1 == mant);
            } else {
                lemma_pow10_increases((-scale) as nat, (m - 1) as nat);
            }
        }
        return None;
    }
    if p == 1 {
        assert(p_true == 1);
        let mut all_zero = true;
        let mut j: usize = z + 1;
        while j < n
            invariant
                n == ds@.len(),
                z < j <= n,
                all_zero == (forall|k: int| z < k < j ==> ds@[k] == '0'),
            decreases n - j,
        {
            if ds[j] != '0' {
                all_zero = false;
            }
            j += 1;
        }
        let one = ds[z] == '1' && all_zero;
        proof {
            let first = ds@[z as int] == '1';
            if all_zero {
                assert forall|k: int| 1 <= k < sig.len() implies sig[k] == '0' by {
                    assert(sig[k] == ds@[z + k]);
                }
            }
            if forall|k: int| 1 <= k < sig.len() ==> sig[k] == '0' {
                assert forall|k: int| z < k < n implies ds@[k] == '0' by {
                    assert(sig[k - z] == ds@[k]);
                }
            }
            assert(one == (mant == pow10((m - 1) as nat)));
            if m == 1 {
                assert(pow10(0) == 1);
                assert(mant * 1 == mant);
            } else {
                let den = pow10((m - 1) as nat) as int;
                if one {
                    assert((510 * den + den) / (2 * den) == 255) by (nonlinear_arith)
                        requires
                            den >= 1,
                    ;
                }
            }
        }
        return if one {
            Some(255)
        } else {
            None
        };
    }
    let mut c: u32 = 0;
    let mut j: usize = n;
    proof {
        assert(ds@.skip(n as int).len() == 0);
        assert(pow10(0) == 1);
    }
    while j > z
        invariant
            n == ds@.len(),
            z <= j <= n,
            all_digits(ds@),
            c <= 509,
            c == (510 * (digits_value(ds@.skip(j as int)) as int)) / (pow10((n - j) as nat) as int),
        decreases j,
    {
        j -= 1;
        let d: u32 = (ds[j] as u8 - '0' as u8) as u32;
        proof {
            let s1 = ds@.skip(j as int);
            let s0 = ds@.skip(j + 1);
            assert(is_digit(ds@[j as int]));
            assert(s1.drop_first() == s0);
            assert(s1[0] == ds@[j as int]);
            lemma_digits_front(s1);
            let pw = pow10((n - j - 1) as nat) as int;
            lemma_pow10_positive((n - j - 1) as nat);
            assert(pow10((n - j) as nat) == 10 * pw);
            lemma_carry_step(d as int, digits_value(s0) as int, pw);
        }
        c = (510 * d + c) / 10;
    }
    let ghost k = -p_true;
    let low: u32 = if p == 0 {
        c
    } else if p == -1 {
        c / 10
    } else if p == -2 {
        c / 100
    } else {
        0
    };
    proof {
        let x = 510 * mant;
        let pm = pow10(m as nat) as int;
        let pk = pow10(k as nat) as int;
        let den = pow10((-scale) as nat) as int;
        lemma_pow10_positive(m as nat);
        lemma_pow10_positive(k as nat);
        lemma_pow10_adds(m as nat, k as nat);
        assert(den == pm * pk);
        assert(c == x / pm);
        lemma_div_denominator(x, pm, pk);
        assert(x / den == c as int / pk);
        if k == 0 {
            assert(pk == 1);
        } else if k == 1 {
            assert(pow10(1) == 10 * pow10(0));
        } else if k == 2 {
            assert(pow10(2) == 10 * pow10(1));
            assert(pow10(1) == 10 * pow10(0));
        } else {
            lemma_pow10_increases(2, k as nat);
            assert(pow10(2) == 10 * pow10(1));
            assert(pow10(1) == 10 * pow10(0));
            lemma_basic_div(c as int, pk);
        }
        assert(low == x / den);
        assert(mant <= den) by (nonlinear_arith)
            requires
                mant < pm,
                pm >= 1,
                pk >= 1,
                den == pm * pk,
        ;
        lemma_round_half(x, den);
    }
    Some(((low + 1) / 2) as u8)
}

/// Reads the mantissa that `m` starts with: its digits, how many of them
/// stand after the point, and where the mantissa ends.
fn read_mantissa(m: &[char]) -> (r: (Vec<char>, usize, usize))
    ensures
        r.0@ == mantissa_digits(m@),
        r.0@.len() == int_len(m@) + frac_len(m@),
        all_digits(r.0@),
        r.1 == frac_len(m@),
        r.2 == mantissa_len(m@),
        r.2 <= m@.len(),
{
    let len = m.len();
    assert(m@.skip(0) == m@);
    let i = scan_digits(m, 0);
    let dotted = i < len && m[i] == '.';
    let fstart: usize = if dotted {
        i + 1
    } else {
        i
    };
    let fend: usize = if dotted {
        scan_digits(m, i + 1)
    } else {
        i
    };
    let mut ds: Vec<char> = Vec::new();
    let mut j: usize = 0;
    while j < i
        invariant
            j <= i <= m@.len(),
            ds@ == m@.take(j as int),
        decreases i - j,
    {
        ds.push(m[j]);
        j += 1;
    }
    let mut j: usize = fstart;
    while j < fend
        invariant
            fstart <= j <= fend <= m@.len(),
            ds@ == m@.take(i as int) + m@.subrange(fstart as int, j as int),
        decreases fend - j,
    {
        ds.push(m[j]);
        j += 1;
    }
    proof {
        if !dotted {
            assert(ds@ == m@.take(i as int));
        }
        assert forall|k: int| 0 <= k < ds@.len() implies is_digit(#[trigger] ds@[k]) by {
            if k < i {
                assert(ds@[k] == m@[k]);
            } else {
                assert(ds@[k] == m@[fstart + (k - i)]);
            }
        }
    }
    (ds, fend - fstart, fend)
}

/// Reads an alpha written as a decimal number from 0 to 1.
pub fn parse_fraction(t: &[char]) -> (a: Option<u8>)
    ensures
        a == fraction_value(t@),
{
    let n = t.len();
    let negative = n > 0 && t[0] == '-';
    let start: usize = if n > 0 && (t[0] == '+' || t[0] == '-') {
        1
    } else {
        0
    };
    let m = slice_subrange(t, start, n);
    assert(m@ == strip_sign(t@));
    let (ds, frac, end) = read_mantissa(m);
    if ds.len() == 0 {
        return None;
    }
    let tail = slice_subrange(m, end, m.len());
    assert(tail@ == m@.skip(end as int));
    match parse_exponent(tail) {
        Some(exp) => unit_alpha(&ds, negative, frac, exp, Ghost(exponent_value(tail@).unwrap())),
        None => None,
    }
}

/// Reads an alpha: a decimal number from 0 to 1, or else an integer from 0
/// to 255.
pub fn parse_alpha(t: &[char]) -> (a: Option<u8>)
    ensures
        a == alpha_value(t@),
{
    match parse_fraction(t) {
        Some(a) => Some(a),
        None => parse_channel(t),
    }
}

} // verus!
