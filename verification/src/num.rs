//! Decimal arithmetic on tokens: the value of a digit string, conversion
//! of a float literal to an integer sample count, timestamp parsing, and
//! printing of integers.
//!
//! A `_count` sample is written as a float; its stored `u64` is the
//! literal's value truncated toward zero, saturating at the `u64` range,
//! with `nan` and negative values giving zero and `inf` giving the
//! maximum. The truncation is computed exactly on the decimal digits.

use vstd::prelude::*;
use crate::float_text::{
    spec_is_digit,
    spec_is_sign,
    digits_end,
    lemma_digits_end,
    spec_keyword_from,
    spec_number_from,
    spec_exp_from,
    spec_lower,
    keyword_from,
    spec_is_float_literal,
    inf_keyword,
    infinity_keyword,
    nan_keyword,
    is_digit_byte,
    is_sign_byte,
    scan_digits,
};

verus! {

/// The numeric value of one digit byte; non-digits count as zero so the
/// function stays total.
pub open spec fn digit_of(b: u8) -> nat {
    if spec_is_digit(b) {
        (b - 0x30) as nat
    } else {
        0
    }
}

/// The value of a digit string, most significant digit first.
pub open spec fn digits_val(t: Seq<u8>) -> nat
    decreases t.len(),
{
    if t.len() == 0 {
        0
    } else {
        10 * digits_val(t.drop_last()) + digit_of(t.last())
    }
}

pub open spec fn pow10(k: nat) -> nat
    decreases k,
{
    if k == 0 {
        1
    } else {
        10 * pow10((k - 1) as nat)
    }
}

pub proof fn lemma_pow10_pos(k: nat)
    ensures
        pow10(k) >= 1,
    decreases k,
{
    if k > 0 {
        lemma_pow10_pos((k - 1) as nat);
    }
}

/// Splitting a digit string at `k` splits its value.
pub proof fn lemma_digits_split(t: Seq<u8>, k: int)
    requires
        0 <= k <= t.len(),
    ensures
        digits_val(t) == digits_val(t.subrange(0, k)) * pow10((t.len() - k) as nat) + digits_val(
            t.subrange(k, t.len() as int),
        ),
    decreases t.len() - k,
{
    if k == t.len() {
        assert(t.subrange(0, k) =~= t);
        assert(t.subrange(k, t.len() as int) =~= Seq::<u8>::empty());
        assert(pow10((t.len() - k) as nat) == 1);
        assert(digits_val(Seq::<u8>::empty()) == 0);
        assert(digits_val(t) == digits_val(t) * 1 + 0);
    } else {
        let t1 = t.drop_last();
        lemma_digits_split(t1, k);
        assert(t1.subrange(0, k) =~= t.subrange(0, k));
        assert(t.subrange(k, t.len() as int).drop_last() =~= t1.subrange(k, t1.len() as int));
        let p = digits_val(t.subrange(0, k));
        let m = (t1.len() - k) as nat;
        assert(digits_val(t1) == p * pow10(m) + digits_val(t1.subrange(k, t1.len() as int)));
        let r1 = digits_val(t1.subrange(k, t1.len() as int));
        let d = digit_of(t.last());
        assert(digits_val(t.subrange(k, t.len() as int)) == 10 * r1 + d);
        assert(digits_val(t) == 10 * digits_val(t1) + d);
        assert(10 * (p * pow10(m) + r1) + d == p * (10 * pow10(m)) + (10 * r1 + d))
            by (nonlinear_arith);
        assert(pow10((t.len() - k) as nat) == 10 * pow10(m));
        assert(digits_val(t) == 10 * digits_val(t1) + d);
        assert(digits_val(t) == p * pow10((t.len() - k) as nat) + digits_val(
            t.subrange(k, t.len() as int),
        ));
    }
}

/// A digit string's value is below ten to its length.
pub proof fn lemma_digits_val_bound(t: Seq<u8>)
    ensures
        digits_val(t) < pow10(t.len() as nat),
    decreases t.len(),
{
    if t.len() == 0 {
    } else {
        lemma_digits_val_bound(t.drop_last());
        assert(digit_of(t.last()) <= 9);
        assert(10 * digits_val(t.drop_last()) + 9 < 10 * pow10(t.drop_last().len() as nat))
            by (nonlinear_arith)
            requires
                digits_val(t.drop_last()) < pow10(t.drop_last().len() as nat),
        ;
    }
}

/// Dropping leading zeros keeps the value.
pub proof fn lemma_digits_leading_zeros(t: Seq<u8>, k: int)
    requires
        0 <= k <= t.len(),
        forall|i: int| 0 <= i < k ==> t[i] == 0x30,
    ensures
        digits_val(t) == digits_val(t.subrange(k, t.len() as int)),
{
    lemma_digits_split(t, k);
    lemma_zero_digits_val(t.subrange(0, k));
    assert(digits_val(t.subrange(0, k)) * pow10((t.len() - k) as nat) == 0);
}

proof fn lemma_zero_digits_val(t: Seq<u8>)
    requires
        forall|i: int| 0 <= i < t.len() ==> t[i] == 0x30,
    ensures
        digits_val(t) == 0,
    decreases t.len(),
{
    if t.len() > 0 {
        lemma_zero_digits_val(t.drop_last());
    }
}

/// Truncated division by a power of ten takes a digit prefix.
pub proof fn lemma_digits_div(t: Seq<u8>, m: int)
    requires
        0 <= m <= t.len(),
    ensures
        digits_val(t) / pow10(m as nat) == digits_val(t.subrange(0, t.len() - m)),
{
    let k = t.len() - m;
    lemma_digits_split(t, k);
    let p = digits_val(t.subrange(0, k));
    let r = digits_val(t.subrange(k, t.len() as int));
    lemma_digits_val_bound(t.subrange(k, t.len() as int));
    lemma_pow10_pos(m as nat);
    assert(r < pow10(m as nat));
    assert((p * pow10(m as nat) + r) / pow10(m as nat) == p) by (nonlinear_arith)
        requires
            r < pow10(m as nat),
            pow10(m as nat) >= 1,
            p >= 0,
    ;
}

/// Compute the value of `t[i..j]`, saturating at `u64::MAX`.
pub fn digits_val_saturating(t: &[u8], i: usize, j: usize) -> (r: u64)
    requires
        0 <= i <= j <= t@.len(),
    ensures
        digits_val(t@.subrange(i as int, j as int)) > u64::MAX ==> r == u64::MAX,
        digits_val(t@.subrange(i as int, j as int)) <= u64::MAX ==> r == digits_val(
            t@.subrange(i as int, j as int),
        ),
{
    let mut acc: u64 = 0;
    let mut sat: bool = false;
    let mut k: usize = i;
    while k < j
        invariant
            i <= k <= j <= t@.len(),
            !sat ==> acc == digits_val(t@.subrange(i as int, k as int)),
            sat ==> digits_val(t@.subrange(i as int, k as int)) > u64::MAX,
            sat ==> acc == u64::MAX,
        decreases j - k,
    {
        let ghost pre = t@.subrange(i as int, k as int);
        let ghost cur = t@.subrange(i as int, k as int + 1);
        proof {
            assert(cur.drop_last() =~= pre);
            assert(digits_val(cur) == 10 * digits_val(pre) + digit_of(cur.last()));
        }
        let d: u8 = if is_digit_byte(t[k]) {
            t[k] - 0x30
        } else {
            0
        };
        if !sat {
            if acc > (u64::MAX - (d as u64)) / 10 {
                proof {
                    assert(10 * (acc as nat) + (d as nat) > u64::MAX) by (nonlinear_arith)
                        requires
                            acc as nat > ((u64::MAX - d) as nat) / 10,
                            0 <= d <= 9,
                    ;
                }
                sat = true;
                acc = u64::MAX;
            } else {
                proof {
                    assert(10 * (acc as nat) + (d as nat) <= u64::MAX) by (nonlinear_arith)
                        requires
                            acc as nat <= ((u64::MAX - d) as nat) / 10,
                            0 <= d <= 9,
                    ;
                }
                acc = acc * 10 + (d as u64);
            }
        } else {
            proof {
                assert(digits_val(cur) >= digits_val(pre)) by (nonlinear_arith)
                    requires
                        digits_val(cur) == 10 * digits_val(pre) + digit_of(cur.last()),
                ;
            }
        }
        k = k + 1;
    }
    proof {
        if sat {
        }
    }
    if sat {
        u64::MAX
    } else {
        acc
    }
}

pub proof fn lemma_pow10_mono(a: nat, b: nat)
    requires
        a <= b,
    ensures
        pow10(a) <= pow10(b),
    decreases b,
{
    if a < b {
        lemma_pow10_mono(a, (b - 1) as nat);
        lemma_pow10_pos((b - 1) as nat);
    }
}

/// Ten to the twentieth power, which is beyond the `u64` range.
pub proof fn lemma_pow10_20()
    ensures
        pow10(20) == 100000000000000000000,
{
    reveal_with_fuel(pow10, 21);
}

/// Ten to the twenty-first, which is beyond the `usize` range.
pub proof fn lemma_pow10_21()
    ensures
        pow10(21) == 1000000000000000000000,
{
    reveal_with_fuel(pow10, 22);
}

/// Dividing by a larger number truncates to zero.
pub proof fn lemma_div_small(a: nat, b: nat)
    requires
        a < b,
    ensures
        a / b == 0,
{
    assert(a / b == 0) by (nonlinear_arith)
        requires
            0 <= a < b,
    ;
}

/// A digit string whose first byte is a nonzero digit has a value of at
/// least ten to one less than its length.
pub proof fn lemma_digits_first_nonzero(t: Seq<u8>)
    requires
        t.len() > 0,
        spec_is_digit(t[0]),
        t[0] != 0x30,
    ensures
        digits_val(t) >= pow10((t.len() - 1) as nat),
{
    lemma_digits_split(t, 1);
    assert(t.subrange(0, 1).last() == t[0]);
    assert(t.subrange(0, 1).drop_last() =~= Seq::<u8>::empty());
    assert(digits_val(Seq::<u8>::empty()) == 0);
    assert(digits_val(t.subrange(0, 1)) == digit_of(t[0]));
    assert(digit_of(t[0]) >= 1);
    let m = (t.len() - 1) as nat;
    assert(digits_val(t.subrange(0, 1)) * pow10(m) >= pow10(m)) by (nonlinear_arith)
        requires
            digits_val(t.subrange(0, 1)) >= 1,
            pow10(m) >= 0,
    ;
}

/// A prefix of a digit string is worth no more than the whole.
pub proof fn lemma_digits_prefix_le(t: Seq<u8>, k: int)
    requires
        0 <= k <= t.len(),
    ensures
        digits_val(t.subrange(0, k)) <= digits_val(t),
{
    lemma_digits_split(t, k);
    let p = digits_val(t.subrange(0, k));
    let m = (t.len() - k) as nat;
    lemma_pow10_pos(m);
    assert(p * pow10(m) >= p) by (nonlinear_arith)
        requires
            pow10(m) >= 1,
            p >= 0,
    ;
}

/// The decimal digits of a `u64`, most significant first.
pub open spec fn spec_u64_dec(n: u64) -> Seq<u8>
    decreases n,
{
    if n < 10 {
        seq![(0x30 + n) as u8]
    } else {
        spec_u64_dec(n / 10).push((0x30 + n % 10) as u8)
    }
}

pub proof fn lemma_u64_dec(n: u64)
    ensures
        spec_u64_dec(n).len() >= 1,
        forall|i: int| 0 <= i < spec_u64_dec(n).len() ==> spec_is_digit(spec_u64_dec(n)[i]),
        digits_val(spec_u64_dec(n)) == n,
    decreases n,
{
    if n < 10 {
        assert(digits_val(spec_u64_dec(n)) == 10 * digits_val(seq![(0x30 + n) as u8].drop_last())
            + digit_of((0x30 + n) as u8));
        assert(seq![(0x30 + n) as u8].drop_last() =~= Seq::<u8>::empty());
    } else {
        lemma_u64_dec(n / 10);
        let d = spec_u64_dec(n);
        assert(d.drop_last() =~= spec_u64_dec(n / 10));
        assert(digits_val(d) == 10 * (n / 10) + n % 10);
    }
}

/// Print a `u64` in decimal.
pub fn u64_to_dec(n: u64) -> (r: Vec<u8>)
    ensures
        r@ == spec_u64_dec(n),
    decreases n,
{
    if n < 10 {
        let mut v: Vec<u8> = Vec::new();
        v.push(0x30 + (n as u8));
        proof {
            assert(v@ =~= spec_u64_dec(n));
        }
        v
    } else {
        let mut v: Vec<u8> = u64_to_dec(n / 10);
        v.push(0x30 + ((n % 10) as u8));
        proof {
            assert(v@ =~= spec_u64_dec(n));
        }
        v
    }
}

/// Is `t` an optionally signed run of decimal digits?
pub open spec fn spec_is_int_literal(t: Seq<u8>) -> bool {
    let s: int = if t.len() > 0 && spec_is_sign(t[0]) {
        1
    } else {
        0
    };
    t.len() > s && digits_end(t, s) == t.len()
}

/// The signed value such a literal denotes.
pub open spec fn spec_int_value(t: Seq<u8>) -> int {
    let s: int = if t.len() > 0 && spec_is_sign(t[0]) {
        1
    } else {
        0
    };
    let v = digits_val(t.subrange(s, t.len() as int)) as int;
    if t.len() > 0 && t[0] == 0x2d {
        -v
    } else {
        v
    }
}

/// What a timestamp token parses to: the value, if the token is a signed
/// digit run whose value fits an `i64`.
pub open spec fn spec_parse_i64(t: Seq<u8>) -> Option<i64> {
    if spec_is_int_literal(t) && i64::MIN <= spec_int_value(t) && spec_int_value(t) <= i64::MAX {
        Some(spec_int_value(t) as i64)
    } else {
        None
    }
}

/// Parse a timestamp token as a signed 64-bit integer.
pub fn parse_i64(t: &[u8]) -> (r: Option<i64>)
    ensures
        r == spec_parse_i64(t@),
{
    let n: usize = t.len();
    let s: usize = if n > 0 && is_sign_byte(t[0]) {
        1
    } else {
        0
    };
    let neg: bool = n > 0 && t[0] == 0x2d;
    if n == s {
        return None;
    }
    let e: usize = scan_digits(t, s);
    if e != n {
        proof {
            assert(!spec_is_int_literal(t@));
        }
        return None;
    }
    proof {
        lemma_digits_end(t@, s as int);
    }
    let ghost digits = t@.subrange(s as int, n as int);
    let limit: u64 = if neg {
        9223372036854775808u64
    } else {
        9223372036854775807u64
    };
    let mut acc: u64 = 0;
    let mut k: usize = s;
    while k < n
        invariant
            s <= k <= n,
            n == t@.len(),
            digits == t@.subrange(s as int, n as int),
            acc == digits_val(t@.subrange(s as int, k as int)),
            acc <= limit,
            neg == (t@.len() > 0 && t@[0] == 0x2d),
            s == (if t@.len() > 0 && spec_is_sign(t@[0]) { 1int } else { 0int }),
            limit == (if neg { 9223372036854775808u64 } else { 9223372036854775807u64 }),
            forall|i: int| s <= i < n ==> spec_is_digit(t@[i]),
        decreases n - k,
    {
        let ghost pre = t@.subrange(s as int, k as int);
        let ghost cur = t@.subrange(s as int, k as int + 1);
        proof {
            assert(cur.drop_last() =~= pre);
            assert(digits_val(cur) == 10 * digits_val(pre) + digit_of(cur.last()));
        }
        let d: u8 = t[k] - 0x30;
        if acc > (limit - (d as u64)) / 10 {
            proof {
                assert(10 * (acc as nat) + (d as nat) > limit) by (nonlinear_arith)
                    requires
                        acc as nat > ((limit - d) as nat) / 10,
                        0 <= d <= 9,
                        limit >= d,
                ;
                assert(digits_val(cur) > limit);
                let full = t@.subrange(s as int, n as int);
                assert(full.subrange(0, (k + 1 - s) as int) =~= cur);
                lemma_digits_prefix_le(full, (k + 1 - s) as int);
                assert(digits_val(full) > limit);
            }
            return None;
        }
        proof {
            assert(10 * (acc as nat) + (d as nat) <= limit) by (nonlinear_arith)
                requires
                    acc as nat <= ((limit - d) as nat) / 10,
                    0 <= d <= 9,
                    limit >= d,
            ;
        }
        acc = acc * 10 + (d as u64);
        k = k + 1;
    }
    proof {
        assert(t@.subrange(s as int, k as int) =~= digits);
    }
    if neg {
        if acc == 9223372036854775808u64 {
            Some(i64::MIN)
        } else {
            Some(-(acc as i64))
        }
    } else {
        Some(acc as i64)
    }
}

/// Print an `i64` in decimal, with a leading minus for negatives.
pub fn i64_to_dec(v: i64) -> (r: Vec<u8>)
    ensures
        r@ == spec_i64_dec(v),
{
    if v >= 0 {
        let r = u64_to_dec(v as u64);
        proof {
            assert(r@ =~= spec_i64_dec(v));
        }
        r
    } else {
        let mag: u64 = (-(v as i128)) as u64;
        let digits = u64_to_dec(mag);
        let mut r: Vec<u8> = Vec::new();
        r.push(0x2d);
        let mut i: usize = 0;
        let n: usize = digits.len();
        while i < n
            invariant
                0 <= i <= n,
                n == digits@.len(),
                r@ == seq![0x2du8] + digits@.subrange(0, i as int),
            decreases n - i,
        {
            r.push(digits[i]);
            proof {
                assert(seq![0x2du8] + digits@.subrange(0, i + 1) =~= (seq![0x2du8]
                    + digits@.subrange(0, i as int)).push(digits@[i as int]));
            }
            i = i + 1;
        }
        proof {
            assert(digits@.subrange(0, n as int) =~= digits@);
            assert(r@ =~= spec_i64_dec(v));
        }
        r
    }
}

/// The decimal form of an `i64`.
pub open spec fn spec_i64_dec(v: i64) -> Seq<u8> {
    if v >= 0 {
        spec_u64_dec(v as u64)
    } else {
        seq![0x2du8] + spec_u64_dec((-(v as int)) as u64)
    }
}

/// Printing and parsing an `i64` round-trips.
pub proof fn lemma_parse_i64_of_dec(v: i64)
    ensures
        spec_parse_i64(spec_i64_dec(v)) == Some(v),
{
    if v >= 0 {
        let d = spec_u64_dec(v as u64);
        lemma_u64_dec(v as u64);
        assert(spec_is_digit(d[0]));
        assert(!spec_is_sign(d[0]));
        lemma_all_digits_end(d, 0);
        assert(d.subrange(0, d.len() as int) =~= d);
        assert(spec_is_int_literal(d));
        assert(spec_int_value(d) == v);
    } else {
        let mag = (-(v as int)) as u64;
        let d = spec_u64_dec(mag);
        let f = seq![0x2du8] + d;
        lemma_u64_dec(mag);
        assert(f[0] == 0x2d && spec_is_sign(f[0]));
        assert(forall|i: int| 1 <= i < f.len() ==> spec_is_digit(f[i]));
        lemma_all_digits_end(f, 1);
        assert(f.subrange(1, f.len() as int) =~= d);
        assert(spec_is_int_literal(f));
        assert(spec_int_value(f) == -(digits_val(d) as int));
        assert(digits_val(d) == mag);
    }
}

/// The sign and digits of the exponent part beginning at `b` (the `e`).
pub open spec fn spec_exp_neg(t: Seq<u8>, b: int) -> bool {
    b + 1 < t.len() && t[b + 1] == 0x2d
}

pub open spec fn spec_exp_digits(t: Seq<u8>, b: int) -> Seq<u8> {
    if 0 <= b < t.len() {
        let j = if b + 1 < t.len() && spec_is_sign(t[b + 1]) {
            b + 2
        } else {
            b + 1
        };
        t.subrange(j, t.len() as int)
    } else {
        Seq::empty()
    }
}

/// The decimal parts of a number literal starting at `s`: the mantissa
/// digits (integer and fraction run together), the fraction length, and
/// the exponent's magnitude and sign.
#[verifier::ext_equal]
pub struct NumParts {
    pub md: Seq<u8>,
    pub fl: nat,
    pub e: nat,
    pub eneg: bool,
}

pub open spec fn spec_num_parts(t: Seq<u8>, s: int) -> NumParts {
    let a = digits_end(t, s);
    let dot = a < t.len() && t[a] == 0x2e;
    let fb = if dot {
        a + 1
    } else {
        a
    };
    let b = if dot {
        digits_end(t, a + 1)
    } else {
        a
    };
    NumParts {
        md: t.subrange(s, a) + t.subrange(fb, b),
        fl: (b - fb) as nat,
        e: digits_val(spec_exp_digits(t, b)),
        eneg: spec_exp_neg(t, b),
    }
}

/// Mantissa value `d` shifted by exponent `e` (negated when `eneg`) less
/// the fraction length `fl`, truncated toward zero, saturating in `u64`.
pub open spec fn spec_shift_trunc(d: nat, fl: nat, e: nat, eneg: bool) -> u64 {
    let v = if eneg || e <= fl {
        let m = if eneg {
            e + fl
        } else {
            (fl - e) as nat
        };
        d / pow10(m)
    } else {
        d * pow10((e - fl) as nat)
    };
    if v > u64::MAX {
        u64::MAX
    } else {
        v as u64
    }
}

/// A number literal's value, truncated toward zero and saturating at the
/// `u64` range: the mantissa digits shifted by the exponent less the
/// fraction length.
pub open spec fn spec_trunc_num(t: Seq<u8>, s: int) -> u64 {
    let p = spec_num_parts(t, s);
    spec_shift_trunc(digits_val(p.md), p.fl, p.e, p.eneg)
}

/// Where the mantissa of a number literal starting at `s` ends: after the
/// integer digits and, if a dot follows, the fraction digits.
pub open spec fn spec_mant_end(t: Seq<u8>, s: int) -> int {
    let a = digits_end(t, s);
    if a < t.len() && t[a] == 0x2e {
        digits_end(t, a + 1)
    } else {
        a
    }
}

/// Collect the mantissa digits of a number literal: the digit runs on
/// both sides of the dot, run together. Returns them with the position
/// after the mantissa and the fraction length.
fn collect_mantissa(t: &[u8], s: usize) -> (r: (Vec<u8>, usize, usize))
    requires
        s <= t@.len(),
    ensures
        r.0@ == spec_num_parts(t@, s as int).md,
        r.1 == spec_mant_end(t@, s as int),
        r.2 == spec_num_parts(t@, s as int).fl,
        s <= r.1 <= t@.len(),
{
    let n: usize = t.len();
    let a: usize = scan_digits(t, s);
    let dot: bool = a < n && t[a] == 0x2e;
    let fb: usize = if dot {
        a + 1
    } else {
        a
    };
    let b: usize = if dot {
        scan_digits(t, fb)
    } else {
        a
    };
    let mut md: Vec<u8> = Vec::new();
    let mut i: usize = s;
    while i < a
        invariant
            s <= i <= a <= n,
            n == t@.len(),
            md@ == t@.subrange(s as int, i as int),
        decreases a - i,
    {
        md.push(t[i]);
        proof {
            assert(t@.subrange(s as int, i + 1) =~= t@.subrange(s as int, i as int).push(
                t@[i as int],
            ));
        }
        i = i + 1;
    }
    let mut i2: usize = fb;
    while i2 < b
        invariant
            fb <= i2 <= b <= n,
            s <= a <= fb,
            n == t@.len(),
            md@ == t@.subrange(s as int, a as int) + t@.subrange(fb as int, i2 as int),
        decreases b - i2,
    {
        md.push(t[i2]);
        proof {
            assert(t@.subrange(s as int, a as int) + t@.subrange(fb as int, i2 + 1) =~= (t@.subrange(
                s as int,
                a as int,
            ) + t@.subrange(fb as int, i2 as int)).push(t@[i2 as int]));
        }
        i2 = i2 + 1;
    }
    proof {
        assert(t@.subrange(s as int, a as int) + t@.subrange(fb as int, fb as int) =~= t@.subrange(
            s as int,
            a as int,
        ));
    }
    (md, b, b - fb)
}

/// Read the exponent part beginning at `b`. Returns its sign, its exact
/// magnitude when that fits twenty digits, and otherwise a flag that the
/// magnitude reaches ten to the twentieth.
fn read_exponent(t: &[u8], b: usize) -> (r: (bool, u128, bool))
    requires
        b <= t@.len(),
        spec_exp_from(t@, b as int),
    ensures
        r.0 == spec_exp_neg(t@, b as int),
        !r.2 ==> r.1 as nat == digits_val(spec_exp_digits(t@, b as int)),
        !r.2 ==> r.1 <= 100000000000000000000u128,
        r.2 ==> digits_val(spec_exp_digits(t@, b as int)) >= pow10(20),
{
    let n: usize = t.len();
    if b == n {
        proof {
            assert(spec_exp_digits(t@, b as int) =~= Seq::<u8>::empty());
        }
        return (false, 0, false);
    }
    let j: usize = if b + 1 < n && is_sign_byte(t[b + 1]) {
        b + 2
    } else {
        b + 1
    };
    let eneg: bool = b + 1 < n && t[b + 1] == 0x2d;
    proof {
        lemma_digits_end(t@, j as int);
        assert(spec_exp_digits(t@, b as int) =~= t@.subrange(j as int, n as int));
    }
    let mut z: usize = j;
    while z < n && t[z] == 0x30
        invariant
            j <= z <= n,
            n == t@.len(),
            forall|q: int| j <= q < z ==> t@[q] == 0x30,
        decreases n - z,
    {
        z = z + 1;
    }
    proof {
        let ed = t@.subrange(j as int, n as int);
        lemma_digits_leading_zeros(ed, z - j);
        assert(ed.subrange(z - j, ed.len() as int) =~= t@.subrange(z as int, n as int));
    }
    if n - z > 20 {
        proof {
            let zd = t@.subrange(z as int, n as int);
            assert(spec_is_digit(zd[0]) && zd[0] != 0x30);
            lemma_digits_first_nonzero(zd);
            lemma_pow10_mono(20, (zd.len() - 1) as nat);
        }
        return (eneg, 0, true);
    }
    let ghost zd = t@.subrange(z as int, n as int);
    let mut e_exact: u128 = 0;
    let mut k: usize = z;
    while k < n
        invariant
            z <= k <= n,
            n == t@.len(),
            n - z <= 20,
            zd == t@.subrange(z as int, n as int),
            forall|q: int| z <= q < n ==> spec_is_digit(t@[q]),
            e_exact == digits_val(t@.subrange(z as int, k as int)),
            e_exact < pow10((k - z) as nat),
        decreases n - k,
    {
        let ghost pre = t@.subrange(z as int, k as int);
        let ghost cur = t@.subrange(z as int, k as int + 1);
        proof {
            assert(cur.drop_last() =~= pre);
            assert(digits_val(cur) == 10 * digits_val(pre) + digit_of(cur.last()));
            lemma_pow10_mono((k + 1 - z) as nat, 20);
            lemma_pow10_20();
            lemma_digits_val_bound(cur);
        }
        let d: u8 = t[k] - 0x30;
        e_exact = e_exact * 10 + (d as u128);
        k = k + 1;
    }
    proof {
        assert(t@.subrange(z as int, k as int) =~= zd);
        lemma_pow10_mono((k - z) as nat, 20);
        lemma_pow10_20();
    }
    (eneg, e_exact, false)
}

/// Shift the mantissa digits by the exponent and truncate, saturating.
fn apply_shift(md: &Vec<u8>, fl: usize, eneg: bool, e_exact: u128, e_huge: bool, Ghost(e): Ghost<
    nat,
>) -> (r: u64)
    requires
        !e_huge ==> e == e_exact as nat && e_exact <= 100000000000000000000u128,
        e_huge ==> e >= pow10(20),
    ensures
        r == spec_shift_trunc(digits_val(md@), fl as nat, e, eneg),
{
    let mdlen: usize = md.len();
    let ghost dd = digits_val(md@);
    proof {
        lemma_digits_val_bound(md@);
        lemma_pow10_20();
    }
    let d_sat: u64 = digits_val_saturating(md.as_slice(), 0, mdlen);
    proof {
        assert(md@.subrange(0, mdlen as int) =~= md@);
    }
    if e_huge {
        if eneg {
            proof {
                lemma_pow10_mono(md@.len() as nat, (e + fl) as nat);
                lemma_div_small(dd, pow10((e + fl) as nat));
            }
            return 0;
        }
        if d_sat == 0 {
            proof {
                assert(0 * pow10((e - fl) as nat) == 0) by (nonlinear_arith);
            }
            return 0;
        }
        proof {
            assert(e - fl >= 20);
            lemma_pow10_mono(20, (e - fl) as nat);
            assert(dd * pow10((e - fl) as nat) > u64::MAX) by (nonlinear_arith)
                requires
                    dd >= 1,
                    pow10((e - fl) as nat) > u64::MAX,
            ;
        }
        return u64::MAX;
    }
    let fl128: u128 = fl as u128;
    if eneg || e_exact <= fl128 {
        let m128: u128 = if eneg {
            e_exact + fl128
        } else {
            fl128 - e_exact
        };
        proof {
            assert(m128 as nat == (if eneg {
                (e + fl) as nat
            } else {
                (fl - e) as nat
            }));
        }
        if m128 >= mdlen as u128 {
            proof {
                lemma_pow10_mono(md@.len() as nat, m128 as nat);
                lemma_div_small(dd, pow10(m128 as nat));
            }
            return 0;
        }
        let m: usize = m128 as usize;
        let r: u64 = digits_val_saturating(md.as_slice(), 0, mdlen - m);
        proof {
            lemma_digits_div(md@, m as int);
            assert(md@.subrange(0, (mdlen - m) as int) == md@.subrange(0, md@.len() - m));
        }
        return r;
    }
    let k128: u128 = e_exact - fl128;
    if d_sat == 0 {
        proof {
            assert(0 * pow10((e - fl) as nat) == 0) by (nonlinear_arith);
        }
        return 0;
    }
    if k128 >= 20 {
        proof {
            lemma_pow10_mono(20, (e - fl) as nat);
            assert(dd * pow10((e - fl) as nat) > u64::MAX) by (nonlinear_arith)
                requires
                    dd >= 1,
                    pow10((e - fl) as nat) > u64::MAX,
            ;
        }
        return u64::MAX;
    }
    let k: usize = k128 as usize;
    let mut acc: u64 = d_sat;
    let mut step: usize = 0;
    proof {
        assert(dd * pow10(0) == dd) by (nonlinear_arith);
    }
    while step < k
        invariant
            0 <= step <= k,
            dd == digits_val(md@),
            dd * pow10(step as nat) <= u64::MAX ==> acc == dd * pow10(step as nat),
            dd * pow10(step as nat) > u64::MAX ==> acc == u64::MAX,
        decreases k - step,
    {
        proof {
            assert(dd * pow10((step + 1) as nat) == 10 * (dd * pow10(step as nat)))
                by (nonlinear_arith)
                requires
                    pow10((step + 1) as nat) == 10 * pow10(step as nat),
            ;
        }
        if acc > u64::MAX / 10 {
            proof {
                if dd * pow10(step as nat) <= u64::MAX {
                    assert(10 * (dd * pow10(step as nat)) > u64::MAX) by (nonlinear_arith)
                        requires
                            dd * pow10(step as nat) > u64::MAX / 10,
                    ;
                } else {
                    assert(10 * (dd * pow10(step as nat)) > u64::MAX) by (nonlinear_arith)
                        requires
                            dd * pow10(step as nat) > u64::MAX,
                    ;
                }
            }
            acc = u64::MAX;
        } else {
            acc = acc * 10;
        }
        step = step + 1;
    }
    proof {
        assert(step == k && k as nat == (e - fl) as nat);
    }
    acc
}

/// Convert a float literal to a `u64` sample count.
pub fn trunc_u64_of_literal(t: &[u8]) -> (r: u64)
    requires
        spec_is_float_literal(t@),
    ensures
        r == spec_trunc_u64(t@),
{
    let n: usize = t.len();
    let s: usize = if n > 0 && is_sign_byte(t[0]) {
        1
    } else {
        0
    };
    if n > 0 && t[0] == 0x2d {
        return 0;
    }
    let nan_arr: [u8; 3] = [0x6e, 0x61, 0x6e];
    let inf_arr: [u8; 3] = [0x69, 0x6e, 0x66];
    let infinity_arr: [u8; 8] = [0x69, 0x6e, 0x66, 0x69, 0x6e, 0x69, 0x74, 0x79];
    proof {
        assert(nan_arr@ =~= nan_keyword());
        assert(inf_arr@ =~= inf_keyword());
        assert(infinity_arr@ =~= infinity_keyword());
    }
    if keyword_from(t, s, nan_arr.as_slice()) {
        return 0;
    }
    if keyword_from(t, s, inf_arr.as_slice()) || keyword_from(t, s, infinity_arr.as_slice()) {
        return u64::MAX;
    }
    assert(spec_number_from(t@, s as int));
    let ghost parts = spec_num_parts(t@, s as int);
    let (md, b, fl) = collect_mantissa(t, s);
    proof {
        lemma_digits_end(t@, s as int);
        if digits_end(t@, s as int) < t@.len() && t@[digits_end(t@, s as int)] == 0x2e {
            lemma_digits_end(t@, digits_end(t@, s as int) + 1);
        }
        assert(spec_exp_from(t@, b as int));
    }
    let (eneg, e_exact, e_huge) = read_exponent(t, b);
    proof {
        assert(parts.e == digits_val(spec_exp_digits(t@, b as int)));
        assert(parts.eneg == spec_exp_neg(t@, b as int));
    }
    apply_shift(&md, fl, eneg, e_exact, e_huge, Ghost(parts.e))
}

/// What a float literal stores into a `u64` sample count: truncation
/// toward zero, saturating; negative values and `nan` give zero, `inf`
/// gives the maximum.
pub open spec fn spec_trunc_u64(t: Seq<u8>) -> u64 {
    let s: int = if t.len() > 0 && spec_is_sign(t[0]) {
        1
    } else {
        0
    };
    if t.len() > 0 && t[0] == 0x2d {
        0
    } else if spec_keyword_from(t, s, nan_keyword()) {
        0
    } else if spec_keyword_from(t, s, inf_keyword()) || spec_keyword_from(
        t,
        s,
        infinity_keyword(),
    ) {
        u64::MAX
    } else {
        spec_trunc_num(t, s)
    }
}


/// Printing a `u64` and truncating the printed literal gives the number
/// back.
pub proof fn lemma_trunc_of_dec(n: u64)
    ensures
        spec_is_float_literal(spec_u64_dec(n)),
        spec_trunc_u64(spec_u64_dec(n)) == n,
{
    let d = spec_u64_dec(n);
    lemma_u64_dec(n);
    lemma_all_digits_end(d, 0);
    assert(spec_is_digit(d[0]));
    assert(!spec_is_sign(d[0]));
    assert(spec_exp_from(d, d.len() as int));
    assert(spec_number_from(d, 0));
    assert(spec_is_float_literal(d));
    // Not a keyword and not negative: the digit bytes say so.
    assert(!spec_keyword_from(d, 0, nan_keyword())) by {
        if spec_keyword_from(d, 0, nan_keyword()) {
            assert(spec_lower(d[0]) == nan_keyword()[0]);
        }
    }
    assert(!spec_keyword_from(d, 0, inf_keyword())) by {
        if spec_keyword_from(d, 0, inf_keyword()) {
            assert(spec_lower(d[0]) == inf_keyword()[0]);
        }
    }
    assert(!spec_keyword_from(d, 0, infinity_keyword())) by {
        if spec_keyword_from(d, 0, infinity_keyword()) {
            assert(spec_lower(d[0]) == infinity_keyword()[0]);
        }
    }
    // The number parts: all integer digits, no fraction, no exponent.
    let parts = spec_num_parts(d, 0);
    assert(digits_end(d, 0) == d.len());
    assert(parts.md =~= d);
    assert(parts.fl == 0);
    assert(spec_exp_digits(d, d.len() as int) =~= Seq::<u8>::empty());
    assert(parts.e == 0);
    assert(!parts.eneg);
    assert(spec_shift_trunc(digits_val(d), 0, 0, false) == n) by {
        assert(pow10(0) == 1);
        assert(digits_val(d) / 1 == n);
    }
}

/// If every byte from `i` on is a digit, the digit scan runs to the end.
pub proof fn lemma_all_digits_end(t: Seq<u8>, i: int)
    requires
        0 <= i <= t.len(),
        forall|k: int| i <= k < t.len() ==> spec_is_digit(t[k]),
    ensures
        digits_end(t, i) == t.len(),
    decreases t.len() - i,
{
    if i < t.len() {
        lemma_all_digits_end(t, i + 1);
    }
}

} // verus!
