//! Textual floating-point values.
//!
//! The exposition format writes sample values as decimal floating-point
//! literals (`1027`, `3.4709e-05`, `+Inf`, `NaN`). The parser validates a
//! value token against this syntax and then carries the token itself; what
//! a literal denotes as a binary float is left to callers, so the core
//! stays within integer code. The syntax accepted here is the one Rust's
//! `f64` parser documents: an optional sign, then `inf`, `infinity` or
//! `nan` in any case, or a decimal number with an optional fraction and an
//! optional exponent.

use vstd::prelude::*;

verus! {

pub open spec fn spec_is_digit(b: u8) -> bool {
    0x30 <= b && b <= 0x39
}

pub open spec fn spec_is_sign(b: u8) -> bool {
    b == 0x2b || b == 0x2d  // '+' '-'
}

/// The first index at or after `i` that does not hold a digit.
pub open spec fn digits_end(t: Seq<u8>, i: int) -> int
    decreases t.len() - i when 0 <= i <= t.len()
{
    if i < t.len() && spec_is_digit(t[i]) {
        digits_end(t, i + 1)
    } else {
        i
    }
}

pub proof fn lemma_digits_end(t: Seq<u8>, i: int)
    requires
        0 <= i <= t.len(),
    ensures
        i <= digits_end(t, i) <= t.len(),
        forall|k: int| i <= k < digits_end(t, i) ==> spec_is_digit(t[k]),
        digits_end(t, i) < t.len() ==> !spec_is_digit(t[digits_end(t, i)]),
    decreases t.len() - i,
{
    if i < t.len() && spec_is_digit(t[i]) {
        lemma_digits_end(t, i + 1);
    }
}

/// ASCII lower-casing of a single byte.
pub open spec fn spec_lower(b: u8) -> u8 {
    if 0x41 <= b && b <= 0x5a {
        (b + 0x20) as u8
    } else {
        b
    }
}

/// Do the bytes of `t` from `i` on spell `kw`, case-insensitively?
/// `kw` is given in lower case.
pub open spec fn spec_keyword_from(t: Seq<u8>, i: int, kw: Seq<u8>) -> bool {
    t.len() - i == kw.len() && (forall|k: int|
        0 <= k < kw.len() ==> spec_lower(t[i + k]) == kw[k])
}

pub open spec fn inf_keyword() -> Seq<u8> {
    seq![0x69, 0x6e, 0x66]  // "inf"
}

pub open spec fn infinity_keyword() -> Seq<u8> {
    seq![0x69, 0x6e, 0x66, 0x69, 0x6e, 0x69, 0x74, 0x79]  // "infinity"
}

pub open spec fn nan_keyword() -> Seq<u8> {
    seq![0x6e, 0x61, 0x6e]  // "nan"
}

/// After the mantissa ends at `i`, is the rest of `t` a well-formed
/// (possibly absent) exponent part: `e`/`E`, an optional sign, digits?
pub open spec fn spec_exp_from(t: Seq<u8>, i: int) -> bool {
    if i == t.len() {
        true
    } else if 0 <= i < t.len() && (t[i] == 0x65 || t[i] == 0x45) {  // 'e' 'E'
        let j = if i + 1 < t.len() && spec_is_sign(t[i + 1]) {
            i + 2
        } else {
            i + 1
        };
        j < t.len() && digits_end(t, j) == t.len()
    } else {
        false
    }
}

/// Is `t` from `i` on a decimal number: digits, an optional `.` with more
/// digits (at least one digit in all), then an optional exponent?
pub open spec fn spec_number_from(t: Seq<u8>, i: int) -> bool {
    if 0 <= i <= t.len() {
        let a = digits_end(t, i);
        if a < t.len() && t[a] == 0x2e {  // '.'
            let b = digits_end(t, a + 1);
            (a > i || b > a + 1) && spec_exp_from(t, b)
        } else {
            a > i && spec_exp_from(t, a)
        }
    } else {
        false
    }
}

/// Is `t` a floating-point literal: an optional sign, then `inf`,
/// `infinity` or `nan` in any case, or a decimal number?
pub open spec fn spec_is_float_literal(t: Seq<u8>) -> bool {
    let s: int = if t.len() > 0 && spec_is_sign(t[0]) {
        1
    } else {
        0
    };
    spec_keyword_from(t, s, inf_keyword()) || spec_keyword_from(t, s, infinity_keyword())
        || spec_keyword_from(t, s, nan_keyword()) || spec_number_from(t, s)
}

/// Does the literal carry a leading minus sign?
pub open spec fn spec_is_negative(t: Seq<u8>) -> bool {
    t.len() > 0 && t[0] == 0x2d
}

pub fn is_digit_byte(b: u8) -> (r: bool)
    ensures
        r == spec_is_digit(b),
{
    0x30 <= b && b <= 0x39
}

pub fn is_sign_byte(b: u8) -> (r: bool)
    ensures
        r == spec_is_sign(b),
{
    b == 0x2b || b == 0x2d
}

/// Scan digits from `i`; return the first index without one.
pub fn scan_digits(t: &[u8], i: usize) -> (r: usize)
    requires
        i <= t@.len(),
    ensures
        r == digits_end(t@, i as int),
        i <= r <= t@.len(),
{
    let n: usize = t.len();
    let mut j: usize = i;
    while j < n && is_digit_byte(t[j])
        invariant
            i <= j <= n,
            n == t@.len(),
            digits_end(t@, i as int) == digits_end(t@, j as int),
        decreases n - j,
    {
        j = j + 1;
    }
    proof {
        lemma_digits_end(t@, j as int);
    }
    j
}

fn lower_byte(b: u8) -> (r: u8)
    ensures
        r == spec_lower(b),
{
    if 0x41 <= b && b <= 0x5a {
        b + 0x20
    } else {
        b
    }
}

/// Case-insensitive match of `t[i..]` against a lower-case keyword.
pub fn keyword_from(t: &[u8], i: usize, kw: &[u8]) -> (r: bool)
    requires
        i <= t@.len(),
    ensures
        r == spec_keyword_from(t@, i as int, kw@),
{
    if t.len() - i != kw.len() {
        return false;
    }
    let m: usize = kw.len();
    let mut k: usize = 0;
    while k < m
        invariant
            0 <= k <= m,
            m == kw@.len(),
            i + m == t@.len(),
            i + m <= usize::MAX,
            forall|q: int| 0 <= q < k ==> spec_lower(t@[i + q]) == kw@[q],
        decreases m - k,
    {
        if lower_byte(t[i + k]) != kw[k] {
            return false;
        }
        k = k + 1;
    }
    true
}

fn exp_from(t: &[u8], i: usize) -> (r: bool)
    requires
        i <= t@.len(),
    ensures
        r == spec_exp_from(t@, i as int),
{
    let n: usize = t.len();
    if i == n {
        return true;
    }
    if t[i] != 0x65 && t[i] != 0x45 {
        return false;
    }
    let j: usize = if i + 1 < n && is_sign_byte(t[i + 1]) {
        i + 2
    } else {
        i + 1
    };
    if j >= n {
        return false;
    }
    let e: usize = scan_digits(t, j);
    e == n
}

fn number_from(t: &[u8], i: usize) -> (r: bool)
    requires
        i <= t@.len(),
    ensures
        r == spec_number_from(t@, i as int),
{
    let n: usize = t.len();
    let a: usize = scan_digits(t, i);
    if a < n && t[a] == 0x2e {
        let b: usize = scan_digits(t, a + 1);
        (a > i || b > a + 1) && exp_from(t, b)
    } else {
        a > i && exp_from(t, a)
    }
}

/// Validate a value token against the floating-point literal syntax.
pub fn is_float_literal(t: &[u8]) -> (r: bool)
    ensures
        r == spec_is_float_literal(t@),
{
    let s: usize = if t.len() > 0 && is_sign_byte(t[0]) {
        1
    } else {
        0
    };
    let inf: [u8; 3] = [0x69, 0x6e, 0x66];
    let infinity: [u8; 8] = [0x69, 0x6e, 0x66, 0x69, 0x6e, 0x69, 0x74, 0x79];
    let nan: [u8; 3] = [0x6e, 0x61, 0x6e];
    proof {
        assert(inf@ =~= inf_keyword());
        assert(infinity@ =~= infinity_keyword());
        assert(nan@ =~= nan_keyword());
    }
    keyword_from(t, s, inf.as_slice()) || keyword_from(t, s, infinity.as_slice())
        || keyword_from(t, s, nan.as_slice()) || number_from(t, s)
}

} // verus!
