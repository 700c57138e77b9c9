//! Token scanners: byte-level routines that accumulate a token under a
//! termination rule, leaving the position on the byte that ended the scan.
//!
//! Three families: runs (blanks, names, until-whitespace, until-newline),
//! the escape-decoding line scanner used for HELP payloads, and the quoted
//! label-value scanner with its `\"`, `\\` and `\n` escapes.

use vstd::prelude::*;
use crate::chars::{
    spec_is_blank_or_tab,
    spec_is_label_name_start_byte,
    spec_is_label_name_cont_byte,
    spec_is_metric_name_start_byte,
    spec_is_metric_name_cont_byte,
    is_blank_or_tab,
    is_label_name_start_byte,
    is_label_name_cont_byte,
    is_metric_name_start_byte,
    is_metric_name_cont_byte,
};
use crate::model::ErrorKind;

verus! {

/// The first index at or after `i` that is not a blank or tab.
pub open spec fn spec_skip_blanks(t: Seq<u8>, i: int) -> int
    decreases t.len() - i when 0 <= i <= t.len()
{
    if i < t.len() && spec_is_blank_or_tab(t[i]) {
        spec_skip_blanks(t, i + 1)
    } else {
        i
    }
}

pub proof fn lemma_skip_blanks(t: Seq<u8>, i: int)
    requires
        0 <= i <= t.len(),
    ensures
        i <= spec_skip_blanks(t, i) <= t.len(),
        spec_skip_blanks(t, i) < t.len() ==> !spec_is_blank_or_tab(t[spec_skip_blanks(t, i)]),
        forall|k: int| i <= k < spec_skip_blanks(t, i) ==> spec_is_blank_or_tab(t[k]),
    decreases t.len() - i,
{
    if i < t.len() && spec_is_blank_or_tab(t[i]) {
        lemma_skip_blanks(t, i + 1);
    }
}

/// The first index at or after `i` holding a blank, tab or newline.
pub open spec fn spec_token_end(t: Seq<u8>, i: int) -> int
    decreases t.len() - i when 0 <= i <= t.len()
{
    if i < t.len() && !spec_is_blank_or_tab(t[i]) && t[i] != 0x0a {
        spec_token_end(t, i + 1)
    } else {
        i
    }
}

pub proof fn lemma_token_end(t: Seq<u8>, i: int)
    requires
        0 <= i <= t.len(),
    ensures
        i <= spec_token_end(t, i) <= t.len(),
        spec_token_end(t, i) < t.len() ==> spec_is_blank_or_tab(t[spec_token_end(t, i)]) || t[
            spec_token_end(t, i)] == 0x0a,
        forall|k: int|
            i <= k < spec_token_end(t, i) ==> !spec_is_blank_or_tab(t[k]) && t[k] != 0x0a,
    decreases t.len() - i,
{
    if i < t.len() && !spec_is_blank_or_tab(t[i]) && t[i] != 0x0a {
        lemma_token_end(t, i + 1);
    }
}

/// The first index at or after `i` holding a newline, or the end.
pub open spec fn spec_line_end(t: Seq<u8>, i: int) -> int
    decreases t.len() - i when 0 <= i <= t.len()
{
    if i < t.len() && t[i] != 0x0a {
        spec_line_end(t, i + 1)
    } else {
        i
    }
}

pub proof fn lemma_line_end(t: Seq<u8>, i: int)
    requires
        0 <= i <= t.len(),
    ensures
        i <= spec_line_end(t, i) <= t.len(),
        spec_line_end(t, i) < t.len() ==> t[spec_line_end(t, i)] == 0x0a,
        forall|k: int| i <= k < spec_line_end(t, i) ==> t[k] != 0x0a,
    decreases t.len() - i,
{
    if i < t.len() && t[i] != 0x0a {
        lemma_line_end(t, i + 1);
    }
}

/// The end of a label-name token starting at `i`: `i` itself when no
/// valid start byte stands there.
pub open spec fn spec_label_name_end(t: Seq<u8>, i: int) -> int {
    if 0 <= i < t.len() && spec_is_label_name_start_byte(t[i]) {
        spec_name_cont_end(t, i + 1, false)
    } else {
        i
    }
}

/// The end of a metric-name token starting at `i`.
pub open spec fn spec_metric_name_end(t: Seq<u8>, i: int) -> int {
    if 0 <= i < t.len() && spec_is_metric_name_start_byte(t[i]) {
        spec_name_cont_end(t, i + 1, true)
    } else {
        i
    }
}

pub open spec fn spec_name_cont_end(t: Seq<u8>, i: int, metric: bool) -> int
    decreases t.len() - i when 0 <= i <= t.len()
{
    if i < t.len() && (if metric {
        spec_is_metric_name_cont_byte(t[i])
    } else {
        spec_is_label_name_cont_byte(t[i])
    }) {
        spec_name_cont_end(t, i + 1, metric)
    } else {
        i
    }
}

pub proof fn lemma_name_cont_end(t: Seq<u8>, i: int, metric: bool)
    requires
        0 <= i <= t.len(),
    ensures
        i <= spec_name_cont_end(t, i, metric) <= t.len(),
    decreases t.len() - i,
{
    if i < t.len() && (if metric {
        spec_is_metric_name_cont_byte(t[i])
    } else {
        spec_is_label_name_cont_byte(t[i])
    }) {
        lemma_name_cont_end(t, i + 1, metric);
    }
}

/// Skip blanks and tabs from `i`.
pub fn skip_blanks(t: &[u8], i: usize) -> (r: usize)
    requires
        i <= t@.len(),
    ensures
        r == spec_skip_blanks(t@, i as int),
        i <= r <= t@.len(),
{
    let n: usize = t.len();
    let mut j: usize = i;
    while j < n && is_blank_or_tab(t[j])
        invariant
            i <= j <= n,
            n == t@.len(),
            spec_skip_blanks(t@, i as int) == spec_skip_blanks(t@, j as int),
        decreases n - j,
    {
        j = j + 1;
    }
    j
}

/// Scan to the next blank, tab or newline from `i`.
pub fn token_end(t: &[u8], i: usize) -> (r: usize)
    requires
        i <= t@.len(),
    ensures
        r == spec_token_end(t@, i as int),
        i <= r <= t@.len(),
{
    let n: usize = t.len();
    let mut j: usize = i;
    while j < n && !is_blank_or_tab(t[j]) && t[j] != 0x0a
        invariant
            i <= j <= n,
            n == t@.len(),
            spec_token_end(t@, i as int) == spec_token_end(t@, j as int),
        decreases n - j,
    {
        j = j + 1;
    }
    j
}

/// Scan to the next newline from `i`, or to the end.
pub fn line_end(t: &[u8], i: usize) -> (r: usize)
    requires
        i <= t@.len(),
    ensures
        r == spec_line_end(t@, i as int),
        i <= r <= t@.len(),
{
    let n: usize = t.len();
    let mut j: usize = i;
    while j < n && t[j] != 0x0a
        invariant
            i <= j <= n,
            n == t@.len(),
            spec_line_end(t@, i as int) == spec_line_end(t@, j as int),
        decreases n - j,
    {
        j = j + 1;
    }
    j
}

/// Scan a label name from `i`; the result is `i` itself when no name
/// starts there.
pub fn label_name_end(t: &[u8], i: usize) -> (r: usize)
    requires
        i <= t@.len(),
    ensures
        r == spec_label_name_end(t@, i as int),
        i <= r <= t@.len(),
{
    let n: usize = t.len();
    if i >= n || !is_label_name_start_byte(t[i]) {
        return i;
    }
    let mut j: usize = i + 1;
    while j < n && is_label_name_cont_byte(t[j])
        invariant
            i + 1 <= j <= n,
            n == t@.len(),
            spec_name_cont_end(t@, i + 1, false) == spec_name_cont_end(t@, j as int, false),
        decreases n - j,
    {
        j = j + 1;
    }
    proof {
        lemma_name_cont_end(t@, j as int, false);
    }
    j
}

/// Scan a metric name from `i`; the result is `i` itself when no name
/// starts there.
pub fn metric_name_end(t: &[u8], i: usize) -> (r: usize)
    requires
        i <= t@.len(),
    ensures
        r == spec_metric_name_end(t@, i as int),
        i <= r <= t@.len(),
{
    let n: usize = t.len();
    if i >= n || !is_metric_name_start_byte(t[i]) {
        return i;
    }
    let mut j: usize = i + 1;
    while j < n && is_metric_name_cont_byte(t[j])
        invariant
            i + 1 <= j <= n,
            n == t@.len(),
            spec_name_cont_end(t@, i + 1, true) == spec_name_cont_end(t@, j as int, true),
        decreases n - j,
    {
        j = j + 1;
    }
    proof {
        lemma_name_cont_end(t@, j as int, true);
    }
    j
}

/// The outcome of a scanner that can fail: the token and the position
/// after it, or an error kind with the offending position.
#[verifier::ext_equal]
pub enum ScanResult {
    Done { token: Seq<u8>, end: int },
    Failed { kind: ErrorKind, at: int },
}

/// Scan a quoted label value, entered just after the opening quote.
/// `\"` and `\\` and `\n` decode; a bare newline and any other escape
/// are errors, as is the end of input before the closing quote.
pub open spec fn spec_scan_label_value(t: Seq<u8>, p: int, acc: Seq<u8>) -> ScanResult
    decreases t.len() - p when 0 <= p <= t.len()
{
    if p >= t.len() {
        ScanResult::Failed { kind: ErrorKind::UnterminatedLabelValue, at: t.len() as int }
    } else if t[p] == 0x22 {  // '"'
        ScanResult::Done { token: acc, end: p + 1 }
    } else if t[p] == 0x0a {  // newline
        ScanResult::Failed { kind: ErrorKind::UnescapedNewline, at: p }
    } else if t[p] == 0x5c {  // backslash
        if p + 1 >= t.len() {
            ScanResult::Failed { kind: ErrorKind::UnterminatedLabelValue, at: t.len() as int }
        } else if t[p + 1] == 0x22 || t[p + 1] == 0x5c {
            spec_scan_label_value(t, p + 2, acc.push(t[p + 1]))
        } else if t[p + 1] == 0x6e {  // 'n'
            spec_scan_label_value(t, p + 2, acc.push(0x0a))
        } else {
            ScanResult::Failed { kind: ErrorKind::InvalidEscape, at: p + 1 }
        }
    } else {
        spec_scan_label_value(t, p + 1, acc.push(t[p]))
    }
}

/// Scan to the end of the line with escape decoding, as HELP payloads
/// are read: `\\` and `\n` decode, any other escape is an error, and the
/// end of input ends the line like a newline does.
pub open spec fn spec_scan_escaped_line(t: Seq<u8>, p: int, acc: Seq<u8>) -> ScanResult
    decreases t.len() - p when 0 <= p <= t.len()
{
    if p >= t.len() {
        ScanResult::Done { token: acc, end: t.len() as int }
    } else if t[p] == 0x0a {
        ScanResult::Done { token: acc, end: p + 1 }
    } else if t[p] == 0x5c {
        if p + 1 >= t.len() {
            ScanResult::Failed { kind: ErrorKind::InvalidEscape, at: t.len() as int }
        } else if t[p + 1] == 0x5c {
            spec_scan_escaped_line(t, p + 2, acc.push(0x5c))
        } else if t[p + 1] == 0x6e {
            spec_scan_escaped_line(t, p + 2, acc.push(0x0a))
        } else {
            ScanResult::Failed { kind: ErrorKind::InvalidEscape, at: p + 1 }
        }
    } else {
        spec_scan_escaped_line(t, p + 1, acc.push(t[p]))
    }
}

/// Every path of the label-value scan moves forward.
pub proof fn lemma_scan_label_value_end(t: Seq<u8>, p: int, acc: Seq<u8>)
    requires
        0 <= p <= t.len(),
    ensures
        spec_scan_label_value(t, p, acc) matches ScanResult::Done { end, .. } ==> p + 1 < end
            <= t.len() || (end == p + 1 && p < t.len()),
        spec_scan_label_value(t, p, acc) matches ScanResult::Failed { at, .. } ==> p <= at
            <= t.len(),
    decreases t.len() - p,
{
    if p >= t.len() {
    } else if t[p] == 0x22 || t[p] == 0x0a {
    } else if t[p] == 0x5c {
        if p + 1 < t.len() && (t[p + 1] == 0x22 || t[p + 1] == 0x5c) {
            lemma_scan_label_value_end(t, p + 2, acc.push(t[p + 1]));
        } else if p + 1 < t.len() && t[p + 1] == 0x6e {
            lemma_scan_label_value_end(t, p + 2, acc.push(0x0a));
        }
    } else {
        lemma_scan_label_value_end(t, p + 1, acc.push(t[p]));
    }
}

/// Every path of the escaped-line scan moves forward.
pub proof fn lemma_scan_escaped_line_end(t: Seq<u8>, p: int, acc: Seq<u8>)
    requires
        0 <= p <= t.len(),
    ensures
        spec_scan_escaped_line(t, p, acc) matches ScanResult::Done { end, .. } ==> p <= end
            <= t.len() && (p < t.len() ==> p < end),
        spec_scan_escaped_line(t, p, acc) matches ScanResult::Failed { at, .. } ==> p <= at
            <= t.len(),
    decreases t.len() - p,
{
    if p >= t.len() {
    } else if t[p] == 0x0a {
    } else if t[p] == 0x5c {
        if p + 1 < t.len() && t[p + 1] == 0x5c {
            lemma_scan_escaped_line_end(t, p + 2, acc.push(0x5c));
        } else if p + 1 < t.len() && t[p + 1] == 0x6e {
            lemma_scan_escaped_line_end(t, p + 2, acc.push(0x0a));
        }
    } else {
        lemma_scan_escaped_line_end(t, p + 1, acc.push(t[p]));
    }
}

/// Scan a quoted label value; on success the decoded bytes and the
/// position after the closing quote.
pub fn scan_label_value(t: &[u8], p: usize) -> (r: Result<(Vec<u8>, usize), ErrorKind>)
    requires
        p <= t@.len(),
    ensures
        match r {
            Ok((v, end)) => spec_scan_label_value(t@, p as int, Seq::empty())
                == (ScanResult::Done { token: v@, end: end as int }) && end <= t@.len(),
            Err(kind) => spec_scan_label_value(t@, p as int, Seq::empty()) matches
                ScanResult::Failed { kind: k, .. } && k == kind,
        },
{
    let n: usize = t.len();
    let mut acc: Vec<u8> = Vec::new();
    let mut q: usize = p;
    loop
        invariant
            p <= q <= n,
            n == t@.len(),
            spec_scan_label_value(t@, p as int, Seq::empty()) == spec_scan_label_value(
                t@,
                q as int,
                acc@,
            ),
        decreases n - q,
    {
        if q >= n {
            return Err(ErrorKind::UnterminatedLabelValue);
        }
        let b: u8 = t[q];
        if b == 0x22 {
            return Ok((acc, q + 1));
        }
        if b == 0x0a {
            return Err(ErrorKind::UnescapedNewline);
        }
        if b == 0x5c {
            if q + 1 >= n {
                return Err(ErrorKind::UnterminatedLabelValue);
            }
            let c: u8 = t[q + 1];
            if c == 0x22 || c == 0x5c {
                acc.push(c);
            } else if c == 0x6e {
                acc.push(0x0a);
            } else {
                return Err(ErrorKind::InvalidEscape);
            }
            q = q + 2;
        } else {
            acc.push(b);
            q = q + 1;
        }
    }
}

/// Scan a HELP payload to the end of its line, decoding escapes.
pub fn scan_escaped_line(t: &[u8], p: usize) -> (r: Result<(Vec<u8>, usize), ErrorKind>)
    requires
        p <= t@.len(),
    ensures
        match r {
            Ok((v, end)) => spec_scan_escaped_line(t@, p as int, Seq::empty())
                == (ScanResult::Done { token: v@, end: end as int }) && end <= t@.len(),
            Err(kind) => spec_scan_escaped_line(t@, p as int, Seq::empty()) matches
                ScanResult::Failed { kind: k, .. } && k == kind,
        },
{
    let n: usize = t.len();
    let mut acc: Vec<u8> = Vec::new();
    let mut q: usize = p;
    loop
        invariant
            p <= q <= n,
            n == t@.len(),
            spec_scan_escaped_line(t@, p as int, Seq::empty()) == spec_scan_escaped_line(
                t@,
                q as int,
                acc@,
            ),
        decreases n - q,
    {
        if q >= n {
            return Ok((acc, n));
        }
        let b: u8 = t[q];
        if b == 0x0a {
            return Ok((acc, q + 1));
        }
        if b == 0x5c {
            if q + 1 >= n {
                return Err(ErrorKind::InvalidEscape);
            }
            let c: u8 = t[q + 1];
            if c == 0x5c {
                acc.push(0x5c);
            } else if c == 0x6e {
                acc.push(0x0a);
            } else {
                return Err(ErrorKind::InvalidEscape);
            }
            q = q + 2;
        } else {
            acc.push(b);
            q = q + 1;
        }
    }
}

} // verus!
