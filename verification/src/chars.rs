//! Byte and character classifiers for the Prometheus text exposition format.
//!
//! Metric names match `[a-zA-Z_:][a-zA-Z0-9_:]*` and label names match
//! `[a-zA-Z_][a-zA-Z0-9_]*`; blanks and tabs separate tokens.

use vstd::prelude::*;

verus! {

/// Space or horizontal tab: the token separators inside a line.
pub open spec fn spec_is_blank_or_tab(b: u8) -> bool {
    b == 0x20 || b == 0x09
}

/// An ASCII letter or underscore: what may begin a label name.
pub open spec fn spec_is_label_name_start(c: char) -> bool {
    ('a' <= c && c <= 'z') || ('A' <= c && c <= 'Z') || c == '_'
}

/// A label-name byte after the first: also allows decimal digits.
pub open spec fn spec_is_label_name_cont(c: char) -> bool {
    spec_is_label_name_start(c) || ('0' <= c && c <= '9')
}

/// What may begin a metric name: label-name starts plus `:`.
pub open spec fn spec_is_metric_name_start(c: char) -> bool {
    spec_is_label_name_start(c) || c == ':'
}

/// A metric-name byte after the first: label-name continuations plus `:`.
pub open spec fn spec_is_metric_name_cont(c: char) -> bool {
    spec_is_label_name_cont(c) || c == ':'
}

pub fn is_blank_or_tab(b: u8) -> (r: bool)
    ensures
        r == spec_is_blank_or_tab(b),
{
    b == 0x20 || b == 0x09
}

pub fn is_valid_label_name_start(b: char) -> (r: bool)
    ensures
        r == spec_is_label_name_start(b),
{
    (b >= 'a' && b <= 'z') || (b >= 'A' && b <= 'Z') || b == '_'
}

pub fn is_valid_label_name_continuation(b: char) -> (r: bool)
    ensures
        r == spec_is_label_name_cont(b),
{
    is_valid_label_name_start(b) || (b >= '0' && b <= '9')
}

pub fn is_valid_metric_name_start(b: char) -> (r: bool)
    ensures
        r == spec_is_metric_name_start(b),
{
    is_valid_label_name_start(b) || b == ':'
}

pub fn _is_valid_metric_name_continuation(b: char) -> (r: bool)
    ensures
        r == spec_is_metric_name_cont(b),
{
    is_valid_label_name_continuation(b) || b == ':'
}

/// Byte-level variant of the label-name classifiers: the scanners work on
/// raw bytes, and every admissible name byte is ASCII.
pub open spec fn spec_is_label_name_start_byte(b: u8) -> bool {
    (0x61 <= b && b <= 0x7a) || (0x41 <= b && b <= 0x5a) || b == 0x5f
}

pub open spec fn spec_is_label_name_cont_byte(b: u8) -> bool {
    spec_is_label_name_start_byte(b) || (0x30 <= b && b <= 0x39)
}

pub open spec fn spec_is_metric_name_start_byte(b: u8) -> bool {
    spec_is_label_name_start_byte(b) || b == 0x3a
}

pub open spec fn spec_is_metric_name_cont_byte(b: u8) -> bool {
    spec_is_label_name_cont_byte(b) || b == 0x3a
}

pub fn is_label_name_start_byte(b: u8) -> (r: bool)
    ensures
        r == spec_is_label_name_start_byte(b),
{
    (0x61 <= b && b <= 0x7a) || (0x41 <= b && b <= 0x5a) || b == 0x5f
}

pub fn is_label_name_cont_byte(b: u8) -> (r: bool)
    ensures
        r == spec_is_label_name_cont_byte(b),
{
    is_label_name_start_byte(b) || (0x30 <= b && b <= 0x39)
}

pub fn is_metric_name_start_byte(b: u8) -> (r: bool)
    ensures
        r == spec_is_metric_name_start_byte(b),
{
    is_label_name_start_byte(b) || b == 0x3a
}

pub fn is_metric_name_cont_byte(b: u8) -> (r: bool)
    ensures
        r == spec_is_metric_name_cont_byte(b),
{
    is_label_name_cont_byte(b) || b == 0x3a
}

/// The byte classifiers agree with the character classifiers on every byte,
/// read as the corresponding ASCII character.
pub proof fn lemma_byte_char_classifiers_agree(b: u8)
    ensures
        spec_is_label_name_start_byte(b) == spec_is_label_name_start(b as char),
        spec_is_label_name_cont_byte(b) == spec_is_label_name_cont(b as char),
        spec_is_metric_name_start_byte(b) == spec_is_metric_name_start(b as char),
        spec_is_metric_name_cont_byte(b) == spec_is_metric_name_cont(b as char),
{
}

} // verus!
