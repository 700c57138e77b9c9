//! The parser automaton, at the specification level.
//!
//! Each state's action is a function from the input, the current
//! position and the machine's accumulators to a transition: the next
//! state, a successful end of input, or a fatal error carrying the
//! current line number and the offending position. `spec_run` chains the
//! transitions; it is what the executable parser is proved against.
//!
//! End of input acts as a line terminator everywhere except inside a
//! quoted label value and after an escaping backslash; a clean end of
//! input at the start of a line ends the parse successfully.

use vstd::prelude::*;
use crate::chars::spec_is_blank_or_tab;
use crate::float_text::spec_is_float_literal;
use crate::model::{
    ErrorKind,
    MetricType,
    FamilyS,
    MetricS,
    MetricDataS,
    LabelPairS,
    QuantileS,
    BucketS,
    spec_find_family,
    spec_find_metric,
    lemma_find_family,
    lemma_find_metric,
};
use crate::names::{Role, spec_base_name, spec_role};
use crate::num::{spec_trunc_u64, spec_parse_i64};
use crate::scan::{
    spec_skip_blanks,
    spec_token_end,
    spec_line_end,
    spec_label_name_end,
    spec_metric_name_end,
    lemma_skip_blanks,
    lemma_token_end,
    lemma_line_end,
    lemma_name_cont_end,
    ScanResult,
    spec_scan_label_value,
    spec_scan_escaped_line,
    lemma_scan_label_value_end,
    lemma_scan_escaped_line_end,
};

verus! {

/// The named states of the automaton.
#[derive(Clone, Copy, Debug, PartialEq, Eq, Structural)]
pub enum State {
    StartOfLine,
    StartComment,
    ReadingHelp,
    ReadingType,
    ReadingMetricName,
    ReadingLabels,
    StartLabelName,
    StartLabelValue,
    ReadingValue,
    StartTimestamp,
}

/// Rank for the termination measure: every transition either consumes
/// input or moves to a state of strictly lower rank.
pub open spec fn state_rank(st: State) -> int {
    match st {
        State::StartOfLine => 9,
        State::StartComment => 8,
        State::ReadingMetricName => 7,
        State::ReadingLabels => 6,
        State::StartLabelName => 5,
        State::StartLabelValue => 4,
        State::ReadingValue => 3,
        State::StartTimestamp => 2,
        State::ReadingHelp => 1,
        State::ReadingType => 0,
    }
}

/// The machine's accumulators: the registry, the line counter, the
/// current family and role, the labels of the metric in progress, the
/// label name just read, the captured `quantile`/`le` scratch values,
/// and the index of the metric a timestamp would attach to.
#[verifier::ext_equal]
pub struct MachineS {
    pub families: Seq<FamilyS>,
    pub line: nat,
    pub cur_fam: int,
    pub role: Role,
    pub cur_labels: Seq<LabelPairS>,
    pub pending_label: Seq<u8>,
    pub cur_quantile: Option<Seq<u8>>,
    pub cur_bucket: Option<Seq<u8>>,
    pub last_metric: int,
}

pub open spec fn init_machine() -> MachineS {
    MachineS {
        families: Seq::empty(),
        line: 0,
        cur_fam: 0,
        role: Role::Plain,
        cur_labels: Seq::empty(),
        pending_label: Seq::empty(),
        cur_quantile: None,
        cur_bucket: None,
        last_metric: 0,
    }
}

/// One transition's outcome.
#[verifier::ext_equal]
pub enum Step {
    Next { st: State, pos: int, m: MachineS },
    Done { families: Seq<FamilyS> },
    Failed { kind: ErrorKind, line: nat, at: int },
}

/// The whole parse's outcome.
#[verifier::ext_equal]
pub enum Outcome {
    Done { families: Seq<FamilyS> },
    Failed { kind: ErrorKind, line: nat, at: int },
}

pub open spec fn help_keyword() -> Seq<u8> {
    seq![0x48, 0x45, 0x4c, 0x50]  // "HELP"
}

pub open spec fn type_keyword() -> Seq<u8> {
    seq![0x54, 0x59, 0x50, 0x45]  // "TYPE"
}

pub open spec fn counter_token() -> Seq<u8> {
    seq![0x63, 0x6f, 0x75, 0x6e, 0x74, 0x65, 0x72]  // "counter"
}

pub open spec fn gauge_token() -> Seq<u8> {
    seq![0x67, 0x61, 0x75, 0x67, 0x65]  // "gauge"
}

pub open spec fn summary_token() -> Seq<u8> {
    seq![0x73, 0x75, 0x6d, 0x6d, 0x61, 0x72, 0x79]  // "summary"
}

pub open spec fn histogram_token() -> Seq<u8> {
    seq![0x68, 0x69, 0x73, 0x74, 0x6f, 0x67, 0x72, 0x61, 0x6d]  // "histogram"
}

/// The reserved label name `__name__`.
pub open spec fn reserved_label() -> Seq<u8> {
    seq![0x5f, 0x5f, 0x6e, 0x61, 0x6d, 0x65, 0x5f, 0x5f]
}

pub open spec fn quantile_label() -> Seq<u8> {
    seq![0x71, 0x75, 0x61, 0x6e, 0x74, 0x69, 0x6c, 0x65]  // "quantile"
}

pub open spec fn le_label() -> Seq<u8> {
    seq![0x6c, 0x65]  // "le"
}

/// The token a fresh aggregate's sample sum reads as before a `_sum`
/// line arrives.
pub open spec fn zero_literal() -> Seq<u8> {
    seq![0x30]  // "0"
}

/// Look a family up by name, creating an untyped one when absent.
pub open spec fn spec_get_or_create(fams: Seq<FamilyS>, name: Seq<u8>) -> (Seq<FamilyS>, int) {
    let i = spec_find_family(fams, name, 0);
    if i < fams.len() {
        (fams, i)
    } else {
        (
            fams.push(
                FamilyS {
                    name,
                    help: Seq::empty(),
                    metric_type: MetricType::Untyped,
                    metrics: Seq::empty(),
                },
            ),
            fams.len() as int,
        )
    }
}

/// Resolve a sample name: when stripping a `_count`/`_sum`/`_bucket`
/// suffix reaches a summary or histogram family, the sample belongs to
/// it in that role; otherwise the name denotes its own family.
pub open spec fn spec_resolve_sample(fams: Seq<FamilyS>, name: Seq<u8>) -> (
    Seq<FamilyS>,
    int,
    Role,
) {
    let base = spec_base_name(name);
    let r0 = spec_role(name);
    let bi = spec_find_family(fams, base, 0);
    if r0 != Role::Plain && bi < fams.len() && (fams[bi].metric_type == MetricType::Summary
        || fams[bi].metric_type == MetricType::Histogram) {
        (fams, bi, r0)
    } else {
        let fi = spec_get_or_create(fams, name);
        (fi.0, fi.1, Role::Plain)
    }
}

/// Append a counter, gauge or untyped metric to the current family.
pub open spec fn spec_push_simple(m: MachineS, data: MetricDataS) -> MachineS {
    let fam = m.families[m.cur_fam];
    let metric = MetricS { labels: m.cur_labels, data, timestamp_ms: None };
    let fam2 = FamilyS { metrics: fam.metrics.push(metric), ..fam };
    MachineS {
        families: m.families.update(m.cur_fam, fam2),
        last_metric: fam.metrics.len() as int,
        cur_labels: Seq::empty(),
        cur_quantile: None,
        cur_bucket: None,
        ..m
    }
}

pub open spec fn spec_empty_summary() -> MetricDataS {
    MetricDataS::Summary { sample_count: 0, sample_sum: zero_literal(), quantiles: Seq::empty() }
}

pub open spec fn spec_empty_histogram() -> MetricDataS {
    MetricDataS::Histogram { sample_count: 0, sample_sum: zero_literal(), buckets: Seq::empty() }
}

/// Merge a sample into the summary or histogram metric that groups the
/// current non-reserved label set, creating the record on first need;
/// the metric takes the accumulated labels and scratch values with it.
/// The role routes the value: `_count` sets the sample count, `_sum` the
/// sample sum, and otherwise the captured `quantile`/`le` scratch value
/// adds an observation (a sample without one contributes nothing).
pub open spec fn spec_apply_agg(m: MachineS, value: Seq<u8>, hist: bool) -> MachineS {
    let empty_data = if hist {
        spec_empty_histogram()
    } else {
        spec_empty_summary()
    };
    let fam0 = m.families[m.cur_fam];
    let k = spec_find_metric(fam0.metrics, m.cur_labels, hist, 0);
    let fams1 = if k < fam0.metrics.len() {
        m.families
    } else {
        m.families.update(
            m.cur_fam,
            FamilyS {
                metrics: fam0.metrics.push(
                    MetricS { labels: m.cur_labels, data: empty_data, timestamp_ms: None },
                ),
                ..fam0
            },
        )
    };
    let fam = fams1[m.cur_fam];
    let old_data = fam.metrics[k].data;
    let new_data = if hist {
        match old_data {
            MetricDataS::Histogram { sample_count, sample_sum, buckets } => match m.role {
                Role::Count => MetricDataS::Histogram {
                    sample_count: spec_trunc_u64(value),
                    sample_sum,
                    buckets,
                },
                Role::Sum => MetricDataS::Histogram { sample_count, sample_sum: value, buckets },
                _ => match m.cur_bucket {
                    Some(ub) => MetricDataS::Histogram {
                        sample_count,
                        sample_sum,
                        buckets: buckets.push(
                            BucketS { upper_bound: ub, cumulative_count: spec_trunc_u64(value) },
                        ),
                    },
                    None => old_data,
                },
            },
            _ => old_data,
        }
    } else {
        match old_data {
            MetricDataS::Summary { sample_count, sample_sum, quantiles } => match m.role {
                Role::Count => MetricDataS::Summary {
                    sample_count: spec_trunc_u64(value),
                    sample_sum,
                    quantiles,
                },
                Role::Sum => MetricDataS::Summary { sample_count, sample_sum: value, quantiles },
                _ => match m.cur_quantile {
                    Some(q) => MetricDataS::Summary {
                        sample_count,
                        sample_sum,
                        quantiles: quantiles.push(QuantileS { quantile: q, value }),
                    },
                    None => old_data,
                },
            },
            _ => old_data,
        }
    };
    let metric2 = MetricS { data: new_data, ..fam.metrics[k] };
    MachineS {
        families: fams1.update(m.cur_fam, FamilyS { metrics: fam.metrics.update(k, metric2), ..fam }),
        last_metric: k,
        cur_labels: Seq::empty(),
        cur_quantile: None,
        cur_bucket: None,
        ..m
    }
}

/// Route a parsed value token by the current family's type.
pub open spec fn spec_apply_sample(m: MachineS, value: Seq<u8>) -> MachineS {
    let fam = m.families[m.cur_fam];
    match fam.metric_type {
        MetricType::Counter => spec_push_simple(m, MetricDataS::Counter { value }),
        MetricType::Gauge => spec_push_simple(m, MetricDataS::Gauge { value }),
        MetricType::Untyped => spec_push_simple(m, MetricDataS::Untyped { value }),
        MetricType::Summary => spec_apply_agg(m, value, false),
        MetricType::Histogram => spec_apply_agg(m, value, true),
    }
}

/// Attach a timestamp to the metric the last sample touched.
pub open spec fn spec_set_timestamp(m: MachineS, ts: i64) -> MachineS {
    let fam = m.families[m.cur_fam];
    let metric = fam.metrics[m.last_metric];
    let metric2 = MetricS { timestamp_ms: Some(ts), ..metric };
    MachineS {
        families: m.families.update(
            m.cur_fam,
            FamilyS { metrics: fam.metrics.update(m.last_metric, metric2), ..fam },
        ),
        ..m
    }
}

/// Start of a line: count it, skip blanks, and dispatch on the first
/// byte; a clean end of input here ends the parse.
pub open spec fn step_start_of_line(t: Seq<u8>, p: int, m: MachineS) -> Step {
    let m1 = MachineS { line: m.line + 1, ..m };
    let q = spec_skip_blanks(t, p);
    if q >= t.len() {
        Step::Done { families: m1.families }
    } else if t[q] == 0x23 {  // '#'
        Step::Next { st: State::StartComment, pos: q + 1, m: m1 }
    } else if t[q] == 0x0a {
        Step::Next { st: State::StartOfLine, pos: q + 1, m: m1 }
    } else {
        Step::Next { st: State::ReadingMetricName, pos: q, m: m1 }
    }
}

/// After `#`: a `HELP` or `TYPE` keyword introduces a directive — read
/// the family name, create the family, and go read the payload; any
/// other token makes the line an ordinary comment, skipped whole.
pub open spec fn step_start_comment(t: Seq<u8>, p: int, m: MachineS) -> Step {
    let q = spec_skip_blanks(t, p);
    if q >= t.len() {
        Step::Done { families: m.families }
    } else if t[q] == 0x0a {
        Step::Next { st: State::StartOfLine, pos: q + 1, m }
    } else {
        let j = spec_token_end(t, q);
        let kw = t.subrange(q, j);
        if j >= t.len() {
            Step::Next { st: State::StartOfLine, pos: t.len() as int, m }
        } else if t[j] == 0x0a {
            Step::Next { st: State::StartOfLine, pos: j + 1, m }
        } else if kw != help_keyword() && kw != type_keyword() {
            let r = spec_line_end(t, j);
            Step::Next {
                st: State::StartOfLine,
                pos: if r < t.len() {
                    r + 1
                } else {
                    r
                },
                m,
            }
        } else {
            let q2 = spec_skip_blanks(t, j);
            let e = spec_metric_name_end(t, q2);
            if e == q2 {
                if q2 >= t.len() {
                    Step::Next { st: State::StartOfLine, pos: t.len() as int, m }
                } else if t[q2] == 0x0a {
                    Step::Next { st: State::StartOfLine, pos: q2 + 1, m }
                } else {
                    Step::Failed { kind: ErrorKind::InvalidMetricName, line: m.line, at: q2 }
                }
            } else {
                let name = t.subrange(q2, e);
                let gc = spec_get_or_create(m.families, name);
                let m2 = MachineS { families: gc.0, cur_fam: gc.1, ..m };
                if e >= t.len() {
                    Step::Next { st: State::StartOfLine, pos: t.len() as int, m: m2 }
                } else if t[e] == 0x0a {
                    Step::Next { st: State::StartOfLine, pos: e + 1, m: m2 }
                } else if !spec_is_blank_or_tab(t[e]) {
                    Step::Failed { kind: ErrorKind::InvalidMetricName, line: m.line, at: e }
                } else {
                    let q3 = spec_skip_blanks(t, e);
                    if q3 >= t.len() {
                        Step::Next { st: State::StartOfLine, pos: t.len() as int, m: m2 }
                    } else if t[q3] == 0x0a {
                        Step::Next { st: State::StartOfLine, pos: q3 + 1, m: m2 }
                    } else if kw == help_keyword() {
                        Step::Next { st: State::ReadingHelp, pos: q3, m: m2 }
                    } else {
                        Step::Next { st: State::ReadingType, pos: q3, m: m2 }
                    }
                }
            }
        }
    }
}

/// The HELP payload: the rest of the line with escapes decoded becomes
/// the family's help; a family that already has non-empty help fails.
pub open spec fn step_reading_help(t: Seq<u8>, p: int, m: MachineS) -> Step {
    if p >= t.len() {
        Step::Done { families: m.families }
    } else {
        match spec_scan_escaped_line(t, p, Seq::empty()) {
            ScanResult::Failed { kind, at } => Step::Failed { kind, line: m.line, at },
            ScanResult::Done { token, end } => {
                if m.families[m.cur_fam].help.len() > 0 {
                    Step::Failed { kind: ErrorKind::DuplicateHelp, line: m.line, at: p }
                } else {
                    let fam2 = FamilyS { help: token, ..m.families[m.cur_fam] };
                    Step::Next {
                        st: State::StartOfLine,
                        pos: end,
                        m: MachineS { families: m.families.update(m.cur_fam, fam2), ..m },
                    }
                }
            },
        }
    }
}

/// The TYPE payload: the rest of the line names the type; anything but
/// the four known tokens reads as untyped.
pub open spec fn step_reading_type(t: Seq<u8>, p: int, m: MachineS) -> Step {
    if p >= t.len() {
        Step::Done { families: m.families }
    } else {
        let r = spec_line_end(t, p);
        let token = t.subrange(p, r);
        let ty = if token == counter_token() {
            MetricType::Counter
        } else if token == gauge_token() {
            MetricType::Gauge
        } else if token == summary_token() {
            MetricType::Summary
        } else if token == histogram_token() {
            MetricType::Histogram
        } else {
            MetricType::Untyped
        };
        let fam2 = FamilyS { metric_type: ty, ..m.families[m.cur_fam] };
        Step::Next {
            st: State::StartOfLine,
            pos: if r < t.len() {
                r + 1
            } else {
                r
            },
            m: MachineS { families: m.families.update(m.cur_fam, fam2), ..m },
        }
    }
}

/// A sample line's metric name: scan it, resolve which family the sample
/// belongs to and in which role, and reset the per-metric accumulators.
pub open spec fn step_reading_metric_name(t: Seq<u8>, p: int, m: MachineS) -> Step {
    let e = spec_metric_name_end(t, p);
    if e == p {
        Step::Failed { kind: ErrorKind::InvalidMetricName, line: m.line, at: p }
    } else {
        let name = t.subrange(p, e);
        let rs = spec_resolve_sample(m.families, name);
        let m2 = MachineS {
            families: rs.0,
            cur_fam: rs.1,
            role: rs.2,
            cur_labels: Seq::empty(),
            cur_quantile: None,
            cur_bucket: None,
            ..m
        };
        let q = if e < t.len() && spec_is_blank_or_tab(t[e]) {
            spec_skip_blanks(t, e)
        } else {
            e
        };
        Step::Next { st: State::ReadingLabels, pos: q, m: m2 }
    }
}

/// After the name: an opening brace starts the label block, anything
/// else is already the value.
pub open spec fn step_reading_labels(t: Seq<u8>, p: int, m: MachineS) -> Step {
    if p < t.len() && t[p] == 0x7b {  // '{'
        Step::Next { st: State::StartLabelName, pos: p + 1, m }
    } else {
        Step::Next { st: State::ReadingValue, pos: p, m }
    }
}

/// A label name, or the closing brace of the label block. The reserved
/// name `__name__` is rejected; after the name an `=` must follow.
pub open spec fn step_start_label_name(t: Seq<u8>, p: int, m: MachineS) -> Step {
    let q = spec_skip_blanks(t, p);
    if q < t.len() && t[q] == 0x7d {  // '}'
        Step::Next { st: State::ReadingValue, pos: spec_skip_blanks(t, q + 1), m }
    } else {
        let e = spec_label_name_end(t, q);
        if e == q {
            Step::Failed { kind: ErrorKind::InvalidLabelName, line: m.line, at: q }
        } else {
            let name = t.subrange(q, e);
            if name == reserved_label() {
                Step::Failed { kind: ErrorKind::ReservedLabelName, line: m.line, at: q }
            } else {
                let q2 = if e < t.len() && spec_is_blank_or_tab(t[e]) {
                    spec_skip_blanks(t, e)
                } else {
                    e
                };
                if q2 >= t.len() || t[q2] != 0x3d {  // '='
                    Step::Failed { kind: ErrorKind::MissingEquals, line: m.line, at: q2 }
                } else {
                    Step::Next {
                        st: State::StartLabelValue,
                        pos: q2 + 1,
                        m: MachineS { pending_label: name, ..m },
                    }
                }
            }
        }
    }
}

/// A quoted label value. For a summary's `quantile` and a histogram's
/// `le` the value must parse as a float and goes to the scratch slot;
/// any other label is appended to the metric's labels. A comma continues
/// the block, a closing brace leads to the value.
pub open spec fn step_start_label_value(t: Seq<u8>, p: int, m: MachineS) -> Step {
    let q = spec_skip_blanks(t, p);
    if q >= t.len() || t[q] != 0x22 {  // '"'
        Step::Failed { kind: ErrorKind::MissingOpenQuote, line: m.line, at: q }
    } else {
        match spec_scan_label_value(t, q + 1, Seq::empty()) {
            ScanResult::Failed { kind, at } => Step::Failed { kind, line: m.line, at },
            ScanResult::Done { token, end } => {
                let fam = m.families[m.cur_fam];
                let is_q = fam.metric_type == MetricType::Summary && m.pending_label
                    == quantile_label();
                let is_le = fam.metric_type == MetricType::Histogram && m.pending_label
                    == le_label();
                if (is_q || is_le) && !spec_is_float_literal(token) {
                    Step::Failed { kind: ErrorKind::InvalidFloat, line: m.line, at: q + 1 }
                } else {
                    let m2 = if is_q {
                        MachineS { cur_quantile: Some(token), ..m }
                    } else if is_le {
                        MachineS { cur_bucket: Some(token), ..m }
                    } else {
                        MachineS {
                            cur_labels: m.cur_labels.push(
                                LabelPairS { name: m.pending_label, value: token },
                            ),
                            ..m
                        }
                    };
                    let s = spec_skip_blanks(t, end);
                    if s < t.len() && t[s] == 0x2c {  // ','
                        Step::Next { st: State::StartLabelName, pos: s + 1, m: m2 }
                    } else if s < t.len() && t[s] == 0x7d {  // '}'
                        Step::Next {
                            st: State::ReadingValue,
                            pos: spec_skip_blanks(t, s + 1),
                            m: m2,
                        }
                    } else {
                        Step::Failed {
                            kind: ErrorKind::UnterminatedLabelValue,
                            line: m.line,
                            at: s,
                        }
                    }
                }
            },
        }
    }
}

/// The sample value: a float literal, routed by the family's type. A
/// newline or the end of input ends the line; anything else must be a
/// timestamp.
pub open spec fn step_reading_value(t: Seq<u8>, p: int, m: MachineS) -> Step {
    let j = spec_token_end(t, p);
    let token = t.subrange(p, j);
    if !spec_is_float_literal(token) {
        Step::Failed { kind: ErrorKind::InvalidFloat, line: m.line, at: p }
    } else {
        let m2 = spec_apply_sample(m, token);
        if j >= t.len() {
            Step::Next { st: State::StartOfLine, pos: t.len() as int, m: m2 }
        } else if t[j] == 0x0a {
            Step::Next { st: State::StartOfLine, pos: j + 1, m: m2 }
        } else {
            Step::Next { st: State::StartTimestamp, pos: j, m: m2 }
        }
    }
}

/// An optional timestamp in milliseconds: a signed integer attached to
/// the metric the sample touched; then the line must end.
pub open spec fn step_start_timestamp(t: Seq<u8>, p: int, m: MachineS) -> Step {
    let q = spec_skip_blanks(t, p);
    if q >= t.len() {
        Step::Done { families: m.families }
    } else if t[q] == 0x0a {
        Step::Next { st: State::StartOfLine, pos: q + 1, m }
    } else {
        let j = spec_token_end(t, q);
        let token = t.subrange(q, j);
        match spec_parse_i64(token) {
            None => Step::Failed { kind: ErrorKind::InvalidInteger, line: m.line, at: q },
            Some(ts) => {
                let m2 = spec_set_timestamp(m, ts);
                let s = spec_skip_blanks(t, j);
                if s >= t.len() {
                    Step::Next { st: State::StartOfLine, pos: t.len() as int, m: m2 }
                } else if t[s] == 0x0a {
                    Step::Next { st: State::StartOfLine, pos: s + 1, m: m2 }
                } else {
                    Step::Failed { kind: ErrorKind::InvalidInteger, line: m.line, at: s }
                }
            },
        }
    }
}

/// Dispatch one transition.
pub open spec fn spec_step(t: Seq<u8>, p: int, st: State, m: MachineS) -> Step {
    match st {
        State::StartOfLine => step_start_of_line(t, p, m),
        State::StartComment => step_start_comment(t, p, m),
        State::ReadingHelp => step_reading_help(t, p, m),
        State::ReadingType => step_reading_type(t, p, m),
        State::ReadingMetricName => step_reading_metric_name(t, p, m),
        State::ReadingLabels => step_reading_labels(t, p, m),
        State::StartLabelName => step_start_label_name(t, p, m),
        State::StartLabelValue => step_start_label_value(t, p, m),
        State::ReadingValue => step_reading_value(t, p, m),
        State::StartTimestamp => step_start_timestamp(t, p, m),
    }
}

/// Every transition stays inside the input and either consumes a byte or
/// drops to a state of lower rank.
pub proof fn lemma_step_progress(t: Seq<u8>, p: int, st: State, m: MachineS)
    requires
        0 <= p <= t.len(),
    ensures
        spec_step(t, p, st, m) matches Step::Next { st: st2, pos, .. } ==> p <= pos <= t.len() && (
        pos > p || state_rank(st2) < state_rank(st)),
{
    lemma_skip_blanks(t, p);
    match st {
        State::StartOfLine => {
        },
        State::StartComment => {
            let q = spec_skip_blanks(t, p);
            if q < t.len() && t[q] != 0x0a {
                lemma_token_end(t, q);
                let j = spec_token_end(t, q);
                assert(j > q);
                if j < t.len() && t[j] != 0x0a {
                    lemma_line_end(t, j);
                    let kw = t.subrange(q, j);
                    if kw == help_keyword() || kw == type_keyword() {
                        lemma_skip_blanks(t, j);
                        let q2 = spec_skip_blanks(t, j);
                        lemma_name_end(t, q2);
                        let e = spec_metric_name_end(t, q2);
                        if e > q2 {
                            lemma_skip_blanks(t, e);
                        }
                    }
                }
            }
        },
        State::ReadingHelp => {
            if p < t.len() {
                lemma_scan_escaped_line_end(t, p, Seq::empty());
            }
        },
        State::ReadingType => {
            if p < t.len() {
                lemma_line_end(t, p);
            }
        },
        State::ReadingMetricName => {
            lemma_name_end(t, p);
            let e = spec_metric_name_end(t, p);
            if e > p {
                lemma_skip_blanks(t, e);
            }
        },
        State::ReadingLabels => {
        },
        State::StartLabelName => {
            let q = spec_skip_blanks(t, p);
            if q < t.len() && t[q] == 0x7d {
                lemma_skip_blanks(t, q + 1);
            } else {
                lemma_name_end_label(t, q);
                let e = spec_label_name_end(t, q);
                if e > q {
                    lemma_skip_blanks(t, e);
                }
            }
        },
        State::StartLabelValue => {
            let q = spec_skip_blanks(t, p);
            if q < t.len() && t[q] == 0x22 {
                lemma_scan_label_value_end(t, q + 1, Seq::empty());
                match spec_scan_label_value(t, q + 1, Seq::empty()) {
                    ScanResult::Done { end, .. } => {
                        lemma_skip_blanks(t, end);
                        let s = spec_skip_blanks(t, end);
                        if s < t.len() && t[s] == 0x7d {
                            lemma_skip_blanks(t, s + 1);
                        }
                    },
                    _ => {
                    },
                }
            }
        },
        State::ReadingValue => {
            lemma_token_end(t, p);
        },
        State::StartTimestamp => {
            let q = spec_skip_blanks(t, p);
            if q < t.len() && t[q] != 0x0a {
                lemma_token_end(t, q);
                let j = spec_token_end(t, q);
                lemma_skip_blanks(t, j);
            }
        },
    }
}

/// Bounds for a metric-name scan.
pub proof fn lemma_name_end(t: Seq<u8>, i: int)
    requires
        0 <= i <= t.len(),
    ensures
        i <= spec_metric_name_end(t, i) <= t.len(),
{
    if i < t.len() {
        lemma_name_cont_end(t, i + 1, true);
    }
}

/// Bounds for a label-name scan.
pub proof fn lemma_name_end_label(t: Seq<u8>, i: int)
    requires
        0 <= i <= t.len(),
    ensures
        i <= spec_label_name_end(t, i) <= t.len(),
{
    if i < t.len() {
        lemma_name_cont_end(t, i + 1, false);
    }
}

/// In every state that touches the current family, its index is in the
/// registry; where a timestamp may attach, the metric index is in the
/// family.
pub open spec fn state_inv(st: State, m: MachineS) -> bool {
    &&& (match st {
        State::ReadingHelp | State::ReadingType | State::ReadingLabels | State::StartLabelName
            | State::StartLabelValue | State::ReadingValue | State::StartTimestamp => 0
            <= m.cur_fam < m.families.len(),
        _ => true,
    })
    &&& (st == State::StartTimestamp ==> 0 <= m.last_metric
        < m.families[m.cur_fam].metrics.len())
}

/// Transitions preserve the state invariant.
pub proof fn lemma_step_inv(t: Seq<u8>, p: int, st: State, m: MachineS)
    requires
        0 <= p <= t.len(),
        state_inv(st, m),
    ensures
        spec_step(t, p, st, m) matches Step::Next { st: st2, m: m2, .. } ==> state_inv(st2, m2),
{
    match st {
        State::StartComment => {
            let q = spec_skip_blanks(t, p);
            if q < t.len() && t[q] != 0x0a {
                let j = spec_token_end(t, q);
                let kw = t.subrange(q, j);
                if j < t.len() && t[j] != 0x0a && (kw == help_keyword() || kw == type_keyword()) {
                    let q2 = spec_skip_blanks(t, j);
                    let e = spec_metric_name_end(t, q2);
                    if e != q2 {
                        let name = t.subrange(q2, e);
                        lemma_find_family(m.families, name, 0);
                    }
                }
            }
        },
        State::ReadingMetricName => {
            let e = spec_metric_name_end(t, p);
            if e != p {
                let name = t.subrange(p, e);
                lemma_find_family(m.families, spec_base_name(name), 0);
                lemma_find_family(m.families, name, 0);
            }
        },
        State::ReadingValue => {
            let j = spec_token_end(t, p);
            let token = t.subrange(p, j);
            if spec_is_float_literal(token) {
                let fam = m.families[m.cur_fam];
                match fam.metric_type {
                    MetricType::Summary => {
                        lemma_find_metric(fam.metrics, m.cur_labels, false, 0);
                    },
                    MetricType::Histogram => {
                        lemma_find_metric(fam.metrics, m.cur_labels, true, 0);
                    },
                    _ => {
                    },
                }
            }
        },
        _ => {
        },
    }
}

/// The line counter stays below the position: at the start of a line it
/// is at most the position, elsewhere at most one more.
pub open spec fn line_inv(st: State, p: int, m: MachineS) -> bool {
    if st == State::StartOfLine {
        m.line <= p
    } else {
        m.line <= p + 1
    }
}

/// Transitions preserve the line bound.
pub proof fn lemma_step_line(t: Seq<u8>, p: int, st: State, m: MachineS)
    requires
        0 <= p <= t.len(),
        line_inv(st, p, m),
    ensures
        spec_step(t, p, st, m) matches Step::Next { st: st2, pos, m: m2 } ==> line_inv(
            st2,
            pos,
            m2,
        ),
{
    lemma_step_progress(t, p, st, m);
}

/// Run the automaton to its end.
pub open spec fn spec_run(t: Seq<u8>, p: int, st: State, m: MachineS) -> Outcome
    decreases t.len() - p, state_rank(st)
        when 0 <= p <= t.len()
        via spec_run_decreases
{
    match spec_step(t, p, st, m) {
        Step::Next { st: st2, pos, m: m2 } => spec_run(t, pos, st2, m2),
        Step::Done { families } => Outcome::Done { families },
        Step::Failed { kind, line, at } => Outcome::Failed { kind, line, at },
    }
}

#[via_fn]
proof fn spec_run_decreases(t: Seq<u8>, p: int, st: State, m: MachineS) {
    lemma_step_progress(t, p, st, m);
}

/// What a whole input parses to.
pub open spec fn spec_parse(t: Seq<u8>) -> Outcome {
    spec_run(t, 0, State::StartOfLine, init_machine())
}

} // verus!
