//! Laws: properties of the parser stated and proved once, over the
//! specification machine.

use vstd::prelude::*;
use crate::format::{spec_escape_label_value, spec_escape_help, esc_label_byte, esc_help_byte};
use crate::machine::{
    MachineS,
    State,
    Step,
    Outcome,
    state_rank,
    spec_step,
    spec_run,
    spec_parse,
    init_machine,
    step_reading_help,
    step_start_label_name,
    spec_apply_agg,
    reserved_label,
    lemma_step_progress,
};
use crate::model::{
    ErrorKind,
    MetricDataS,
    MetricS,
    LabelPairS,
    spec_label_sets_match,
    spec_has_agg_shape,
    spec_find_metric,
    lemma_find_metric,
};
use crate::names::Role;
use crate::num::spec_trunc_u64;
use crate::scan::{
    ScanResult,
    spec_scan_label_value,
    spec_scan_escaped_line,
    spec_skip_blanks,
    spec_token_end,
    spec_line_end,
    spec_label_name_end,
    spec_metric_name_end,
    lemma_skip_blanks,
    lemma_token_end,
    lemma_line_end,
    lemma_scan_label_value_end,
    lemma_scan_escaped_line_end,
};

verus! {

/// The number of newline bytes strictly before `p`.
pub open spec fn count_lf(t: Seq<u8>, p: int) -> nat
    decreases p when p <= t.len()
{
    if p <= 0 {
        0
    } else {
        count_lf(t, p - 1) + (if t[p - 1] == 0x0a {
            1nat
        } else {
            0nat
        })
    }
}

/// A range without newlines does not change the count.
pub proof fn lemma_count_lf_same(t: Seq<u8>, a: int, b: int)
    requires
        0 <= a <= b <= t.len(),
        forall|k: int| a <= k < b ==> t[k] != 0x0a,
    ensures
        count_lf(t, b) == count_lf(t, a),
    decreases b - a,
{
    if a < b {
        lemma_count_lf_same(t, a, b - 1);
    }
}

/// The label-value scanner never passes a raw newline.
pub proof fn lemma_scan_label_value_no_lf(t: Seq<u8>, p: int, acc: Seq<u8>)
    requires
        0 <= p <= t.len(),
    ensures
        spec_scan_label_value(t, p, acc) matches ScanResult::Done { end, .. } ==> forall|k: int|
            p <= k < end ==> t[k] != 0x0a,
        spec_scan_label_value(t, p, acc) matches ScanResult::Failed { at, .. } ==> forall|k: int|
            p <= k < at ==> t[k] != 0x0a,
    decreases t.len() - p,
{
    if p >= t.len() {
    } else if t[p] == 0x22 || t[p] == 0x0a {
    } else if t[p] == 0x5c {
        if p + 1 < t.len() && (t[p + 1] == 0x22 || t[p + 1] == 0x5c) {
            lemma_scan_label_value_no_lf(t, p + 2, acc.push(t[p + 1]));
        } else if p + 1 < t.len() && t[p + 1] == 0x6e {
            lemma_scan_label_value_no_lf(t, p + 2, acc.push(0x0a));
        }
    } else {
        lemma_scan_label_value_no_lf(t, p + 1, acc.push(t[p]));
    }
}

/// The escaped-line scanner consumes at most the one newline that ends
/// the line.
pub proof fn lemma_scan_escaped_line_no_lf(t: Seq<u8>, p: int, acc: Seq<u8>)
    requires
        0 <= p <= t.len(),
    ensures
        spec_scan_escaped_line(t, p, acc) matches ScanResult::Done { end, .. } ==> (end == t.len()
            && (forall|k: int| p <= k < end ==> t[k] != 0x0a)) || (p < end <= t.len() && t[end - 1]
            == 0x0a && (forall|k: int| p <= k < end - 1 ==> t[k] != 0x0a)),
        spec_scan_escaped_line(t, p, acc) matches ScanResult::Failed { at, .. } ==> forall|k: int|
            p <= k < at ==> t[k] != 0x0a,
    decreases t.len() - p,
{
    if p >= t.len() {
    } else if t[p] == 0x0a {
    } else if t[p] == 0x5c {
        if p + 1 < t.len() && t[p + 1] == 0x5c {
            lemma_scan_escaped_line_no_lf(t, p + 2, acc.push(0x5c));
        } else if p + 1 < t.len() && t[p + 1] == 0x6e {
            lemma_scan_escaped_line_no_lf(t, p + 2, acc.push(0x0a));
        }
    } else {
        lemma_scan_escaped_line_no_lf(t, p + 1, acc.push(t[p]));
    }
}

/// The inductive line-count bookkeeping: at the start of a line, the
/// counter equals the newlines consumed; inside a line, one more (a
/// line past the end never raises an error).
pub open spec fn lines_inv(t: Seq<u8>, p: int, st: State, m: MachineS) -> bool {
    if st == State::StartOfLine {
        m.line == count_lf(t, p) || p >= t.len()
    } else {
        m.line == 1 + count_lf(t, p)
    }
}

/// One step keeps the bookkeeping, and any error it raises carries the
/// 1-based index of the line holding the offending position.
pub proof fn lemma_step_lines(t: Seq<u8>, p: int, st: State, m: MachineS)
    requires
        0 <= p <= t.len(),
        lines_inv(t, p, st, m),
    ensures
        spec_step(t, p, st, m) matches Step::Next { st: st2, pos, m: m2 } ==> lines_inv(
            t,
            pos,
            st2,
            m2,
        ),
        spec_step(t, p, st, m) matches Step::Failed { line, at, .. } ==> 0 <= at <= t.len()
            && line == 1 + count_lf(t, at),
{
    lemma_step_progress(t, p, st, m);
    lemma_skip_blanks(t, p);
    let q = spec_skip_blanks(t, p);
    lemma_count_lf_same(t, p, q);
    match st {
        State::StartOfLine => {
            if q < t.len() {
                assert(count_lf(t, q + 1) == count_lf(t, q) + (if t[q] == 0x0a {
                    1nat
                } else {
                    0nat
                }));
            }
        },
        State::StartComment => {
            if q < t.len() && t[q] != 0x0a {
                lemma_token_end(t, q);
                let j = spec_token_end(t, q);
                lemma_count_lf_same(t, q, j);
                if j < t.len() && t[j] != 0x0a {
                    lemma_line_end(t, j);
                    let r = spec_line_end(t, j);
                    lemma_count_lf_same(t, j, r);
                    let q2 = spec_skip_blanks(t, j);
                    lemma_skip_blanks(t, j);
                    lemma_count_lf_same(t, j, q2);
                    let e = spec_metric_name_end(t, q2);
                    crate::machine::lemma_name_end(t, q2);
                    lemma_no_lf_in_name(t, q2);
                    lemma_count_lf_same(t, q2, e);
                    if e > q2 {
                        let q3 = spec_skip_blanks(t, e);
                        lemma_skip_blanks(t, e);
                        lemma_count_lf_same(t, e, q3);
                    }
                }
            }
        },
        State::ReadingHelp => {
            if p < t.len() {
                lemma_scan_escaped_line_no_lf(t, p, Seq::empty());
                lemma_scan_escaped_line_end(t, p, Seq::empty());
                match spec_scan_escaped_line(t, p, Seq::empty()) {
                    ScanResult::Done { end, .. } => {
                        if end == t.len() && (forall|k: int| p <= k < end ==> t[k] != 0x0a) {
                            lemma_count_lf_same(t, p, end);
                        } else {
                            lemma_count_lf_same(t, p, end - 1);
                            assert(count_lf(t, end) == count_lf(t, end - 1) + 1);
                        }
                    },
                    ScanResult::Failed { at, .. } => {
                        lemma_count_lf_same(t, p, at);
                    },
                }
            }
        },
        State::ReadingType => {
            if p < t.len() {
                lemma_line_end(t, p);
                let r = spec_line_end(t, p);
                lemma_count_lf_same(t, p, r);
                if r < t.len() {
                    assert(count_lf(t, r + 1) == count_lf(t, r) + 1);
                }
            }
        },
        State::ReadingMetricName => {
            let e = spec_metric_name_end(t, p);
            crate::machine::lemma_name_end(t, p);
            lemma_no_lf_in_name(t, p);
            lemma_count_lf_same(t, p, e);
            if e > p {
                if e < t.len() && crate::chars::spec_is_blank_or_tab(t[e]) {
                    lemma_skip_blanks(t, e);
                    lemma_count_lf_same(t, e, spec_skip_blanks(t, e));
                }
            }
        },
        State::ReadingLabels => {
        },
        State::StartLabelName => {
            if q < t.len() && t[q] == 0x7d {
                lemma_skip_blanks(t, q + 1);
                lemma_count_lf_same(t, q + 1, spec_skip_blanks(t, q + 1));
            } else {
                let e = spec_label_name_end(t, q);
                crate::machine::lemma_name_end_label(t, q);
                lemma_no_lf_in_label_name(t, q);
                lemma_count_lf_same(t, q, e);
                if e > q {
                    if e < t.len() && crate::chars::spec_is_blank_or_tab(t[e]) {
                        lemma_skip_blanks(t, e);
                        lemma_count_lf_same(t, e, spec_skip_blanks(t, e));
                    }
                }
            }
        },
        State::StartLabelValue => {
            if q < t.len() && t[q] == 0x22 {
                lemma_scan_label_value_no_lf(t, q + 1, Seq::empty());
                lemma_scan_label_value_end(t, q + 1, Seq::empty());
                lemma_count_lf_same(t, q, q + 1);
                match spec_scan_label_value(t, q + 1, Seq::empty()) {
                    ScanResult::Done { end, .. } => {
                        lemma_count_lf_same(t, q + 1, end);
                        lemma_skip_blanks(t, end);
                        let s = spec_skip_blanks(t, end);
                        lemma_count_lf_same(t, end, s);
                        if s < t.len() && t[s] == 0x7d {
                            lemma_skip_blanks(t, s + 1);
                            lemma_count_lf_same(t, s + 1, spec_skip_blanks(t, s + 1));
                        }
                    },
                    ScanResult::Failed { at, .. } => {
                        lemma_count_lf_same(t, q + 1, at);
                    },
                }
            }
        },
        State::ReadingValue => {
            lemma_token_end(t, p);
            let j = spec_token_end(t, p);
            lemma_count_lf_same(t, p, j);
            if j < t.len() && t[j] == 0x0a {
                assert(count_lf(t, j + 1) == count_lf(t, j) + 1);
            }
        },
        State::StartTimestamp => {
            if q < t.len() && t[q] != 0x0a {
                lemma_token_end(t, q);
                let j = spec_token_end(t, q);
                lemma_count_lf_same(t, q, j);
                lemma_skip_blanks(t, j);
                let s = spec_skip_blanks(t, j);
                lemma_count_lf_same(t, j, s);
                if s < t.len() && t[s] == 0x0a {
                    assert(count_lf(t, s + 1) == count_lf(t, s) + 1);
                }
            } else if q < t.len() {
                assert(count_lf(t, q + 1) == count_lf(t, q) + 1);
            }
        },
    }
}

/// Metric-name bytes are never newlines.
proof fn lemma_no_lf_in_name(t: Seq<u8>, i: int)
    requires
        0 <= i <= t.len(),
    ensures
        forall|k: int| i <= k < spec_metric_name_end(t, i) ==> t[k] != 0x0a,
{
    if 0 <= i < t.len() && crate::chars::spec_is_metric_name_start_byte(t[i]) {
        lemma_name_chars(t, i + 1, true);
        assert forall|k: int| i <= k < spec_metric_name_end(t, i) implies t[k] != 0x0a by {
            if k > i {
                assert(crate::chars::spec_is_metric_name_cont_byte(t[k]));
            }
        }
    }
}

/// Label-name bytes are never newlines.
proof fn lemma_no_lf_in_label_name(t: Seq<u8>, i: int)
    requires
        0 <= i <= t.len(),
    ensures
        forall|k: int| i <= k < spec_label_name_end(t, i) ==> t[k] != 0x0a,
{
    if 0 <= i < t.len() && crate::chars::spec_is_label_name_start_byte(t[i]) {
        lemma_name_chars(t, i + 1, false);
        assert forall|k: int| i <= k < spec_label_name_end(t, i) implies t[k] != 0x0a by {
            if k > i {
                assert(crate::chars::spec_is_label_name_cont_byte(t[k]));
            }
        }
    }
}

proof fn lemma_name_chars(t: Seq<u8>, i: int, metric: bool)
    requires
        0 <= i <= t.len(),
    ensures
        forall|k: int|
            i <= k < crate::scan::spec_name_cont_end(t, i, metric) ==> (if metric {
                crate::chars::spec_is_metric_name_cont_byte(t[k])
            } else {
                crate::chars::spec_is_label_name_cont_byte(t[k])
            }),
    decreases t.len() - i,
{
    if i < t.len() && (if metric {
        crate::chars::spec_is_metric_name_cont_byte(t[i])
    } else {
        crate::chars::spec_is_label_name_cont_byte(t[i])
    }) {
        lemma_name_chars(t, i + 1, metric);
    }
}

/// The bookkeeping holds along any run, so any error's line number is
/// accurate.
proof fn lemma_run_lines(t: Seq<u8>, p: int, st: State, m: MachineS)
    requires
        0 <= p <= t.len(),
        lines_inv(t, p, st, m),
    ensures
        spec_run(t, p, st, m) matches Outcome::Failed { line, at, .. } ==> 0 <= at <= t.len()
            && line == 1 + count_lf(t, at),
    decreases t.len() - p, state_rank(st),
{
    lemma_step_progress(t, p, st, m);
    lemma_step_lines(t, p, st, m);
    match spec_step(t, p, st, m) {
        Step::Next { st: st2, pos, m: m2 } => {
            lemma_run_lines(t, pos, st2, m2);
        },
        Step::Done { .. } => {
        },
        Step::Failed { .. } => {
        },
    }
}

/// Line counter accuracy: the line number attached to an error is the
/// 1-based index of the line holding the offending byte — one more than
/// the number of newlines strictly before that position.
pub proof fn lemma_error_line_accurate(t: Seq<u8>)
    ensures
        spec_parse(t) matches Outcome::Failed { line, at, .. } ==> 0 <= at <= t.len() && line == 1
            + count_lf(t, at),
{
    lemma_run_lines(t, 0, State::StartOfLine, init_machine());
}

/// A label set matches itself.
pub proof fn lemma_label_sets_match_refl(a: Seq<LabelPairS>)
    ensures
        spec_label_sets_match(a, a),
{
    assert forall|i: int| 0 <= i < a.len() implies a.contains(a[i]) by {
        assert(a[i] == a[i]);
    }
}

/// Suffix routing, `_count`: merging a count sample into a summary or
/// histogram family leaves exactly one aggregate metric matching the
/// sample's label set, and its sample count is the sample's value
/// truncated. The family is assumed not to hold two aggregate metrics
/// with matching label sets; merging never creates such a pair, since a
/// sample always lands in the first match.
pub proof fn lemma_suffix_routing_count(m: MachineS, value: Seq<u8>, hist: bool)
    requires
        0 <= m.cur_fam < m.families.len(),
        m.role == Role::Count,
        no_matching_pair(m.families[m.cur_fam].metrics, hist),
    ensures
        ({
            let fam0 = m.families[m.cur_fam];
            let k = spec_find_metric(fam0.metrics, m.cur_labels, hist, 0);
            let fam2 = spec_apply_agg(m, value, hist).families[m.cur_fam];
            &&& 0 <= k < fam2.metrics.len()
            &&& spec_label_sets_match(fam2.metrics[k].labels, m.cur_labels)
            &&& spec_has_agg_shape(fam2.metrics[k].data, hist)
            &&& agg_count(fam2.metrics[k].data) == spec_trunc_u64(value)
            &&& forall|j: int|
                0 <= j < fam2.metrics.len() && j != k ==> !(spec_has_agg_shape(
                    fam2.metrics[j].data,
                    hist,
                ) && spec_label_sets_match(fam2.metrics[j].labels, m.cur_labels))
        }),
{
    lemma_routing_shared(m, value, hist);
}

/// Suffix routing, `_sum`: the matching aggregate metric's sample sum
/// becomes the sample's value token.
pub proof fn lemma_suffix_routing_sum(m: MachineS, value: Seq<u8>, hist: bool)
    requires
        0 <= m.cur_fam < m.families.len(),
        m.role == Role::Sum,
        no_matching_pair(m.families[m.cur_fam].metrics, hist),
    ensures
        ({
            let fam0 = m.families[m.cur_fam];
            let k = spec_find_metric(fam0.metrics, m.cur_labels, hist, 0);
            let fam2 = spec_apply_agg(m, value, hist).families[m.cur_fam];
            &&& 0 <= k < fam2.metrics.len()
            &&& spec_label_sets_match(fam2.metrics[k].labels, m.cur_labels)
            &&& spec_has_agg_shape(fam2.metrics[k].data, hist)
            &&& agg_sum(fam2.metrics[k].data) == value
            &&& forall|j: int|
                0 <= j < fam2.metrics.len() && j != k ==> !(spec_has_agg_shape(
                    fam2.metrics[j].data,
                    hist,
                ) && spec_label_sets_match(fam2.metrics[j].labels, m.cur_labels))
        }),
{
    lemma_routing_shared(m, value, hist);
}

/// The shared argument: where the sample lands, what stands there, and
/// that nothing else matches.
proof fn lemma_routing_shared(m: MachineS, value: Seq<u8>, hist: bool)
    requires
        0 <= m.cur_fam < m.families.len(),
        no_matching_pair(m.families[m.cur_fam].metrics, hist),
    ensures
        ({
            let fam0 = m.families[m.cur_fam];
            let k = spec_find_metric(fam0.metrics, m.cur_labels, hist, 0);
            let fam2 = spec_apply_agg(m, value, hist).families[m.cur_fam];
            &&& 0 <= k < fam2.metrics.len()
            &&& spec_label_sets_match(fam2.metrics[k].labels, m.cur_labels)
            &&& spec_has_agg_shape(fam2.metrics[k].data, hist)
            &&& (m.role == Role::Count ==> agg_count(fam2.metrics[k].data) == spec_trunc_u64(
                value,
            ))
            &&& (m.role == Role::Sum ==> agg_sum(fam2.metrics[k].data) == value)
            &&& ((m.role == Role::Bucket || m.role == Role::Plain) && hist && m.cur_bucket
                is Some ==> agg_buckets(fam2.metrics[k].data) == agg_buckets_before(m, k).push(
                crate::model::BucketS {
                    upper_bound: m.cur_bucket->0,
                    cumulative_count: spec_trunc_u64(value),
                },
            ))
            &&& forall|j: int|
                0 <= j < fam2.metrics.len() && j != k ==> !(spec_has_agg_shape(
                    fam2.metrics[j].data,
                    hist,
                ) && spec_label_sets_match(fam2.metrics[j].labels, m.cur_labels))
        }),
{
    let fam0 = m.families[m.cur_fam];
    let k = spec_find_metric(fam0.metrics, m.cur_labels, hist, 0);
    lemma_find_metric(fam0.metrics, m.cur_labels, hist, 0);
    lemma_label_sets_match_refl(m.cur_labels);
    lemma_label_sets_symmetric();
    let fam2 = spec_apply_agg(m, value, hist).families[m.cur_fam];
    if k == fam0.metrics.len() {
        // A fresh record: everything after the old metrics is the new one.
        assert(fam2.metrics.len() == fam0.metrics.len() + 1);
        assert(fam2.metrics[k].labels == m.cur_labels);
        assert forall|j: int|
            0 <= j < fam2.metrics.len() && j != k implies !(spec_has_agg_shape(
            fam2.metrics[j].data,
            hist,
        ) && spec_label_sets_match(fam2.metrics[j].labels, m.cur_labels)) by {
            assert(fam2.metrics[j] == fam0.metrics[j]);
        }
    } else {
        assert(fam2.metrics.len() == fam0.metrics.len());
        assert(fam2.metrics[k].labels == fam0.metrics[k].labels);
        assert forall|j: int|
            0 <= j < fam2.metrics.len() && j != k implies !(spec_has_agg_shape(
            fam2.metrics[j].data,
            hist,
        ) && spec_label_sets_match(fam2.metrics[j].labels, m.cur_labels)) by {
            assert(fam2.metrics[j] == fam0.metrics[j]);
            if spec_has_agg_shape(fam0.metrics[j].data, hist) && spec_label_sets_match(
                fam0.metrics[j].labels,
                m.cur_labels,
            ) {
                lemma_label_sets_trans(
                    fam0.metrics[j].labels,
                    fam0.metrics[k].labels,
                    m.cur_labels,
                );
            }
        }
    }
}

/// Suffix routing, `_bucket`: a histogram bucket sample with a captured
/// `le` bound appends one bucket with that bound and the truncated
/// value to the matching metric.
pub proof fn lemma_suffix_routing_bucket(m: MachineS, value: Seq<u8>, ub: Seq<u8>)
    requires
        0 <= m.cur_fam < m.families.len(),
        m.role == Role::Bucket || m.role == Role::Plain,
        m.cur_bucket == Some(ub),
        no_matching_pair(m.families[m.cur_fam].metrics, true),
    ensures
        ({
            let fam0 = m.families[m.cur_fam];
            let k = spec_find_metric(fam0.metrics, m.cur_labels, true, 0);
            let fam2 = spec_apply_agg(m, value, true).families[m.cur_fam];
            &&& 0 <= k < fam2.metrics.len()
            &&& spec_label_sets_match(fam2.metrics[k].labels, m.cur_labels)
            &&& spec_has_agg_shape(fam2.metrics[k].data, true)
            &&& agg_buckets(fam2.metrics[k].data) == agg_buckets_before(m, k).push(
                crate::model::BucketS { upper_bound: ub, cumulative_count: spec_trunc_u64(value) },
            )
        }),
{
    lemma_routing_shared(m, value, true);
}

/// The bucket list of the metric the sample lands in, before merging:
/// empty when the record is created fresh.
pub open spec fn agg_buckets_before(m: MachineS, k: int) -> Seq<crate::model::BucketS> {
    let fam0 = m.families[m.cur_fam];
    if k < fam0.metrics.len() {
        agg_buckets(fam0.metrics[k].data)
    } else {
        Seq::empty()
    }
}

pub open spec fn agg_count(d: MetricDataS) -> u64 {
    match d {
        MetricDataS::Summary { sample_count, .. } => sample_count,
        MetricDataS::Histogram { sample_count, .. } => sample_count,
        _ => 0,
    }
}

pub open spec fn agg_sum(d: MetricDataS) -> Seq<u8> {
    match d {
        MetricDataS::Summary { sample_sum, .. } => sample_sum,
        MetricDataS::Histogram { sample_sum, .. } => sample_sum,
        _ => Seq::empty(),
    }
}

pub open spec fn agg_buckets(d: MetricDataS) -> Seq<crate::model::BucketS> {
    match d {
        MetricDataS::Histogram { buckets, .. } => buckets,
        _ => Seq::empty(),
    }
}

/// No two aggregate metrics of the wanted shape share a label set.
pub open spec fn no_matching_pair(ms: Seq<MetricS>, hist: bool) -> bool {
    forall|i: int, j: int|
        0 <= i < ms.len() && 0 <= j < ms.len() && i != j && spec_has_agg_shape(ms[i].data, hist)
            && spec_has_agg_shape(ms[j].data, hist) ==> !spec_label_sets_match(
            ms[i].labels,
            ms[j].labels,
        )
}

/// Two label sets that both match a third match each other.
pub proof fn lemma_label_sets_trans(a: Seq<LabelPairS>, b: Seq<LabelPairS>, c: Seq<LabelPairS>)
    requires
        spec_label_sets_match(a, c),
        spec_label_sets_match(b, c),
    ensures
        spec_label_sets_match(a, b),
{
    assert forall|i: int| 0 <= i < a.len() implies b.contains(a[i]) by {
        assert(c.contains(a[i]));
        let w = choose|w: int| 0 <= w < c.len() && c[w] == a[i];
        assert(b.contains(c[w]));
    }
    assert forall|i: int| 0 <= i < b.len() implies a.contains(b[i]) by {
        assert(c.contains(b[i]));
        let w = choose|w: int| 0 <= w < c.len() && c[w] == b[i];
        assert(a.contains(c[w]));
    }
}

/// Label-set matching is symmetric.
pub proof fn lemma_label_sets_symmetric()
    ensures
        forall|a: Seq<LabelPairS>, b: Seq<LabelPairS>|
            spec_label_sets_match(a, b) ==> spec_label_sets_match(b, a),
{
}

/// Reserved label rejection: where a label block offers the name
/// `__name__`, the machine fails with `ReservedLabelName` on the
/// current line.
pub proof fn lemma_reserved_label_rejected(t: Seq<u8>, p: int, m: MachineS)
    requires
        0 <= p <= t.len(),
        ({
            let q = spec_skip_blanks(t, p);
            let e = spec_label_name_end(t, q);
            e > q && t.subrange(q, e) == reserved_label()
        }),
    ensures
        step_start_label_name(t, p, m) == (Step::Failed {
            kind: ErrorKind::ReservedLabelName,
            line: m.line,
            at: spec_skip_blanks(t, p),
        }),
{
    lemma_skip_blanks(t, p);
    let q = spec_skip_blanks(t, p);
    crate::machine::lemma_name_end_label(t, q);
    let e = spec_label_name_end(t, q);
    assert(t.subrange(q, e)[0] == t[q]);
    assert(t[q] == 0x5f);
}

/// HELP uniqueness: a further HELP payload for a family whose help is
/// already set fails with `DuplicateHelp` on the current line.
pub proof fn lemma_duplicate_help_rejected(t: Seq<u8>, p: int, m: MachineS)
    requires
        0 <= p < t.len(),
        0 <= m.cur_fam < m.families.len(),
        m.families[m.cur_fam].help.len() > 0,
        spec_scan_escaped_line(t, p, Seq::empty()) is Done,
    ensures
        step_reading_help(t, p, m) == (Step::Failed {
            kind: ErrorKind::DuplicateHelp,
            line: m.line,
            at: p,
        }),
{
}

/// Escape correctness, scanning side: a label value written with `\"`,
/// `\\` and `\n` escapes and a closing quote scans back to the original
/// bytes. `p` points just after the opening quote.
pub proof fn lemma_label_value_roundtrip(t: Seq<u8>, p: int, v: Seq<u8>, acc: Seq<u8>)
    requires
        0 <= p,
        p + spec_escape_label_value(v).len() + 1 <= t.len(),
        t.subrange(p, p + spec_escape_label_value(v).len()) == spec_escape_label_value(v),
        t[p + spec_escape_label_value(v).len()] == 0x22,
    ensures
        spec_scan_label_value(t, p, acc) == (ScanResult::Done {
            token: acc + v,
            end: p + spec_escape_label_value(v).len() + 1,
        }),
    decreases v.len(),
{
    let ev = spec_escape_label_value(v);
    if v.len() == 0 {
        assert(ev.len() == 0);
        assert(t[p] == 0x22);
        assert(acc + v =~= acc);
    } else {
        let e0 = esc_label_byte(v[0]);
        let rest = spec_escape_label_value(v.drop_first());
        assert(ev == e0 + rest);
        assert forall|k: int| 0 <= k < ev.len() implies t[p + k] == ev[k] by {
            assert(t.subrange(p, p + ev.len() as int)[k] == t[p + k]);
        }
        if v[0] == 0x5c || v[0] == 0x0a || v[0] == 0x22 {
            assert(e0.len() == 2 && e0[0] == 0x5c);
            assert(ev[0] == e0[0] && ev[1] == e0[1]);
            assert(t[p + 0] == ev[0] && t[p + 1] == ev[1]);
            assert(t[p] == 0x5c);
            assert(t[p + 1] == e0[1]);
            assert(t.subrange(p + 2, p + 2 + rest.len()) =~= t.subrange(p, p + ev.len()).subrange(
                2,
                ev.len() as int,
            ));
            assert(t.subrange(p + 2, p + 2 + rest.len()) =~= rest);
            if v[0] == 0x5c {
                assert(t[p + 1] == 0x5c);
                lemma_label_value_roundtrip(t, p + 2, v.drop_first(), acc.push(0x5c));
            } else if v[0] == 0x0a {
                assert(t[p + 1] == 0x6e);
                lemma_label_value_roundtrip(t, p + 2, v.drop_first(), acc.push(0x0a));
            } else {
                assert(t[p + 1] == 0x22);
                lemma_label_value_roundtrip(t, p + 2, v.drop_first(), acc.push(0x22));
            }
            assert(acc.push(v[0]) + v.drop_first() =~= acc + v);
        } else {
            assert(e0.len() == 1 && e0[0] == v[0]);
            assert(ev[0] == e0[0]);
            assert(t[p + 0] == ev[0]);
            assert(t[p] == v[0]);
            assert(t.subrange(p + 1, p + 1 + rest.len()) =~= t.subrange(p, p + ev.len()).subrange(
                1,
                ev.len() as int,
            ));
            assert(t.subrange(p + 1, p + 1 + rest.len()) =~= rest);
            lemma_label_value_roundtrip(t, p + 1, v.drop_first(), acc.push(v[0]));
            assert(acc.push(v[0]) + v.drop_first() =~= acc + v);
        }
    }
}

/// Escape correctness, the whole token: scanning `escape(v) + '"' +
/// anything` from the start yields exactly `v`.
pub proof fn lemma_escape_scan_roundtrip(v: Seq<u8>, suffix: Seq<u8>)
    ensures
        spec_scan_label_value(
            spec_escape_label_value(v) + seq![0x22u8] + suffix,
            0,
            Seq::empty(),
        ) == (ScanResult::Done {
            token: v,
            end: spec_escape_label_value(v).len() as int + 1,
        }),
{
    let t = spec_escape_label_value(v) + seq![0x22u8] + suffix;
    let ev = spec_escape_label_value(v);
    assert(t.subrange(0, ev.len() as int) =~= ev);
    assert(t[ev.len() as int] == 0x22);
    lemma_label_value_roundtrip(t, 0, v, Seq::empty());
    assert(Seq::<u8>::empty() + v =~= v);
}

/// Escape correctness, the error side: an unescaped newline inside a
/// label value fails the scan with `UnescapedNewline` at that byte.
pub proof fn lemma_unescaped_newline(t: Seq<u8>, p: int, acc: Seq<u8>)
    requires
        0 <= p < t.len(),
        t[p] == 0x0a,
    ensures
        spec_scan_label_value(t, p, acc) == (ScanResult::Failed {
            kind: ErrorKind::UnescapedNewline,
            at: p,
        }),
{
}

/// Help escape round-trip: a HELP payload written with `\\` and `\n`
/// escapes and ended by a newline scans back to the original bytes.
pub proof fn lemma_help_roundtrip(t: Seq<u8>, p: int, h: Seq<u8>, acc: Seq<u8>)
    requires
        0 <= p,
        p + spec_escape_help(h).len() + 1 <= t.len(),
        t.subrange(p, p + spec_escape_help(h).len()) == spec_escape_help(h),
        t[p + spec_escape_help(h).len()] == 0x0a,
    ensures
        spec_scan_escaped_line(t, p, acc) == (ScanResult::Done {
            token: acc + h,
            end: p + spec_escape_help(h).len() + 1,
        }),
    decreases h.len(),
{
    let eh = spec_escape_help(h);
    if h.len() == 0 {
        assert(eh.len() == 0);
        assert(t[p] == 0x0a);
        assert(acc + h =~= acc);
    } else {
        let e0 = esc_help_byte(h[0]);
        let rest = spec_escape_help(h.drop_first());
        assert(eh == e0 + rest);
        assert forall|k: int| 0 <= k < eh.len() implies t[p + k] == eh[k] by {
            assert(t.subrange(p, p + eh.len() as int)[k] == t[p + k]);
        }
        if h[0] == 0x5c || h[0] == 0x0a {
            assert(e0.len() == 2 && e0[0] == 0x5c);
            assert(eh[0] == e0[0] && eh[1] == e0[1]);
            assert(t[p + 0] == eh[0] && t[p + 1] == eh[1]);
            assert(t[p] == 0x5c);
            assert(t[p + 1] == e0[1]);
            assert(t.subrange(p + 2, p + 2 + rest.len()) =~= t.subrange(p, p + eh.len()).subrange(
                2,
                eh.len() as int,
            ));
            assert(t.subrange(p + 2, p + 2 + rest.len()) =~= rest);
            if h[0] == 0x5c {
                lemma_help_roundtrip(t, p + 2, h.drop_first(), acc.push(0x5c));
            } else {
                assert(t[p + 1] == 0x6e);
                lemma_help_roundtrip(t, p + 2, h.drop_first(), acc.push(0x0a));
            }
            assert(acc.push(h[0]) + h.drop_first() =~= acc + h);
        } else {
            assert(e0.len() == 1 && e0[0] == h[0]);
            assert(eh[0] == e0[0]);
            assert(t[p + 0] == eh[0]);
            assert(t[p] == h[0]);
            assert(h[0] != 0x0a && h[0] != 0x5c);
            assert(t.subrange(p + 1, p + 1 + rest.len()) =~= t.subrange(p, p + eh.len()).subrange(
                1,
                eh.len() as int,
            ));
            assert(t.subrange(p + 1, p + 1 + rest.len()) =~= rest);
            lemma_help_roundtrip(t, p + 1, h.drop_first(), acc.push(h[0]));
            assert(acc.push(h[0]) + h.drop_first() =~= acc + h);
        }
    }
}

} // verus!
