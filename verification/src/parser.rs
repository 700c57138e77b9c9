//! The executable parser: a dispatch loop over the automaton's states,
//! proved to compute exactly what `machine::spec_run` says.
//!
//! The parser owns its input as a byte vector; reading a byte source and
//! handing the bytes over is the caller's business. A parser is
//! single-shot: construct it, run `text_to_metric_families` once, then
//! read the families out.

use vstd::prelude::*;
use vstd::slice::{slice_subrange, slice_to_vec};
use crate::chars::is_blank_or_tab;
use crate::float_text::is_float_literal;
use crate::machine::{
    State,
    MachineS,
    Step,
    Outcome,
    init_machine,
    spec_step,
    spec_run,
    spec_parse,
    state_inv,
    state_rank,
    line_inv,
    lemma_step_line,
    lemma_step_progress,
    lemma_step_inv,
    step_start_of_line,
    step_start_comment,
    step_reading_help,
    step_reading_type,
    step_reading_metric_name,
    step_reading_labels,
    step_start_label_name,
    step_start_label_value,
    step_reading_value,
    step_start_timestamp,
    spec_get_or_create,
    spec_resolve_sample,
    spec_push_simple,
    spec_apply_agg,
    spec_apply_sample,
    spec_set_timestamp,
    help_keyword,
    type_keyword,
    counter_token,
    gauge_token,
    summary_token,
    histogram_token,
    reserved_label,
    quantile_label,
    le_label,
    zero_literal,
};
use crate::model::{
    ErrorKind,
    ParseError,
    MetricType,
    MetricFamily,
    Metric,
    MetricData,
    LabelPair,
    FloatLit,
    Quantile,
    Bucket,
    FamilyS,
    families_view,
    metrics_view,
    labels_view,
    quantiles_view,
    buckets_view,
    find_family,
    find_metric,
    lemma_families_view_push,
    lemma_families_view_update,
    lemma_metrics_view_push,
    lemma_metrics_view_update,
    lemma_labels_view_push,
    lemma_quantiles_view_push,
    lemma_buckets_view_push,
};
use crate::names::{Role, bytes_eq, summary_metric_name, role_of_name};
use crate::num::{trunc_u64_of_literal, parse_i64};
use crate::scan::{
    skip_blanks,
    token_end,
    line_end,
    label_name_end,
    metric_name_end,
    scan_label_value,
    scan_escaped_line,
};

verus! {

/// What one executable step reports to the dispatch loop.
#[derive(Clone, Copy, Debug, PartialEq, Eq, Structural)]
pub enum StepRes {
    Next(State),
    Complete,
    Abort(ParseError),
}

/// The streaming parser.
pub struct TextParser {
    input: Vec<u8>,
    pos: usize,
    line: usize,
    families: Vec<MetricFamily>,
    cur_fam: usize,
    role: Role,
    cur_labels: Vec<LabelPair>,
    pending_label: Vec<u8>,
    cur_quantile: Option<FloatLit>,
    cur_bucket: Option<FloatLit>,
    last_metric: usize,
}

pub open spec fn opt_view(o: Option<FloatLit>) -> Option<Seq<u8>> {
    match o {
        Some(f) => Some(f@),
        None => None,
    }
}

impl TextParser {
    /// The machine the fields stand for.
    pub closed spec fn m(&self) -> MachineS {
        MachineS {
            families: families_view(self.families@),
            line: self.line as nat,
            cur_fam: self.cur_fam as int,
            role: self.role,
            cur_labels: labels_view(self.cur_labels@),
            pending_label: self.pending_label@,
            cur_quantile: opt_view(self.cur_quantile),
            cur_bucket: opt_view(self.cur_bucket),
            last_metric: self.last_metric as int,
        }
    }

    pub closed spec fn wf(&self) -> bool {
        self.pos <= self.input@.len() && self.input@.len() < usize::MAX
    }

    pub closed spec fn input_spec(&self) -> Seq<u8> {
        self.input@
    }

    pub closed spec fn pos_spec(&self) -> int {
        self.pos as int
    }

    pub closed spec fn families_spec(&self) -> Seq<FamilyS> {
        families_view(self.families@)
    }

    pub closed spec fn line_spec(&self) -> nat {
        self.line as nat
    }

    /// A parser that has not started: what `new` hands back.
    pub closed spec fn fresh(&self) -> bool {
        self.wf() && self.pos == 0 && self.m() == init_machine()
    }

    /// A new single-shot parser over `input`.
    pub fn new(input: Vec<u8>) -> (r: TextParser)
        requires
            input@.len() < usize::MAX,
        ensures
            r.fresh(),
            r.input_spec() == input@,
    {
        let p = TextParser {
            input,
            pos: 0,
            line: 0,
            families: Vec::new(),
            cur_fam: 0,
            role: Role::Plain,
            cur_labels: Vec::new(),
            pending_label: Vec::new(),
            cur_quantile: None,
            cur_bucket: None,
            last_metric: 0,
        };
        proof {
            assert(families_view(p.families@) =~= Seq::<FamilyS>::empty());
            assert(labels_view(p.cur_labels@) =~= Seq::<crate::model::LabelPairS>::empty());
            assert(p.m() =~= init_machine());
        }
        p
    }

    /// The parsed families, in order of first mention.
    pub fn families(&self) -> (r: &Vec<MetricFamily>)
        ensures
            families_view(r@) == self.families_spec(),
    {
        &self.families
    }

    /// How many lines the parser has begun.
    pub fn line_count(&self) -> (r: usize)
        ensures
            r as nat == self.line_spec(),
    {
        self.line
    }

    /// Look a family in the registry up by its name.
    fn get_or_create(&mut self, name: &[u8]) -> (fi: usize)
        requires
            old(self).wf(),
        ensures
            final(self).wf(),
            families_view(final(self).families@) == spec_get_or_create(
                families_view(old(self).families@),
                name@,
            ).0,
            fi as int == spec_get_or_create(families_view(old(self).families@), name@).1,
            fi < final(self).families@.len(),
            final(self).input == old(self).input,
            final(self).pos == old(self).pos,
            final(self).line == old(self).line,
            final(self).cur_fam == old(self).cur_fam,
            final(self).role == old(self).role,
            final(self).cur_labels == old(self).cur_labels,
            final(self).pending_label == old(self).pending_label,
            final(self).cur_quantile == old(self).cur_quantile,
            final(self).cur_bucket == old(self).cur_bucket,
            final(self).last_metric == old(self).last_metric,
    {
        let ghost fsv = families_view(self.families@);
        proof {
            crate::model::lemma_find_family(fsv, name@, 0);
        }
        let fi = find_family(&self.families, name);
        if fi < self.families.len() {
            return fi;
        }
        let fam = MetricFamily {
            name: slice_to_vec(name),
            help: Vec::new(),
            metric_type: MetricType::Untyped,
            metrics: Vec::new(),
        };
        proof {
            assert(metrics_view(fam.metrics@) =~= Seq::<crate::model::MetricS>::empty());
            assert(fam@ =~= spec_get_or_create(fsv, name@).0[fsv.len() as int]);
        }
        self.families.push(fam);
        proof {
            lemma_families_view_push(old(self).families@, self.families@[fsv.len() as int]);
            assert(families_view(self.families@) =~= spec_get_or_create(fsv, name@).0);
        }
        fi
    }

    /// Resolve a sample name to its family and role, creating the family
    /// when the name denotes a new one.
    fn set_or_create_cur_mf(&mut self, name: &[u8]) -> (r: (usize, Role))
        requires
            old(self).wf(),
        ensures
            final(self).wf(),
            families_view(final(self).families@) == spec_resolve_sample(
                families_view(old(self).families@),
                name@,
            ).0,
            r.0 as int == spec_resolve_sample(families_view(old(self).families@), name@).1,
            r.1 == spec_resolve_sample(families_view(old(self).families@), name@).2,
            r.0 < final(self).families@.len(),
            final(self).input == old(self).input,
            final(self).pos == old(self).pos,
            final(self).line == old(self).line,
            final(self).cur_fam == old(self).cur_fam,
            final(self).role == old(self).role,
            final(self).cur_labels == old(self).cur_labels,
            final(self).pending_label == old(self).pending_label,
            final(self).cur_quantile == old(self).cur_quantile,
            final(self).cur_bucket == old(self).cur_bucket,
            final(self).last_metric == old(self).last_metric,
    {
        let ghost fsv = families_view(self.families@);
        let role = role_of_name(name);
        if role != Role::Plain {
            let base = summary_metric_name(name);
            proof {
                crate::model::lemma_find_family(fsv, base@, 0);
            }
            let bi = find_family(&self.families, base);
            if bi < self.families.len() {
                let ty = self.families[bi].metric_type;
                if ty == MetricType::Summary || ty == MetricType::Histogram {
                    return (bi, role);
                }
            }
        }
        let fi = self.get_or_create(name);
        (fi, Role::Plain)
    }

    /// Append a counter, gauge or untyped metric, taking the accumulated
    /// labels with it.
    fn push_simple(&mut self, data: MetricData)
        requires
            old(self).wf(),
            old(self).cur_fam < old(self).families@.len(),
        ensures
            final(self).wf(),
            final(self).m() == spec_push_simple(old(self).m(), data@),
            final(self).input == old(self).input,
            final(self).pos == old(self).pos,
            final(self).line == old(self).line,
    {
        let fi = self.cur_fam;
        let mut labels: Vec<LabelPair> = Vec::new();
        core::mem::swap(&mut labels, &mut self.cur_labels);
        self.cur_quantile = None;
        self.cur_bucket = None;
        let metric = Metric { labels, data, timestamp_ms: None };
        let mut fam = self.families.remove(fi);
        self.last_metric = fam.metrics.len();
        let ghost old_metrics = fam.metrics@;
        fam.metrics.push(metric);
        proof {
            lemma_metrics_view_push(old_metrics, fam.metrics@[old_metrics.len() as int]);
        }
        self.families.insert(fi, fam);
        proof {
            assert(self.families@ =~= old(self).families@.update(
                fi as int,
                self.families@[fi as int],
            ));
            lemma_families_view_update(old(self).families@, fi as int, self.families@[fi as int]);
            assert(labels_view(self.cur_labels@) =~= Seq::<crate::model::LabelPairS>::empty());
            assert(self.m() =~~= spec_push_simple(old(self).m(), data@));
        }
    }

    /// Merge a sample into the aggregate metric grouped by the current
    /// label set, creating the record on first need.
    fn apply_agg(&mut self, value: FloatLit, hist: bool)
        requires
            old(self).wf(),
            old(self).cur_fam < old(self).families@.len(),
            crate::float_text::spec_is_float_literal(value@),
        ensures
            final(self).wf(),
            final(self).m() == spec_apply_agg(old(self).m(), value@, hist),
            final(self).input == old(self).input,
            final(self).pos == old(self).pos,
            final(self).line == old(self).line,
    {
        let ghost m0 = self.m();
        let fi = self.cur_fam;
        let role = self.role;
        proof {
            crate::model::lemma_find_metric(
                metrics_view(self.families@[fi as int].metrics@),
                labels_view(self.cur_labels@),
                hist,
                0,
            );
        }
        let k = find_metric(&self.families[fi].metrics, &self.cur_labels, hist);
        let mut labels: Vec<LabelPair> = Vec::new();
        core::mem::swap(&mut labels, &mut self.cur_labels);
        let mut quant: Option<FloatLit> = None;
        core::mem::swap(&mut quant, &mut self.cur_quantile);
        let mut buck: Option<FloatLit> = None;
        core::mem::swap(&mut buck, &mut self.cur_bucket);
        let mut fam = self.families.remove(fi);
        let ghost fam0v = fam@;
        if k == fam.metrics.len() {
            let fresh_data = if hist {
                MetricData::Histogram {
                    sample_count: 0,
                    sample_sum: zero_lit(),
                    buckets: Vec::new(),
                }
            } else {
                MetricData::Summary {
                    sample_count: 0,
                    sample_sum: zero_lit(),
                    quantiles: Vec::new(),
                }
            };
            let ghost old_metrics = fam.metrics@;
            let fresh = Metric { labels, data: fresh_data, timestamp_ms: None };
            proof {
                if hist {
                    assert(buckets_view(Seq::<Bucket>::empty()) =~= Seq::<
                        crate::model::BucketS,
                    >::empty());
                } else {
                    assert(quantiles_view(Seq::<Quantile>::empty()) =~= Seq::<
                        crate::model::QuantileS,
                    >::empty());
                }
            }
            fam.metrics.push(fresh);
            proof {
                lemma_metrics_view_push(old_metrics, fam.metrics@[old_metrics.len() as int]);
            }
        } else {
            // The labels were only needed for a fresh record.
        }
        // Rebuild the metric at `k` with the routed value.
        let metric = fam.metrics.remove(k);
        let trunc: u64 = trunc_u64_of_literal(value.text.as_slice());
        let new_data: MetricData = match metric.data {
            MetricData::Histogram { sample_count, sample_sum, mut buckets } => {
                if role == Role::Count {
                    MetricData::Histogram { sample_count: trunc, sample_sum, buckets }
                } else if role == Role::Sum {
                    MetricData::Histogram { sample_count, sample_sum: value, buckets }
                } else {
                    match buck {
                        Some(ub) => {
                            let ghost old_buckets = buckets@;
                            buckets.push(Bucket { upper_bound: ub, cumulative_count: trunc });
                            proof {
                                lemma_buckets_view_push(
                                    old_buckets,
                                    buckets@[old_buckets.len() as int],
                                );
                            }
                            MetricData::Histogram { sample_count, sample_sum, buckets }
                        },
                        None => MetricData::Histogram { sample_count, sample_sum, buckets },
                    }
                }
            },
            MetricData::Summary { sample_count, sample_sum, mut quantiles } => {
                if role == Role::Count {
                    MetricData::Summary { sample_count: trunc, sample_sum, quantiles }
                } else if role == Role::Sum {
                    MetricData::Summary { sample_count, sample_sum: value, quantiles }
                } else {
                    match quant {
                        Some(q) => {
                            let ghost old_quantiles = quantiles@;
                            quantiles.push(Quantile { quantile: q, value });
                            proof {
                                lemma_quantiles_view_push(
                                    old_quantiles,
                                    quantiles@[old_quantiles.len() as int],
                                );
                            }
                            MetricData::Summary { sample_count, sample_sum, quantiles }
                        },
                        None => MetricData::Summary { sample_count, sample_sum, quantiles },
                    }
                }
            },
            other => other,
        };
        let metric2 = Metric {
            labels: metric.labels,
            data: new_data,
            timestamp_ms: metric.timestamp_ms,
        };
        fam.metrics.insert(k, metric2);
        self.families.insert(fi, fam);
        self.last_metric = k;
        proof {
            let spec_m = spec_apply_agg(m0, value@, hist);
            assert(self.families@ =~= old(self).families@.update(
                fi as int,
                self.families@[fi as int],
            ));
            lemma_families_view_update(old(self).families@, fi as int, self.families@[fi as int]);
            let fam_after = self.families@[fi as int];
            assert(metrics_view(fam_after.metrics@) =~= metrics_view(fam_after.metrics@));
            assert(labels_view(self.cur_labels@) =~= Seq::<crate::model::LabelPairS>::empty());
            assert(self.m().families[fi as int].metrics =~~= spec_m.families[fi as int].metrics);
            assert(self.m() =~~= spec_m);
        }
    }

    /// Attach a timestamp to the metric the last sample touched.
    fn set_timestamp(&mut self, ts: i64)
        requires
            old(self).wf(),
            old(self).cur_fam < old(self).families@.len(),
            old(self).last_metric < old(self).families@[old(self).cur_fam as int].metrics@.len(),
        ensures
            final(self).wf(),
            final(self).m() == spec_set_timestamp(old(self).m(), ts),
            final(self).input == old(self).input,
            final(self).pos == old(self).pos,
            final(self).line == old(self).line,
    {
        let fi = self.cur_fam;
        let k = self.last_metric;
        let mut fam = self.families.remove(fi);
        let metric = fam.metrics.remove(k);
        let metric2 = Metric {
            labels: metric.labels,
            data: metric.data,
            timestamp_ms: Some(ts),
        };
        fam.metrics.insert(k, metric2);
        self.families.insert(fi, fam);
        proof {
            assert(self.families@ =~= old(self).families@.update(
                fi as int,
                self.families@[fi as int],
            ));
            lemma_families_view_update(old(self).families@, fi as int, self.families@[fi as int]);
            assert(self.families@[fi as int].metrics@ =~= old(self).families@[fi as int].metrics@
                .update(k as int, self.families@[fi as int].metrics@[k as int]));
            lemma_metrics_view_update(
                old(self).families@[fi as int].metrics@,
                k as int,
                self.families@[fi as int].metrics@[k as int],
            );
            assert(self.m() =~~= spec_set_timestamp(old(self).m(), ts));
        }
    }

    /// Route a validated value token by the current family's type.
    fn apply_sample(&mut self, value: FloatLit)
        requires
            old(self).wf(),
            old(self).cur_fam < old(self).families@.len(),
            crate::float_text::spec_is_float_literal(value@),
        ensures
            final(self).wf(),
            final(self).m() == spec_apply_sample(old(self).m(), value@),
            final(self).input == old(self).input,
            final(self).pos == old(self).pos,
            final(self).line == old(self).line,
    {
        let ty = self.families[self.cur_fam].metric_type;
        match ty {
            MetricType::Counter => self.push_simple(MetricData::Counter { value }),
            MetricType::Gauge => self.push_simple(MetricData::Gauge { value }),
            MetricType::Untyped => self.push_simple(MetricData::Untyped { value }),
            MetricType::Summary => self.apply_agg(value, false),
            MetricType::Histogram => self.apply_agg(value, true),
        }
    }

    fn start_of_line(&mut self) -> (r: StepRes)
        requires
            old(self).wf(),
            old(self).line < usize::MAX,
        ensures
            final(self).wf(),
            final(self).input == old(self).input,
            match step_start_of_line(old(self).input@, old(self).pos as int, old(self).m()) {
                Step::Next { st, pos, m } => r == StepRes::Next(st) && final(self).pos as int
                    == pos && final(self).m() == m,
                Step::Done { families } => r == StepRes::Complete && families_view(
                    final(self).families@,
                ) == families,
                Step::Failed { kind, line, at } => r matches StepRes::Abort(e) && e.kind == kind
                    && e.line as nat == line,
            },
    {
        let ghost t = self.input@;
        let ghost p0 = self.pos as int;
        let ghost m0 = self.m();
        proof {
            crate::scan::lemma_skip_blanks(t, p0);
        }
        self.line = self.line + 1;
        let q = skip_blanks(self.input.as_slice(), self.pos);
        let n = self.input.len();
        proof {
            assert(self.m() =~~= (MachineS { line: m0.line + 1, ..m0 }));
        }
        if q >= n {
            self.pos = n;
            return StepRes::Complete;
        }
        let b = self.input[q];
        if b == 0x23 {
            self.pos = q + 1;
            StepRes::Next(State::StartComment)
        } else if b == 0x0a {
            self.pos = q + 1;
            StepRes::Next(State::StartOfLine)
        } else {
            self.pos = q;
            StepRes::Next(State::ReadingMetricName)
        }
    }

    fn start_comment(&mut self) -> (r: StepRes)
        requires
            old(self).wf(),
        ensures
            final(self).wf(),
            final(self).input == old(self).input,
            match step_start_comment(old(self).input@, old(self).pos as int, old(self).m()) {
                Step::Next { st, pos, m } => r == StepRes::Next(st) && final(self).pos as int
                    == pos && final(self).m() == m,
                Step::Done { families } => r == StepRes::Complete && families_view(
                    final(self).families@,
                ) == families,
                Step::Failed { kind, line, at } => r matches StepRes::Abort(e) && e.kind == kind
                    && e.line as nat == line,
            },
    {
        let ghost t = self.input@;
        let ghost p0 = self.pos as int;
        let ghost m0 = self.m();
        proof {
            crate::scan::lemma_skip_blanks(t, p0);
        }
        let n = self.input.len();
        let q = skip_blanks(self.input.as_slice(), self.pos);
        if q >= n {
            self.pos = n;
            return StepRes::Complete;
        }
        if self.input[q] == 0x0a {
            self.pos = q + 1;
            return StepRes::Next(State::StartOfLine);
        }
        proof {
            crate::scan::lemma_token_end(t, q as int);
        }
        let j = token_end(self.input.as_slice(), q);
        if j >= n {
            self.pos = n;
            return StepRes::Next(State::StartOfLine);
        }
        if self.input[j] == 0x0a {
            self.pos = j + 1;
            return StepRes::Next(State::StartOfLine);
        }
        let help_arr: [u8; 4] = [0x48, 0x45, 0x4c, 0x50];
        let type_arr: [u8; 4] = [0x54, 0x59, 0x50, 0x45];
        proof {
            assert(help_arr@ =~= help_keyword());
            assert(type_arr@ =~= type_keyword());
        }
        let is_help = bytes_eq(
            slice_subrange(self.input.as_slice(), q, j),
            help_arr.as_slice(),
        );
        let is_type = bytes_eq(
            slice_subrange(self.input.as_slice(), q, j),
            type_arr.as_slice(),
        );
        if !is_help && !is_type {
            proof {
                crate::scan::lemma_line_end(t, j as int);
            }
            let rr = line_end(self.input.as_slice(), j);
            self.pos = if rr < n {
                rr + 1
            } else {
                rr
            };
            return StepRes::Next(State::StartOfLine);
        }
        proof {
            crate::scan::lemma_skip_blanks(t, j as int);
        }
        let q2 = skip_blanks(self.input.as_slice(), j);
        let e = metric_name_end(self.input.as_slice(), q2);
        if e == q2 {
            if q2 >= n {
                self.pos = n;
                return StepRes::Next(State::StartOfLine);
            }
            if self.input[q2] == 0x0a {
                self.pos = q2 + 1;
                return StepRes::Next(State::StartOfLine);
            }
            return StepRes::Abort(
                ParseError { kind: ErrorKind::InvalidMetricName, line: self.line },
            );
        }
        let name = slice_to_vec(slice_subrange(self.input.as_slice(), q2, e));
        let fi = self.get_or_create(name.as_slice());
        self.cur_fam = fi;
        proof {
            let gc = spec_get_or_create(m0.families, t.subrange(q2 as int, e as int));
            assert(self.m() =~~= (MachineS { families: gc.0, cur_fam: gc.1, ..m0 }));
        }
        if e >= n {
            self.pos = n;
            return StepRes::Next(State::StartOfLine);
        }
        if self.input[e] == 0x0a {
            self.pos = e + 1;
            return StepRes::Next(State::StartOfLine);
        }
        if !is_blank_or_tab(self.input[e]) {
            return StepRes::Abort(
                ParseError { kind: ErrorKind::InvalidMetricName, line: self.line },
            );
        }
        proof {
            crate::scan::lemma_skip_blanks(t, e as int);
        }
        let q3 = skip_blanks(self.input.as_slice(), e);
        if q3 >= n {
            self.pos = n;
            return StepRes::Next(State::StartOfLine);
        }
        if self.input[q3] == 0x0a {
            self.pos = q3 + 1;
            return StepRes::Next(State::StartOfLine);
        }
        self.pos = q3;
        if is_help {
            StepRes::Next(State::ReadingHelp)
        } else {
            StepRes::Next(State::ReadingType)
        }
    }

    fn reading_help(&mut self) -> (r: StepRes)
        requires
            old(self).wf(),
            old(self).cur_fam < old(self).families@.len(),
        ensures
            final(self).wf(),
            final(self).input == old(self).input,
            match step_reading_help(old(self).input@, old(self).pos as int, old(self).m()) {
                Step::Next { st, pos, m } => r == StepRes::Next(st) && final(self).pos as int
                    == pos && final(self).m() == m,
                Step::Done { families } => r == StepRes::Complete && families_view(
                    final(self).families@,
                ) == families,
                Step::Failed { kind, line, at } => r matches StepRes::Abort(e) && e.kind == kind
                    && e.line as nat == line,
            },
    {
        let ghost t = self.input@;
        let ghost m0 = self.m();
        let n = self.input.len();
        if self.pos >= n {
            return StepRes::Complete;
        }
        match scan_escaped_line(self.input.as_slice(), self.pos) {
            Err(kind) => StepRes::Abort(ParseError { kind, line: self.line }),
            Ok((token, end)) => {
                let fi = self.cur_fam;
                if self.families[fi].help.len() > 0 {
                    return StepRes::Abort(
                        ParseError { kind: ErrorKind::DuplicateHelp, line: self.line },
                    );
                }
                let mut fam = self.families.remove(fi);
                fam.help = token;
                self.families.insert(fi, fam);
                self.pos = end;
                proof {
                    assert(self.families@ =~= old(self).families@.update(
                        fi as int,
                        self.families@[fi as int],
                    ));
                    lemma_families_view_update(
                        old(self).families@,
                        fi as int,
                        self.families@[fi as int],
                    );
                    match step_reading_help(t, old(self).pos as int, m0) {
                        Step::Next { st, pos, m } => {
                            assert(self.m() =~~= m);
                        },
                        _ => {
                        },
                    }
                }
                StepRes::Next(State::StartOfLine)
            },
        }
    }

    fn reading_type(&mut self) -> (r: StepRes)
        requires
            old(self).wf(),
            old(self).cur_fam < old(self).families@.len(),
        ensures
            final(self).wf(),
            final(self).input == old(self).input,
            match step_reading_type(old(self).input@, old(self).pos as int, old(self).m()) {
                Step::Next { st, pos, m } => r == StepRes::Next(st) && final(self).pos as int
                    == pos && final(self).m() == m,
                Step::Done { families } => r == StepRes::Complete && families_view(
                    final(self).families@,
                ) == families,
                Step::Failed { kind, line, at } => r matches StepRes::Abort(e) && e.kind == kind
                    && e.line as nat == line,
            },
    {
        let ghost t = self.input@;
        let ghost m0 = self.m();
        let n = self.input.len();
        if self.pos >= n {
            return StepRes::Complete;
        }
        proof {
            crate::scan::lemma_line_end(t, self.pos as int);
        }
        let rr = line_end(self.input.as_slice(), self.pos);
        let counter_arr: [u8; 7] = [0x63, 0x6f, 0x75, 0x6e, 0x74, 0x65, 0x72];
        let gauge_arr: [u8; 5] = [0x67, 0x61, 0x75, 0x67, 0x65];
        let summary_arr: [u8; 7] = [0x73, 0x75, 0x6d, 0x6d, 0x61, 0x72, 0x79];
        let histogram_arr: [u8; 9] = [0x68, 0x69, 0x73, 0x74, 0x6f, 0x67, 0x72, 0x61, 0x6d];
        proof {
            assert(counter_arr@ =~= counter_token());
            assert(gauge_arr@ =~= gauge_token());
            assert(summary_arr@ =~= summary_token());
            assert(histogram_arr@ =~= histogram_token());
        }
        let ty = if bytes_eq(
            slice_subrange(self.input.as_slice(), self.pos, rr),
            counter_arr.as_slice(),
        ) {
            MetricType::Counter
        } else if bytes_eq(
            slice_subrange(self.input.as_slice(), self.pos, rr),
            gauge_arr.as_slice(),
        ) {
            MetricType::Gauge
        } else if bytes_eq(
            slice_subrange(self.input.as_slice(), self.pos, rr),
            summary_arr.as_slice(),
        ) {
            MetricType::Summary
        } else if bytes_eq(
            slice_subrange(self.input.as_slice(), self.pos, rr),
            histogram_arr.as_slice(),
        ) {
            MetricType::Histogram
        } else {
            MetricType::Untyped
        };
        let fi = self.cur_fam;
        let mut fam = self.families.remove(fi);
        fam.metric_type = ty;
        self.families.insert(fi, fam);
        self.pos = if rr < n {
            rr + 1
        } else {
            rr
        };
        proof {
            assert(self.families@ =~= old(self).families@.update(
                fi as int,
                self.families@[fi as int],
            ));
            lemma_families_view_update(old(self).families@, fi as int, self.families@[fi as int]);
            match step_reading_type(t, old(self).pos as int, m0) {
                Step::Next { st, pos, m } => {
                    assert(self.m() =~~= m);
                },
                _ => {
                },
            }
        }
        StepRes::Next(State::StartOfLine)
    }

    fn reading_metric_name(&mut self) -> (r: StepRes)
        requires
            old(self).wf(),
        ensures
            final(self).wf(),
            final(self).input == old(self).input,
            match step_reading_metric_name(old(self).input@, old(self).pos as int, old(self).m()) {
                Step::Next { st, pos, m } => r == StepRes::Next(st) && final(self).pos as int
                    == pos && final(self).m() == m,
                Step::Done { families } => r == StepRes::Complete && families_view(
                    final(self).families@,
                ) == families,
                Step::Failed { kind, line, at } => r matches StepRes::Abort(e) && e.kind == kind
                    && e.line as nat == line,
            },
    {
        let ghost t = self.input@;
        let ghost m0 = self.m();
        let n = self.input.len();
        let e = metric_name_end(self.input.as_slice(), self.pos);
        if e == self.pos {
            return StepRes::Abort(
                ParseError { kind: ErrorKind::InvalidMetricName, line: self.line },
            );
        }
        let name = slice_to_vec(slice_subrange(self.input.as_slice(), self.pos, e));
        let rs = self.set_or_create_cur_mf(name.as_slice());
        self.cur_fam = rs.0;
        self.role = rs.1;
        self.cur_labels = Vec::new();
        self.cur_quantile = None;
        self.cur_bucket = None;
        proof {
            crate::scan::lemma_skip_blanks(t, e as int);
            let srs = spec_resolve_sample(m0.families, t.subrange(old(self).pos as int, e as int));
            assert(labels_view(self.cur_labels@) =~= Seq::<crate::model::LabelPairS>::empty());
            assert(self.m() =~~= (MachineS {
                families: srs.0,
                cur_fam: srs.1,
                role: srs.2,
                cur_labels: Seq::empty(),
                cur_quantile: None,
                cur_bucket: None,
                ..m0
            }));
        }
        let q = if e < n && is_blank_or_tab(self.input[e]) {
            skip_blanks(self.input.as_slice(), e)
        } else {
            e
        };
        self.pos = q;
        StepRes::Next(State::ReadingLabels)
    }

    fn reading_labels(&mut self) -> (r: StepRes)
        requires
            old(self).wf(),
        ensures
            final(self).wf(),
            final(self).input == old(self).input,
            match step_reading_labels(old(self).input@, old(self).pos as int, old(self).m()) {
                Step::Next { st, pos, m } => r == StepRes::Next(st) && final(self).pos as int
                    == pos && final(self).m() == m,
                Step::Done { families } => r == StepRes::Complete && families_view(
                    final(self).families@,
                ) == families,
                Step::Failed { kind, line, at } => r matches StepRes::Abort(e) && e.kind == kind
                    && e.line as nat == line,
            },
    {
        let n = self.input.len();
        if self.pos < n && self.input[self.pos] == 0x7b {
            self.pos = self.pos + 1;
            StepRes::Next(State::StartLabelName)
        } else {
            StepRes::Next(State::ReadingValue)
        }
    }

    fn start_label_name(&mut self) -> (r: StepRes)
        requires
            old(self).wf(),
        ensures
            final(self).wf(),
            final(self).input == old(self).input,
            match step_start_label_name(old(self).input@, old(self).pos as int, old(self).m()) {
                Step::Next { st, pos, m } => r == StepRes::Next(st) && final(self).pos as int
                    == pos && final(self).m() == m,
                Step::Done { families } => r == StepRes::Complete && families_view(
                    final(self).families@,
                ) == families,
                Step::Failed { kind, line, at } => r matches StepRes::Abort(e) && e.kind == kind
                    && e.line as nat == line,
            },
    {
        let ghost t = self.input@;
        let ghost m0 = self.m();
        let n = self.input.len();
        proof {
            crate::scan::lemma_skip_blanks(t, self.pos as int);
        }
        let q = skip_blanks(self.input.as_slice(), self.pos);
        if q < n && self.input[q] == 0x7d {
            proof {
                crate::scan::lemma_skip_blanks(t, q + 1);
            }
            let q2 = skip_blanks(self.input.as_slice(), q + 1);
            self.pos = q2;
            return StepRes::Next(State::ReadingValue);
        }
        let e = label_name_end(self.input.as_slice(), q);
        if e == q {
            return StepRes::Abort(
                ParseError { kind: ErrorKind::InvalidLabelName, line: self.line },
            );
        }
        let name = slice_to_vec(slice_subrange(self.input.as_slice(), q, e));
        let reserved_arr: [u8; 8] = [0x5f, 0x5f, 0x6e, 0x61, 0x6d, 0x65, 0x5f, 0x5f];
        proof {
            assert(reserved_arr@ =~= reserved_label());
        }
        if bytes_eq(name.as_slice(), reserved_arr.as_slice()) {
            return StepRes::Abort(
                ParseError { kind: ErrorKind::ReservedLabelName, line: self.line },
            );
        }
        proof {
            crate::scan::lemma_skip_blanks(t, e as int);
        }
        let q2 = if e < n && is_blank_or_tab(self.input[e]) {
            skip_blanks(self.input.as_slice(), e)
        } else {
            e
        };
        if q2 >= n || self.input[q2] != 0x3d {
            return StepRes::Abort(ParseError { kind: ErrorKind::MissingEquals, line: self.line });
        }
        self.pending_label = name;
        self.pos = q2 + 1;
        proof {
            assert(self.m() =~~= (MachineS {
                pending_label: t.subrange(q as int, e as int),
                ..m0
            }));
        }
        StepRes::Next(State::StartLabelValue)
    }

    fn start_label_value(&mut self) -> (r: StepRes)
        requires
            old(self).wf(),
            old(self).cur_fam < old(self).families@.len(),
        ensures
            final(self).wf(),
            final(self).input == old(self).input,
            match step_start_label_value(old(self).input@, old(self).pos as int, old(self).m()) {
                Step::Next { st, pos, m } => r == StepRes::Next(st) && final(self).pos as int
                    == pos && final(self).m() == m,
                Step::Done { families } => r == StepRes::Complete && families_view(
                    final(self).families@,
                ) == families,
                Step::Failed { kind, line, at } => r matches StepRes::Abort(e) && e.kind == kind
                    && e.line as nat == line,
            },
    {
        let ghost t = self.input@;
        let ghost m0 = self.m();
        let n = self.input.len();
        proof {
            crate::scan::lemma_skip_blanks(t, self.pos as int);
        }
        let q = skip_blanks(self.input.as_slice(), self.pos);
        if q >= n || self.input[q] != 0x22 {
            return StepRes::Abort(
                ParseError { kind: ErrorKind::MissingOpenQuote, line: self.line },
            );
        }
        match scan_label_value(self.input.as_slice(), q + 1) {
            Err(kind) => StepRes::Abort(ParseError { kind, line: self.line }),
            Ok((token, end)) => {
                let ty = self.families[self.cur_fam].metric_type;
                let quantile_arr: [u8; 8] = [0x71, 0x75, 0x61, 0x6e, 0x74, 0x69, 0x6c, 0x65];
                let le_arr: [u8; 2] = [0x6c, 0x65];
                proof {
                    assert(quantile_arr@ =~= quantile_label());
                    assert(le_arr@ =~= le_label());
                }
                let is_q = ty == MetricType::Summary && bytes_eq(
                    self.pending_label.as_slice(),
                    quantile_arr.as_slice(),
                );
                let is_le = ty == MetricType::Histogram && bytes_eq(
                    self.pending_label.as_slice(),
                    le_arr.as_slice(),
                );
                if is_q || is_le {
                    if !is_float_literal(token.as_slice()) {
                        return StepRes::Abort(
                            ParseError { kind: ErrorKind::InvalidFloat, line: self.line },
                        );
                    }
                    if is_q {
                        self.cur_quantile = Some(FloatLit { text: token });
                    } else {
                        self.cur_bucket = Some(FloatLit { text: token });
                    }
                } else {
                    let nm = slice_to_vec(self.pending_label.as_slice());
                    let ghost old_labels = self.cur_labels@;
                    self.cur_labels.push(LabelPair { name: nm, value: token });
                    proof {
                        lemma_labels_view_push(
                            old_labels,
                            self.cur_labels@[old_labels.len() as int],
                        );
                    }
                }
                proof {
                    crate::scan::lemma_skip_blanks(t, end as int);
                }
                let s = skip_blanks(self.input.as_slice(), end);
                if s < n && self.input[s] == 0x2c {
                    self.pos = s + 1;
                    StepRes::Next(State::StartLabelName)
                } else if s < n && self.input[s] == 0x7d {
                    proof {
                        crate::scan::lemma_skip_blanks(t, s + 1);
                    }
                    let s2 = skip_blanks(self.input.as_slice(), s + 1);
                    self.pos = s2;
                    StepRes::Next(State::ReadingValue)
                } else {
                    StepRes::Abort(
                        ParseError { kind: ErrorKind::UnterminatedLabelValue, line: self.line },
                    )
                }
            },
        }
    }

    fn reading_value(&mut self) -> (r: StepRes)
        requires
            old(self).wf(),
            old(self).cur_fam < old(self).families@.len(),
        ensures
            final(self).wf(),
            final(self).input == old(self).input,
            match step_reading_value(old(self).input@, old(self).pos as int, old(self).m()) {
                Step::Next { st, pos, m } => r == StepRes::Next(st) && final(self).pos as int
                    == pos && final(self).m() == m,
                Step::Done { families } => r == StepRes::Complete && families_view(
                    final(self).families@,
                ) == families,
                Step::Failed { kind, line, at } => r matches StepRes::Abort(e) && e.kind == kind
                    && e.line as nat == line,
            },
    {
        let ghost t = self.input@;
        let ghost m0 = self.m();
        let n = self.input.len();
        proof {
            crate::scan::lemma_token_end(t, self.pos as int);
        }
        let j = token_end(self.input.as_slice(), self.pos);
        let token = slice_to_vec(slice_subrange(self.input.as_slice(), self.pos, j));
        if !is_float_literal(token.as_slice()) {
            return StepRes::Abort(ParseError { kind: ErrorKind::InvalidFloat, line: self.line });
        }
        self.apply_sample(FloatLit { text: token });
        if j >= n {
            self.pos = n;
            StepRes::Next(State::StartOfLine)
        } else if self.input[j] == 0x0a {
            self.pos = j + 1;
            StepRes::Next(State::StartOfLine)
        } else {
            self.pos = j;
            StepRes::Next(State::StartTimestamp)
        }
    }

    fn start_timestamp(&mut self) -> (r: StepRes)
        requires
            old(self).wf(),
            old(self).cur_fam < old(self).families@.len(),
            old(self).last_metric < old(self).families@[old(self).cur_fam as int].metrics@.len(),
        ensures
            final(self).wf(),
            final(self).input == old(self).input,
            match step_start_timestamp(old(self).input@, old(self).pos as int, old(self).m()) {
                Step::Next { st, pos, m } => r == StepRes::Next(st) && final(self).pos as int
                    == pos && final(self).m() == m,
                Step::Done { families } => r == StepRes::Complete && families_view(
                    final(self).families@,
                ) == families,
                Step::Failed { kind, line, at } => r matches StepRes::Abort(e) && e.kind == kind
                    && e.line as nat == line,
            },
    {
        let ghost t = self.input@;
        let ghost m0 = self.m();
        let n = self.input.len();
        proof {
            crate::scan::lemma_skip_blanks(t, self.pos as int);
        }
        let q = skip_blanks(self.input.as_slice(), self.pos);
        if q >= n {
            self.pos = n;
            return StepRes::Complete;
        }
        if self.input[q] == 0x0a {
            self.pos = q + 1;
            return StepRes::Next(State::StartOfLine);
        }
        proof {
            crate::scan::lemma_token_end(t, q as int);
        }
        let j = token_end(self.input.as_slice(), q);
        let ts_opt = parse_i64(slice_subrange(self.input.as_slice(), q, j));
        match ts_opt {
            None => StepRes::Abort(ParseError { kind: ErrorKind::InvalidInteger, line: self.line }),
            Some(ts) => {
                self.set_timestamp(ts);
                proof {
                    crate::scan::lemma_skip_blanks(t, j as int);
                }
                let s = skip_blanks(self.input.as_slice(), j);
                if s >= n {
                    self.pos = n;
                    StepRes::Next(State::StartOfLine)
                } else if self.input[s] == 0x0a {
                    self.pos = s + 1;
                    StepRes::Next(State::StartOfLine)
                } else {
                    StepRes::Abort(
                        ParseError { kind: ErrorKind::InvalidInteger, line: self.line },
                    )
                }
            },
        }
    }

    /// Parse the whole input. On success the families are available
    /// through `families`; on error the registry keeps whatever was
    /// built before the offending line, and the error carries the
    /// 1-based number of that line.
    pub fn text_to_metric_families(&mut self) -> (r: Result<(), ParseError>)
        requires
            old(self).fresh(),
        ensures
            final(self).input_spec() == old(self).input_spec(),
            match r {
                Ok(()) => spec_parse(old(self).input_spec()) == (Outcome::Done {
                    families: final(self).families_spec(),
                }),
                Err(e) => spec_parse(old(self).input_spec()) matches Outcome::Failed {
                    kind,
                    line,
                    ..
                } && kind == e.kind && line == e.line as nat,
            },
    {
        let ghost t = self.input@;
        let mut st = State::StartOfLine;
        proof {
            assert(line_inv(st, self.pos as int, self.m()));
            assert(state_inv(st, self.m()));
        }
        loop
            invariant
                self.wf(),
                self.input@ == t,
                t == old(self).input_spec(),
                state_inv(st, self.m()),
                line_inv(st, self.pos as int, self.m()),
                spec_parse(t) == spec_run(t, self.pos as int, st, self.m()),
            decreases t.len() - self.pos, state_rank(st),
        {
            let ghost p0 = self.pos as int;
            let ghost m0 = self.m();
            proof {
                lemma_step_progress(t, p0, st, m0);
                lemma_step_inv(t, p0, st, m0);
                lemma_step_line(t, p0, st, m0);
            }
            let res = match st {
                State::StartOfLine => self.start_of_line(),
                State::StartComment => self.start_comment(),
                State::ReadingHelp => self.reading_help(),
                State::ReadingType => self.reading_type(),
                State::ReadingMetricName => self.reading_metric_name(),
                State::ReadingLabels => self.reading_labels(),
                State::StartLabelName => self.start_label_name(),
                State::StartLabelValue => self.start_label_value(),
                State::ReadingValue => self.reading_value(),
                State::StartTimestamp => self.start_timestamp(),
            };
            match res {
                StepRes::Next(st2) => {
                    st = st2;
                },
                StepRes::Complete => {
                    proof {
                        assert(spec_run(t, p0, st, m0) == (Outcome::Done {
                            families: families_view(self.families@),
                        }));
                    }
                    return Ok(());
                },
                StepRes::Abort(e) => {
                    proof {
                        assert(spec_run(t, p0, st, m0) matches Outcome::Failed {
                            kind,
                            line,
                            ..
                        } && kind == e.kind && line == e.line as nat);
                    }
                    return Err(e);
                },
            }
        }
    }
}

/// The value token `0`, which a fresh aggregate's sum reads as.
fn zero_lit() -> (r: FloatLit)
    ensures
        r@ == zero_literal(),
{
    let mut t: Vec<u8> = Vec::new();
    t.push(0x30);
    proof {
        assert(t@ =~= zero_literal());
    }
    FloatLit { text: t }
}

} // verus!
