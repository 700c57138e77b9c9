//! The data model: typed metric families, labeled metrics, and the
//! spec-level mirror of each shape.
//!
//! Floating-point values are carried as validated literal tokens (see
//! `float_text`); sample counts and bucket counts are integers.

use vstd::prelude::*;
use crate::float_text::spec_is_float_literal;
use crate::names::bytes_eq;

verus! {

#[derive(Clone, Copy, Debug, PartialEq, Eq, Structural)]
pub enum MetricType {
    Counter,
    Gauge,
    Summary,
    Histogram,
    Untyped,
}

/// What can go wrong while parsing; each error carries the 1-based number
/// of the line holding the offending byte.
#[derive(Clone, Copy, Debug, PartialEq, Eq, Structural)]
pub enum ErrorKind {
    InvalidMetricName,
    InvalidLabelName,
    ReservedLabelName,
    MissingEquals,
    MissingOpenQuote,
    UnterminatedLabelValue,
    InvalidEscape,
    UnescapedNewline,
    DuplicateHelp,
    InvalidFloat,
    InvalidInteger,
}

#[derive(Clone, Copy, Debug, PartialEq, Eq, Structural)]
pub struct ParseError {
    pub kind: ErrorKind,
    pub line: usize,
}

/// A floating-point sample value, as the literal token it was written as.
#[derive(Clone, Debug, PartialEq, Eq)]
pub struct FloatLit {
    pub text: Vec<u8>,
}

impl View for FloatLit {
    type V = Seq<u8>;

    open spec fn view(&self) -> Seq<u8> {
        self.text@
    }
}

impl FloatLit {
    /// A well-formed value token matches the floating-point syntax.
    pub open spec fn wf(&self) -> bool {
        spec_is_float_literal(self.text@)
    }
}

#[derive(Clone, Debug, PartialEq, Eq)]
pub struct LabelPair {
    pub name: Vec<u8>,
    pub value: Vec<u8>,
}

#[verifier::ext_equal]
pub struct LabelPairS {
    pub name: Seq<u8>,
    pub value: Seq<u8>,
}

impl View for LabelPair {
    type V = LabelPairS;

    open spec fn view(&self) -> LabelPairS {
        LabelPairS { name: self.name@, value: self.value@ }
    }
}

/// One quantile observation of a summary: both fields are value tokens.
#[derive(Clone, Debug, PartialEq, Eq)]
pub struct Quantile {
    pub quantile: FloatLit,
    pub value: FloatLit,
}

#[verifier::ext_equal]
pub struct QuantileS {
    pub quantile: Seq<u8>,
    pub value: Seq<u8>,
}

impl View for Quantile {
    type V = QuantileS;

    open spec fn view(&self) -> QuantileS {
        QuantileS { quantile: self.quantile@, value: self.value@ }
    }
}

/// One cumulative bucket of a histogram.
#[derive(Clone, Debug, PartialEq, Eq)]
pub struct Bucket {
    pub upper_bound: FloatLit,
    pub cumulative_count: u64,
}

#[verifier::ext_equal]
pub struct BucketS {
    pub upper_bound: Seq<u8>,
    pub cumulative_count: u64,
}

impl View for Bucket {
    type V = BucketS;

    open spec fn view(&self) -> BucketS {
        BucketS { upper_bound: self.upper_bound@, cumulative_count: self.cumulative_count }
    }
}

/// The typed payload of a metric.
#[derive(Clone, Debug, PartialEq, Eq)]
pub enum MetricData {
    Counter { value: FloatLit },
    Gauge { value: FloatLit },
    Untyped { value: FloatLit },
    Summary { sample_count: u64, sample_sum: FloatLit, quantiles: Vec<Quantile> },
    Histogram { sample_count: u64, sample_sum: FloatLit, buckets: Vec<Bucket> },
}

#[verifier::ext_equal]
pub enum MetricDataS {
    Counter { value: Seq<u8> },
    Gauge { value: Seq<u8> },
    Untyped { value: Seq<u8> },
    Summary { sample_count: u64, sample_sum: Seq<u8>, quantiles: Seq<QuantileS> },
    Histogram { sample_count: u64, sample_sum: Seq<u8>, buckets: Seq<BucketS> },
}

pub open spec fn quantiles_view(s: Seq<Quantile>) -> Seq<QuantileS> {
    s.map_values(|q: Quantile| q@)
}

pub open spec fn buckets_view(s: Seq<Bucket>) -> Seq<BucketS> {
    s.map_values(|b: Bucket| b@)
}

impl View for MetricData {
    type V = MetricDataS;

    open spec fn view(&self) -> MetricDataS {
        match self {
            MetricData::Counter { value } => MetricDataS::Counter { value: value@ },
            MetricData::Gauge { value } => MetricDataS::Gauge { value: value@ },
            MetricData::Untyped { value } => MetricDataS::Untyped { value: value@ },
            MetricData::Summary { sample_count, sample_sum, quantiles } => MetricDataS::Summary {
                sample_count: *sample_count,
                sample_sum: sample_sum@,
                quantiles: quantiles_view(quantiles@),
            },
            MetricData::Histogram { sample_count, sample_sum, buckets } => MetricDataS::Histogram {
                sample_count: *sample_count,
                sample_sum: sample_sum@,
                buckets: buckets_view(buckets@),
            },
        }
    }
}

/// One metric of a family: its labels (`quantile` and `le` excluded for
/// summaries and histograms), its payload, and an optional timestamp in
/// milliseconds since the Unix epoch.
#[derive(Clone, Debug, PartialEq, Eq)]
pub struct Metric {
    pub labels: Vec<LabelPair>,
    pub data: MetricData,
    pub timestamp_ms: Option<i64>,
}

#[verifier::ext_equal]
pub struct MetricS {
    pub labels: Seq<LabelPairS>,
    pub data: MetricDataS,
    pub timestamp_ms: Option<i64>,
}

pub open spec fn labels_view(s: Seq<LabelPair>) -> Seq<LabelPairS> {
    s.map_values(|lp: LabelPair| lp@)
}

impl View for Metric {
    type V = MetricS;

    open spec fn view(&self) -> MetricS {
        MetricS {
            labels: labels_view(self.labels@),
            data: self.data@,
            timestamp_ms: self.timestamp_ms,
        }
    }
}

/// A named group of metrics sharing a type and a help string.
#[derive(Clone, Debug, PartialEq, Eq)]
pub struct MetricFamily {
    pub name: Vec<u8>,
    pub help: Vec<u8>,
    pub metric_type: MetricType,
    pub metrics: Vec<Metric>,
}

#[verifier::ext_equal]
pub struct FamilyS {
    pub name: Seq<u8>,
    pub help: Seq<u8>,
    pub metric_type: MetricType,
    pub metrics: Seq<MetricS>,
}

pub open spec fn metrics_view(s: Seq<Metric>) -> Seq<MetricS> {
    s.map_values(|m: Metric| m@)
}

impl View for MetricFamily {
    type V = FamilyS;

    open spec fn view(&self) -> FamilyS {
        FamilyS {
            name: self.name@,
            help: self.help@,
            metric_type: self.metric_type,
            metrics: metrics_view(self.metrics@),
        }
    }
}

pub open spec fn families_view(fs: Seq<MetricFamily>) -> Seq<FamilyS> {
    fs.map_values(|f: MetricFamily| f@)
}

/// Two label sequences carry the same set of pairs, in any order.
pub open spec fn spec_label_sets_match(a: Seq<LabelPairS>, b: Seq<LabelPairS>) -> bool {
    (forall|i: int| 0 <= i < a.len() ==> b.contains(a[i])) && (forall|i: int|
        0 <= i < b.len() ==> a.contains(b[i]))
}

/// Byte-wise equality of two label pairs.
pub fn label_pair_eq(a: &LabelPair, b: &LabelPair) -> (r: bool)
    ensures
        r == (a@ == b@),
{
    let r = bytes_eq(a.name.as_slice(), b.name.as_slice()) && bytes_eq(
        a.value.as_slice(),
        b.value.as_slice(),
    );
    proof {
        if a.name@ == b.name@ && a.value@ == b.value@ {
            assert(a@ =~= b@);
        }
    }
    r
}

/// Does `v` contain a pair equal to `lp`?
pub fn labels_contain(v: &Vec<LabelPair>, lp: &LabelPair) -> (r: bool)
    ensures
        r == labels_view(v@).contains(lp@),
{
    let ghost vs = labels_view(v@);
    let n: usize = v.len();
    let mut i: usize = 0;
    while i < n
        invariant
            0 <= i <= n,
            n == v@.len(),
            vs == labels_view(v@),
            forall|k: int| 0 <= k < i ==> vs[k] != lp@,
        decreases n - i,
    {
        if label_pair_eq(&v[i], lp) {
            assert(vs[i as int] == lp@);
            return true;
        }
        i = i + 1;
    }
    assert(forall|k: int| 0 <= k < vs.len() ==> vs[k] != lp@);
    false
}

/// Do `a` and `b` carry the same set of label pairs?
pub fn label_sets_match(a: &Vec<LabelPair>, b: &Vec<LabelPair>) -> (r: bool)
    ensures
        r == spec_label_sets_match(
            labels_view(a@),
            labels_view(b@),
        ),
{
    let ghost av = labels_view(a@);
    let ghost bv = labels_view(b@);
    let n: usize = a.len();
    let mut i: usize = 0;
    while i < n
        invariant
            0 <= i <= n,
            n == a@.len(),
            av == labels_view(a@),
            bv == labels_view(b@),
            forall|k: int| 0 <= k < i ==> bv.contains(av[k]),
        decreases n - i,
    {
        if !labels_contain(b, &a[i]) {
            assert(!bv.contains(av[i as int]));
            return false;
        }
        i = i + 1;
    }
    let m: usize = b.len();
    let mut j: usize = 0;
    while j < m
        invariant
            0 <= j <= m,
            m == b@.len(),
            av == labels_view(a@),
            bv == labels_view(b@),
            forall|k: int| 0 <= k < av.len() ==> bv.contains(av[k]),
            forall|k: int| 0 <= k < j ==> av.contains(bv[k]),
        decreases m - j,
    {
        if !labels_contain(a, &b[j]) {
            assert(!av.contains(bv[j as int]));
            return false;
        }
        j = j + 1;
    }
    true
}

/// Does the metric's payload have the aggregate shape asked for:
/// histogram when `hist`, summary otherwise?
pub open spec fn spec_has_agg_shape(d: MetricDataS, hist: bool) -> bool {
    if hist {
        d matches MetricDataS::Histogram { .. }
    } else {
        d matches MetricDataS::Summary { .. }
    }
}

pub open spec fn has_agg_shape(d: &MetricData, hist: bool) -> bool {
    if hist {
        d matches MetricData::Histogram { .. }
    } else {
        d matches MetricData::Summary { .. }
    }
}

/// The first index in `ms` of a metric of the wanted aggregate shape
/// whose labels match `labels` as a set; `ms.len()` if there is none.
pub open spec fn spec_find_metric(ms: Seq<MetricS>, labels: Seq<LabelPairS>, hist: bool, i: int) -> int
    decreases ms.len() - i when 0 <= i <= ms.len()
{
    if i < ms.len() {
        if spec_has_agg_shape(ms[i].data, hist) && spec_label_sets_match(ms[i].labels, labels) {
            i
        } else {
            spec_find_metric(ms, labels, hist, i + 1)
        }
    } else {
        i
    }
}

pub proof fn lemma_find_metric(ms: Seq<MetricS>, labels: Seq<LabelPairS>, hist: bool, i: int)
    requires
        0 <= i <= ms.len(),
    ensures
        i <= spec_find_metric(ms, labels, hist, i) <= ms.len(),
        spec_find_metric(ms, labels, hist, i) < ms.len() ==> spec_label_sets_match(
            ms[spec_find_metric(ms, labels, hist, i)].labels,
            labels,
        ) && spec_has_agg_shape(ms[spec_find_metric(ms, labels, hist, i)].data, hist),
        forall|k: int|
            i <= k < spec_find_metric(ms, labels, hist, i) ==> !(spec_has_agg_shape(ms[k].data, hist)
                && spec_label_sets_match(ms[k].labels, labels)),
    decreases ms.len() - i,
{
    if i < ms.len() && !(spec_has_agg_shape(ms[i].data, hist) && spec_label_sets_match(
        ms[i].labels,
        labels,
    )) {
        lemma_find_metric(ms, labels, hist, i + 1);
    }
}

/// The first index in `fs` of a family named `name`; `fs.len()` if none.
pub open spec fn spec_find_family(fs: Seq<FamilyS>, name: Seq<u8>, i: int) -> int
    decreases fs.len() - i when 0 <= i <= fs.len()
{
    if i < fs.len() {
        if fs[i].name == name {
            i
        } else {
            spec_find_family(fs, name, i + 1)
        }
    } else {
        i
    }
}

pub proof fn lemma_find_family(fs: Seq<FamilyS>, name: Seq<u8>, i: int)
    requires
        0 <= i <= fs.len(),
    ensures
        i <= spec_find_family(fs, name, i) <= fs.len(),
        spec_find_family(fs, name, i) < fs.len() ==> fs[spec_find_family(fs, name, i)].name
            == name,
        forall|k: int| i <= k < spec_find_family(fs, name, i) ==> fs[k].name != name,
    decreases fs.len() - i,
{
    if i < fs.len() && fs[i].name != name {
        lemma_find_family(fs, name, i + 1);
    }
}

/// Find an aggregate metric by shape and label set in a vector of metrics.
pub fn find_metric(ms: &Vec<Metric>, labels: &Vec<LabelPair>, hist: bool) -> (r: usize)
    ensures
        r == spec_find_metric(
            metrics_view(ms@),
            labels_view(labels@),
            hist,
            0,
        ),
{
    let ghost msv = metrics_view(ms@);
    let ghost lv = labels_view(labels@);
    let n: usize = ms.len();
    let mut i: usize = 0;
    while i < n
        invariant
            0 <= i <= n,
            n == ms@.len(),
            msv == metrics_view(ms@),
            lv == labels_view(labels@),
            spec_find_metric(msv, lv, hist, 0) == spec_find_metric(msv, lv, hist, i as int),
        decreases n - i,
    {
        let shape_ok: bool = if hist {
            matches!(&ms[i].data, MetricData::Histogram { .. })
        } else {
            matches!(&ms[i].data, MetricData::Summary { .. })
        };
        assert(msv[i as int] == ms@[i as int]@);
        assert(shape_ok == spec_has_agg_shape(msv[i as int].data, hist));
        if shape_ok && label_sets_match(&ms[i].labels, labels) {
            return i;
        }
        i = i + 1;
    }
    n
}

pub proof fn lemma_labels_view_push(s: Seq<LabelPair>, x: LabelPair)
    ensures
        labels_view(s.push(x)) == labels_view(s).push(x@),
{
    assert(labels_view(s.push(x)) =~= labels_view(s).push(x@));
}

pub proof fn lemma_metrics_view_push(s: Seq<Metric>, x: Metric)
    ensures
        metrics_view(s.push(x)) == metrics_view(s).push(x@),
{
    assert(metrics_view(s.push(x)) =~= metrics_view(s).push(x@));
}

pub proof fn lemma_metrics_view_update(s: Seq<Metric>, i: int, x: Metric)
    requires
        0 <= i < s.len(),
    ensures
        metrics_view(s.update(i, x)) == metrics_view(s).update(i, x@),
{
    assert(metrics_view(s.update(i, x)) =~= metrics_view(s).update(i, x@));
}

pub proof fn lemma_families_view_push(s: Seq<MetricFamily>, x: MetricFamily)
    ensures
        families_view(s.push(x)) == families_view(s).push(x@),
{
    assert(families_view(s.push(x)) =~= families_view(s).push(x@));
}

pub proof fn lemma_families_view_update(s: Seq<MetricFamily>, i: int, x: MetricFamily)
    requires
        0 <= i < s.len(),
    ensures
        families_view(s.update(i, x)) == families_view(s).update(i, x@),
{
    assert(families_view(s.update(i, x)) =~= families_view(s).update(i, x@));
}

pub proof fn lemma_quantiles_view_push(s: Seq<Quantile>, x: Quantile)
    ensures
        quantiles_view(s.push(x)) == quantiles_view(s).push(x@),
{
    assert(quantiles_view(s.push(x)) =~= quantiles_view(s).push(x@));
}

pub proof fn lemma_buckets_view_push(s: Seq<Bucket>, x: Bucket)
    ensures
        buckets_view(s.push(x)) == buckets_view(s).push(x@),
{
    assert(buckets_view(s.push(x)) =~= buckets_view(s).push(x@));
}

/// Find a family by name in a vector of families.
pub fn find_family(fs: &Vec<MetricFamily>, name: &[u8]) -> (r: usize)
    ensures
        r == spec_find_family(families_view(fs@), name@, 0),
{
    let ghost fsv = families_view(fs@);
    let n: usize = fs.len();
    let mut i: usize = 0;
    while i < n
        invariant
            0 <= i <= n,
            n == fs@.len(),
            fsv == families_view(fs@),
            spec_find_family(fsv, name@, 0) == spec_find_family(fsv, name@, i as int),
        decreases n - i,
    {
        if bytes_eq(fs[i].name.as_slice(), name) {
            assert(fsv[i as int].name == fs@[i as int]@.name);
            return i;
        }
        assert(fsv[i as int].name == fs@[i as int]@.name);
        i = i + 1;
    }
    n
}

} // verus!
