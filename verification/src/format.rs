//! The text formatter: writes a family set back into the exposition
//! format. Help text and label values are escaped (`\\`, `\n`, and `\"`
//! in label values); a TYPE line is always written, a HELP line only
//! when the help text is not empty; summary and histogram metrics unroll
//! into their quantile/bucket, `_sum` and `_count` sample lines.

use vstd::prelude::*;
use crate::model::{
    MetricFamily,
    Metric,
    MetricData,
    MetricType,
    LabelPair,
    FamilyS,
    MetricS,
    MetricDataS,
    LabelPairS,
    QuantileS,
    BucketS,
    families_view,
    metrics_view,
    labels_view,
    quantiles_view,
    buckets_view,
};
use crate::machine::{
    counter_token,
    gauge_token,
    summary_token,
    histogram_token,
    quantile_label,
    le_label,
};
use crate::names::{count_suffix, sum_suffix, bucket_suffix};
use crate::num::{spec_u64_dec, u64_to_dec, spec_i64_dec, i64_to_dec};

verus! {

/// How one byte of help text is written.
pub open spec fn esc_help_byte(b: u8) -> Seq<u8> {
    if b == 0x5c {
        seq![0x5c, 0x5c]
    } else if b == 0x0a {
        seq![0x5c, 0x6e]
    } else {
        seq![b]
    }
}

/// How one byte of a label value is written.
pub open spec fn esc_label_byte(b: u8) -> Seq<u8> {
    if b == 0x5c {
        seq![0x5c, 0x5c]
    } else if b == 0x0a {
        seq![0x5c, 0x6e]
    } else if b == 0x22 {
        seq![0x5c, 0x22]
    } else {
        seq![b]
    }
}

/// Help text with `\` and the newline escaped.
pub open spec fn spec_escape_help(h: Seq<u8>) -> Seq<u8>
    decreases h.len(),
{
    if h.len() == 0 {
        Seq::empty()
    } else {
        esc_help_byte(h[0]) + spec_escape_help(h.drop_first())
    }
}

/// A label value with `\`, the newline and `"` escaped.
pub open spec fn spec_escape_label_value(v: Seq<u8>) -> Seq<u8>
    decreases v.len(),
{
    if v.len() == 0 {
        Seq::empty()
    } else {
        esc_label_byte(v[0]) + spec_escape_label_value(v.drop_first())
    }
}

pub proof fn lemma_escape_help_append(a: Seq<u8>, b: Seq<u8>)
    ensures
        spec_escape_help(a + b) == spec_escape_help(a) + spec_escape_help(b),
    decreases a.len(),
{
    if a.len() == 0 {
        assert(a + b =~= b);
        assert(spec_escape_help(a) + spec_escape_help(b) =~= spec_escape_help(b));
    } else {
        lemma_escape_help_append(a.drop_first(), b);
        assert((a + b).drop_first() =~= a.drop_first() + b);
        assert(esc_help_byte(a[0]) + (spec_escape_help(a.drop_first()) + spec_escape_help(b))
            =~= (esc_help_byte(a[0]) + spec_escape_help(a.drop_first())) + spec_escape_help(b));
    }
}

pub proof fn lemma_escape_label_append(a: Seq<u8>, b: Seq<u8>)
    ensures
        spec_escape_label_value(a + b) == spec_escape_label_value(a) + spec_escape_label_value(b),
    decreases a.len(),
{
    if a.len() == 0 {
        assert(a + b =~= b);
        assert(spec_escape_label_value(a) + spec_escape_label_value(b) =~= spec_escape_label_value(
            b,
        ));
    } else {
        lemma_escape_label_append(a.drop_first(), b);
        assert((a + b).drop_first() =~= a.drop_first() + b);
        assert(esc_label_byte(a[0]) + (spec_escape_label_value(a.drop_first())
            + spec_escape_label_value(b)) =~= (esc_label_byte(a[0]) + spec_escape_label_value(
            a.drop_first(),
        )) + spec_escape_label_value(b));
    }
}

/// Append escaped help text to `out`.
fn write_escaped_help(out: &mut Vec<u8>, h: &[u8])
    ensures
        final(out)@ == old(out)@ + spec_escape_help(h@),
{
    let n: usize = h.len();
    let mut i: usize = 0;
    while i < n
        invariant
            0 <= i <= n,
            n == h@.len(),
            out@ == old(out)@ + spec_escape_help(h@.subrange(0, i as int)),
        decreases n - i,
    {
        let b: u8 = h[i];
        proof {
            lemma_escape_help_append(h@.subrange(0, i as int), seq![h@[i as int]]);
            assert(h@.subrange(0, i + 1) =~= h@.subrange(0, i as int) + seq![h@[i as int]]);
            assert(seq![h@[i as int]].drop_first() =~= Seq::<u8>::empty());
            assert(spec_escape_help(Seq::<u8>::empty()) == Seq::<u8>::empty());
            assert(spec_escape_help(seq![h@[i as int]]) =~= esc_help_byte(h@[i as int]));
        }
        if b == 0x5c {
            out.push(0x5c);
            out.push(0x5c);
        } else if b == 0x0a {
            out.push(0x5c);
            out.push(0x6e);
        } else {
            out.push(b);
        }
        proof {
            assert(out@ =~= old(out)@ + spec_escape_help(h@.subrange(0, i + 1)));
        }
        i = i + 1;
    }
    proof {
        assert(h@.subrange(0, n as int) =~= h@);
    }
}

/// Append an escaped label value to `out`.
fn write_escaped_label_value(out: &mut Vec<u8>, v: &[u8])
    ensures
        final(out)@ == old(out)@ + spec_escape_label_value(v@),
{
    let n: usize = v.len();
    let mut i: usize = 0;
    while i < n
        invariant
            0 <= i <= n,
            n == v@.len(),
            out@ == old(out)@ + spec_escape_label_value(v@.subrange(0, i as int)),
        decreases n - i,
    {
        let b: u8 = v[i];
        proof {
            lemma_escape_label_append(v@.subrange(0, i as int), seq![v@[i as int]]);
            assert(v@.subrange(0, i + 1) =~= v@.subrange(0, i as int) + seq![v@[i as int]]);
            assert(seq![v@[i as int]].drop_first() =~= Seq::<u8>::empty());
            assert(spec_escape_label_value(Seq::<u8>::empty()) == Seq::<u8>::empty());
            assert(spec_escape_label_value(seq![v@[i as int]]) =~= esc_label_byte(v@[i as int]));
        }
        if b == 0x5c {
            out.push(0x5c);
            out.push(0x5c);
        } else if b == 0x0a {
            out.push(0x5c);
            out.push(0x6e);
        } else if b == 0x22 {
            out.push(0x5c);
            out.push(0x22);
        } else {
            out.push(b);
        }
        proof {
            assert(out@ =~= old(out)@ + spec_escape_label_value(v@.subrange(0, i + 1)));
        }
        i = i + 1;
    }
    proof {
        assert(v@.subrange(0, n as int) =~= v@);
    }
}

/// One formatted label pair: `name="escaped value"`.
pub open spec fn spec_format_label(lp: LabelPairS) -> Seq<u8> {
    lp.name + seq![0x3du8, 0x22u8] + spec_escape_label_value(lp.value) + seq![0x22u8]
}

/// A comma-separated label list, with `extra` appended when present (the
/// `quantile`/`le` pair of an unrolled aggregate line).
pub open spec fn spec_format_labels(labels: Seq<LabelPairS>, extra: Option<LabelPairS>) -> Seq<u8>
    decreases labels.len(),
{
    if labels.len() == 0 {
        match extra {
            Some(lp) => spec_format_label(lp),
            None => Seq::empty(),
        }
    } else if labels.len() == 1 && extra is None {
        spec_format_label(labels[0])
    } else {
        spec_format_label(labels[0]) + seq![0x2cu8] + spec_format_labels(
            labels.drop_first(),
            extra,
        )
    }
}

/// A whole label block: empty when there are no pairs, else braced.
pub open spec fn spec_format_label_block(labels: Seq<LabelPairS>, extra: Option<LabelPairS>) -> Seq<
    u8,
> {
    if labels.len() == 0 && extra is None {
        Seq::empty()
    } else {
        seq![0x7bu8] + spec_format_labels(labels, extra) + seq![0x7du8]
    }
}

/// One sample line: name, label block, a space, the value token, the
/// timestamp when present, and a newline.
pub open spec fn spec_format_sample(
    name: Seq<u8>,
    labels: Seq<LabelPairS>,
    extra: Option<LabelPairS>,
    value: Seq<u8>,
    ts: Option<i64>,
) -> Seq<u8> {
    name + spec_format_label_block(labels, extra) + seq![0x20u8] + value + (match ts {
        Some(v) => seq![0x20u8] + spec_i64_dec(v),
        None => Seq::empty(),
    }) + seq![0x0au8]
}

/// The sample lines of one metric, unrolled by its payload.
pub open spec fn spec_format_metric(fname: Seq<u8>, m: MetricS) -> Seq<u8> {
    match m.data {
        MetricDataS::Counter { value } => spec_format_sample(
            fname,
            m.labels,
            None,
            value,
            m.timestamp_ms,
        ),
        MetricDataS::Gauge { value } => spec_format_sample(
            fname,
            m.labels,
            None,
            value,
            m.timestamp_ms,
        ),
        MetricDataS::Untyped { value } => spec_format_sample(
            fname,
            m.labels,
            None,
            value,
            m.timestamp_ms,
        ),
        MetricDataS::Summary { sample_count, sample_sum, quantiles } => spec_format_quantiles(
            fname,
            m.labels,
            quantiles,
        ) + spec_format_sample(fname + sum_suffix(), m.labels, None, sample_sum, None)
            + spec_format_sample(
            fname + count_suffix(),
            m.labels,
            None,
            spec_u64_dec(sample_count),
            None,
        ),
        MetricDataS::Histogram { sample_count, sample_sum, buckets } => spec_format_buckets(
            fname,
            m.labels,
            buckets,
        ) + spec_format_sample(fname + sum_suffix(), m.labels, None, sample_sum, None)
            + spec_format_sample(
            fname + count_suffix(),
            m.labels,
            None,
            spec_u64_dec(sample_count),
            None,
        ),
    }
}

pub open spec fn spec_format_quantiles(
    fname: Seq<u8>,
    labels: Seq<LabelPairS>,
    qs: Seq<QuantileS>,
) -> Seq<u8>
    decreases qs.len(),
{
    if qs.len() == 0 {
        Seq::empty()
    } else {
        spec_format_sample(
            fname,
            labels,
            Some(LabelPairS { name: quantile_label(), value: qs[0].quantile }),
            qs[0].value,
            None,
        ) + spec_format_quantiles(fname, labels, qs.drop_first())
    }
}

pub open spec fn spec_format_buckets(
    fname: Seq<u8>,
    labels: Seq<LabelPairS>,
    bs: Seq<BucketS>,
) -> Seq<u8>
    decreases bs.len(),
{
    if bs.len() == 0 {
        Seq::empty()
    } else {
        spec_format_sample(
            fname + bucket_suffix(),
            labels,
            Some(LabelPairS { name: le_label(), value: bs[0].upper_bound }),
            spec_u64_dec(bs[0].cumulative_count),
            None,
        ) + spec_format_buckets(fname, labels, bs.drop_first())
    }
}

pub open spec fn spec_type_token(ty: MetricType) -> Seq<u8> {
    match ty {
        MetricType::Counter => counter_token(),
        MetricType::Gauge => gauge_token(),
        MetricType::Summary => summary_token(),
        MetricType::Histogram => histogram_token(),
        MetricType::Untyped => seq![0x75, 0x6e, 0x74, 0x79, 0x70, 0x65, 0x64],  // "untyped"
    }
}

/// `# HELP name text`, when the help text is non-empty.
pub open spec fn spec_format_help_line(f: FamilyS) -> Seq<u8> {
    if f.help.len() == 0 {
        Seq::empty()
    } else {
        help_prefix() + f.name + seq![0x20u8] + spec_escape_help(f.help) + seq![0x0au8]
    }
}

pub open spec fn help_prefix() -> Seq<u8> {
    seq![0x23, 0x20, 0x48, 0x45, 0x4c, 0x50, 0x20]  // "# HELP "
}

pub open spec fn type_prefix() -> Seq<u8> {
    seq![0x23, 0x20, 0x54, 0x59, 0x50, 0x45, 0x20]  // "# TYPE "
}

/// `# TYPE name type`.
pub open spec fn spec_format_type_line(f: FamilyS) -> Seq<u8> {
    type_prefix() + f.name + seq![0x20u8] + spec_type_token(f.metric_type) + seq![0x0au8]
}

pub open spec fn spec_format_metrics(fname: Seq<u8>, ms: Seq<MetricS>) -> Seq<u8>
    decreases ms.len(),
{
    if ms.len() == 0 {
        Seq::empty()
    } else {
        spec_format_metric(fname, ms[0]) + spec_format_metrics(fname, ms.drop_first())
    }
}

/// One family: its HELP and TYPE lines, then its sample lines.
pub open spec fn spec_format_family(f: FamilyS) -> Seq<u8> {
    spec_format_help_line(f) + spec_format_type_line(f) + spec_format_metrics(f.name, f.metrics)
}

/// A whole family set.
pub open spec fn spec_format(fams: Seq<FamilyS>) -> Seq<u8>
    decreases fams.len(),
{
    if fams.len() == 0 {
        Seq::empty()
    } else {
        spec_format_family(fams[0]) + spec_format(fams.drop_first())
    }
}

/// Append a byte sequence.
fn write_bytes(out: &mut Vec<u8>, b: &[u8])
    ensures
        final(out)@ == old(out)@ + b@,
{
    let n: usize = b.len();
    let mut i: usize = 0;
    while i < n
        invariant
            0 <= i <= n,
            n == b@.len(),
            out@ == old(out)@ + b@.subrange(0, i as int),
        decreases n - i,
    {
        out.push(b[i]);
        proof {
            assert(old(out)@ + b@.subrange(0, i + 1) =~= (old(out)@ + b@.subrange(0, i as int))
                .push(b@[i as int]));
        }
        i = i + 1;
    }
    proof {
        assert(b@.subrange(0, n as int) =~= b@);
    }
}

/// Append one label pair.
fn write_label(out: &mut Vec<u8>, lp: &LabelPair)
    ensures
        final(out)@ == old(out)@ + spec_format_label(lp@),
{
    write_bytes(out, lp.name.as_slice());
    out.push(0x3d);
    out.push(0x22);
    write_escaped_label_value(out, lp.value.as_slice());
    out.push(0x22);
    proof {
        assert(out@ =~= old(out)@ + spec_format_label(lp@));
    }
}

/// Append a comma-separated label list with an optional extra pair.
fn write_labels(out: &mut Vec<u8>, labels: &Vec<LabelPair>, extra: Option<&LabelPair>)
    ensures
        final(out)@ == old(out)@ + spec_format_labels(
            labels_view(labels@),
            match extra {
                Some(lp) => Some(lp@),
                None => None,
            },
        ),
    decreases labels@.len(),
{
    let ghost lv = labels_view(labels@);
    let ghost ev: Option<LabelPairS> = match extra {
        Some(lp) => Some(lp@),
        None => None,
    };
    let n: usize = labels.len();
    proof {
        assert(lv.subrange(0, n as int) =~= lv);
    }
    let mut i: usize = 0;
    while i < n
        invariant
            0 <= i <= n,
            n == labels@.len(),
            lv == labels_view(labels@),
            ev == (match extra {
                Some(lp) => Some(lp@),
                None => None,
            }),
            out@ + spec_format_labels(lv.subrange(i as int, n as int), ev) == old(out)@
                + spec_format_labels(lv, ev),
        decreases n - i,
    {
        let ghost rest = lv.subrange(i as int, n as int);
        proof {
            assert(rest[0] == lv[i as int]);
            assert(rest.drop_first() =~= lv.subrange(i + 1, n as int));
        }
        write_label(out, &labels[i]);
        if i + 1 < n || extra.is_some() {
            out.push(0x2c);
            proof {
                assert(spec_format_labels(rest, ev) == spec_format_label(lv[i as int]) + seq![
                    0x2cu8,
                ] + spec_format_labels(lv.subrange(i + 1, n as int), ev));
                assert(out@ + spec_format_labels(lv.subrange(i + 1, n as int), ev) =~= old(out)@
                    + spec_format_labels(lv, ev));
            }
        } else {
            proof {
                assert(spec_format_labels(rest, ev) == spec_format_label(lv[i as int]));
                assert(spec_format_labels(lv.subrange(i + 1, n as int), ev) =~= Seq::<u8>::empty());
                assert(out@ + spec_format_labels(lv.subrange(i + 1, n as int), ev) =~= out@);
            }
        }
        i = i + 1;
    }
    match extra {
        Some(lp) => {
            proof {
                assert(lv.subrange(n as int, n as int) =~= Seq::<LabelPairS>::empty());
            }
            write_label(out, lp);
        },
        None => {
            proof {
                assert(lv.subrange(n as int, n as int) =~= Seq::<LabelPairS>::empty());
                assert(spec_format_labels(lv.subrange(n as int, n as int), ev) =~= Seq::<
                    u8,
                >::empty());
                assert(out@ + Seq::<u8>::empty() =~= out@);
            }
        },
    }
    proof {
        assert(out@ =~= old(out)@ + spec_format_labels(lv, ev));
    }
}

/// Append a label block when any pair is present.
fn write_label_block(out: &mut Vec<u8>, labels: &Vec<LabelPair>, extra: Option<&LabelPair>)
    ensures
        final(out)@ == old(out)@ + spec_format_label_block(
            labels_view(labels@),
            match extra {
                Some(lp) => Some(lp@),
                None => None,
            },
        ),
{
    if labels.len() == 0 && extra.is_none() {
        proof {
            assert(out@ + Seq::<u8>::empty() =~= out@);
        }
        return ;
    }
    out.push(0x7b);
    write_labels(out, labels, extra);
    out.push(0x7d);
    proof {
        assert(out@ =~= old(out)@ + spec_format_label_block(
            labels_view(labels@),
            match extra {
                Some(lp) => Some(lp@),
                None => None,
            },
        ));
    }
}

/// Append one sample line.
fn write_sample(
    out: &mut Vec<u8>,
    name: &[u8],
    suffix: &[u8],
    labels: &Vec<LabelPair>,
    extra: Option<&LabelPair>,
    value: &[u8],
    ts: Option<i64>,
)
    ensures
        final(out)@ == old(out)@ + spec_format_sample(
            name@ + suffix@,
            labels_view(labels@),
            match extra {
                Some(lp) => Some(lp@),
                None => None,
            },
            value@,
            ts,
        ),
{
    write_bytes(out, name);
    write_bytes(out, suffix);
    write_label_block(out, labels, extra);
    out.push(0x20);
    write_bytes(out, value);
    match ts {
        Some(v) => {
            out.push(0x20);
            let d = i64_to_dec(v);
            write_bytes(out, d.as_slice());
        },
        None => {
        },
    }
    out.push(0x0a);
    proof {
        assert(out@ =~= old(out)@ + spec_format_sample(
            name@ + suffix@,
            labels_view(labels@),
            match extra {
                Some(lp) => Some(lp@),
                None => None,
            },
            value@,
            ts,
        ));
    }
}

/// Append the sample lines of one metric.
fn write_metric(out: &mut Vec<u8>, fname: &[u8], m: &Metric)
    ensures
        final(out)@ == old(out)@ + spec_format_metric(fname@, m@),
{
    let empty_suffix: [u8; 0] = [];
    proof {
        assert(fname@ + empty_suffix@ =~= fname@);
    }
    match &m.data {
        MetricData::Counter { value } => {
            write_sample(
                out,
                fname,
                empty_suffix.as_slice(),
                &m.labels,
                None,
                value.text.as_slice(),
                m.timestamp_ms,
            );
        },
        MetricData::Gauge { value } => {
            write_sample(
                out,
                fname,
                empty_suffix.as_slice(),
                &m.labels,
                None,
                value.text.as_slice(),
                m.timestamp_ms,
            );
        },
        MetricData::Untyped { value } => {
            write_sample(
                out,
                fname,
                empty_suffix.as_slice(),
                &m.labels,
                None,
                value.text.as_slice(),
                m.timestamp_ms,
            );
        },
        MetricData::Summary { sample_count, sample_sum, quantiles } => {
            let qname: [u8; 8] = [0x71, 0x75, 0x61, 0x6e, 0x74, 0x69, 0x6c, 0x65];
            proof {
                assert(qname@ =~= quantile_label());
            }
            let n: usize = quantiles.len();
            let ghost qv = quantiles_view(quantiles@);
            proof {
                assert(qv.subrange(0, n as int) =~= qv);
            }
            let mut i: usize = 0;
            while i < n
                invariant
                    0 <= i <= n,
                    n == quantiles@.len(),
                    qv == quantiles_view(quantiles@),
                    qname@ == quantile_label(),
                    out@ + spec_format_quantiles(fname@, labels_view(m.labels@), qv.subrange(i as int, n as int))
                        == old(out)@ + spec_format_quantiles(fname@, labels_view(m.labels@), qv),
                decreases n - i,
            {
                let ghost rest = qv.subrange(i as int, n as int);
                proof {
                    assert(rest[0] == qv[i as int]);
                    assert(rest.drop_first() =~= qv.subrange(i + 1, n as int));
                }
                let q = &quantiles[i];
                let extra = LabelPair {
                    name: slice_to_vec_u8(qname.as_slice()),
                    value: slice_to_vec_u8(q.quantile.text.as_slice()),
                };
                proof {
                    assert(extra@ =~= (LabelPairS {
                        name: quantile_label(),
                        value: qv[i as int].quantile,
                    }));
                }
                write_sample(
                    out,
                    fname,
                    empty_suffix.as_slice(),
                    &m.labels,
                    Some(&extra),
                    q.value.text.as_slice(),
                    None,
                );
                proof {
                    assert(out@ + spec_format_quantiles(
                        fname@,
                        labels_view(m.labels@),
                        qv.subrange(i + 1, n as int),
                    ) =~= old(out)@ + spec_format_quantiles(fname@, labels_view(m.labels@), qv));
                }
                i = i + 1;
            }
            proof {
                assert(qv.subrange(n as int, n as int) =~= Seq::<crate::model::QuantileS>::empty());
                assert(out@ + Seq::<u8>::empty() =~= out@);
            }
            let sum_arr: [u8; 4] = [0x5f, 0x73, 0x75, 0x6d];
            let count_arr: [u8; 6] = [0x5f, 0x63, 0x6f, 0x75, 0x6e, 0x74];
            proof {
                assert(sum_arr@ =~= sum_suffix());
                assert(count_arr@ =~= count_suffix());
            }
            write_sample(
                out,
                fname,
                sum_arr.as_slice(),
                &m.labels,
                None,
                sample_sum.text.as_slice(),
                None,
            );
            let cd = u64_to_dec(*sample_count);
            write_sample(
                out,
                fname,
                count_arr.as_slice(),
                &m.labels,
                None,
                cd.as_slice(),
                None,
            );
            proof {
                assert(out@ =~= old(out)@ + spec_format_metric(fname@, m@));
            }
        },
        MetricData::Histogram { sample_count, sample_sum, buckets } => {
            let lename: [u8; 2] = [0x6c, 0x65];
            let bucket_arr: [u8; 7] = [0x5f, 0x62, 0x75, 0x63, 0x6b, 0x65, 0x74];
            proof {
                assert(lename@ =~= le_label());
                assert(bucket_arr@ =~= bucket_suffix());
            }
            let n: usize = buckets.len();
            let ghost bv = buckets_view(buckets@);
            proof {
                assert(bv.subrange(0, n as int) =~= bv);
            }
            let mut i: usize = 0;
            while i < n
                invariant
                    0 <= i <= n,
                    n == buckets@.len(),
                    bv == buckets_view(buckets@),
                    lename@ == le_label(),
                    bucket_arr@ == bucket_suffix(),
                    out@ + spec_format_buckets(fname@, labels_view(m.labels@), bv.subrange(i as int, n as int))
                        == old(out)@ + spec_format_buckets(fname@, labels_view(m.labels@), bv),
                decreases n - i,
            {
                let ghost rest = bv.subrange(i as int, n as int);
                proof {
                    assert(rest[0] == bv[i as int]);
                    assert(rest.drop_first() =~= bv.subrange(i + 1, n as int));
                }
                let b = &buckets[i];
                let extra = LabelPair {
                    name: slice_to_vec_u8(lename.as_slice()),
                    value: slice_to_vec_u8(b.upper_bound.text.as_slice()),
                };
                proof {
                    assert(extra@ =~= (LabelPairS {
                        name: le_label(),
                        value: bv[i as int].upper_bound,
                    }));
                }
                let cd = u64_to_dec(b.cumulative_count);
                write_sample(
                    out,
                    fname,
                    bucket_arr.as_slice(),
                    &m.labels,
                    Some(&extra),
                    cd.as_slice(),
                    None,
                );
                proof {
                    assert(out@ + spec_format_buckets(
                        fname@,
                        labels_view(m.labels@),
                        bv.subrange(i + 1, n as int),
                    ) =~= old(out)@ + spec_format_buckets(fname@, labels_view(m.labels@), bv));
                }
                i = i + 1;
            }
            proof {
                assert(bv.subrange(n as int, n as int) =~= Seq::<crate::model::BucketS>::empty());
                assert(out@ + Seq::<u8>::empty() =~= out@);
            }
            let sum_arr: [u8; 4] = [0x5f, 0x73, 0x75, 0x6d];
            let count_arr: [u8; 6] = [0x5f, 0x63, 0x6f, 0x75, 0x6e, 0x74];
            proof {
                assert(sum_arr@ =~= sum_suffix());
                assert(count_arr@ =~= count_suffix());
            }
            write_sample(
                out,
                fname,
                sum_arr.as_slice(),
                &m.labels,
                None,
                sample_sum.text.as_slice(),
                None,
            );
            let cd = u64_to_dec(*sample_count);
            write_sample(
                out,
                fname,
                count_arr.as_slice(),
                &m.labels,
                None,
                cd.as_slice(),
                None,
            );
            proof {
                assert(out@ =~= old(out)@ + spec_format_metric(fname@, m@));
            }
        },
    }
}

/// Copy a byte slice into an owned vector.
fn slice_to_vec_u8(s: &[u8]) -> (r: Vec<u8>)
    ensures
        r@ == s@,
{
    vstd::slice::slice_to_vec(s)
}

/// Append one family: HELP and TYPE lines, then the samples.
fn write_family(out: &mut Vec<u8>, f: &MetricFamily)
    ensures
        final(out)@ == old(out)@ + spec_format_family(f@),
{
    if f.help.len() > 0 {
        let hp: [u8; 7] = [0x23, 0x20, 0x48, 0x45, 0x4c, 0x50, 0x20];
        proof {
            assert(hp@ =~= help_prefix());
        }
        write_bytes(out, hp.as_slice());
        write_bytes(out, f.name.as_slice());
        out.push(0x20);
        write_escaped_help(out, f.help.as_slice());
        out.push(0x0a);
    }
    proof {
        assert(out@ =~= old(out)@ + spec_format_help_line(f@));
    }
    let tp: [u8; 7] = [0x23, 0x20, 0x54, 0x59, 0x50, 0x45, 0x20];
    proof {
        assert(tp@ =~= type_prefix());
    }
    write_bytes(out, tp.as_slice());
    write_bytes(out, f.name.as_slice());
    out.push(0x20);
    let tt: Vec<u8> = match f.metric_type {
        MetricType::Counter => slice_to_vec_u8([0x63, 0x6f, 0x75, 0x6e, 0x74, 0x65, 0x72].as_slice()),
        MetricType::Gauge => slice_to_vec_u8([0x67, 0x61, 0x75, 0x67, 0x65].as_slice()),
        MetricType::Summary => slice_to_vec_u8([0x73, 0x75, 0x6d, 0x6d, 0x61, 0x72, 0x79].as_slice()),
        MetricType::Histogram => slice_to_vec_u8(
            [0x68, 0x69, 0x73, 0x74, 0x6f, 0x67, 0x72, 0x61, 0x6d].as_slice(),
        ),
        MetricType::Untyped => slice_to_vec_u8([0x75, 0x6e, 0x74, 0x79, 0x70, 0x65, 0x64].as_slice()),
    };
    proof {
        assert(tt@ =~= spec_type_token(f@.metric_type));
    }
    write_bytes(out, tt.as_slice());
    out.push(0x0a);
    proof {
        assert(out@ =~= old(out)@ + spec_format_help_line(f@) + spec_format_type_line(f@));
    }
    let n: usize = f.metrics.len();
    let ghost mv = metrics_view(f.metrics@);
    proof {
        assert(mv.subrange(0, n as int) =~= mv);
    }
    let mut i: usize = 0;
    while i < n
        invariant
            0 <= i <= n,
            n == f.metrics@.len(),
            mv == metrics_view(f.metrics@),
            out@ + spec_format_metrics(f.name@, mv.subrange(i as int, n as int)) == old(out)@
                + spec_format_help_line(f@) + spec_format_type_line(f@) + spec_format_metrics(
                f.name@,
                mv,
            ),
        decreases n - i,
    {
        let ghost rest = mv.subrange(i as int, n as int);
        proof {
            assert(rest[0] == mv[i as int]);
            assert(rest.drop_first() =~= mv.subrange(i + 1, n as int));
        }
        write_metric(out, f.name.as_slice(), &f.metrics[i]);
        proof {
            assert(out@ + spec_format_metrics(f.name@, mv.subrange(i + 1, n as int)) =~= old(out)@
                + spec_format_help_line(f@) + spec_format_type_line(f@) + spec_format_metrics(
                f.name@,
                mv,
            ));
        }
        i = i + 1;
    }
    proof {
        assert(mv.subrange(n as int, n as int) =~= Seq::<MetricS>::empty());
        assert(out@ + Seq::<u8>::empty() =~= out@);
        assert(out@ =~= old(out)@ + spec_format_family(f@));
    }
}

/// Write a family set into the exposition format.
pub fn format_families(fams: &Vec<MetricFamily>) -> (out: Vec<u8>)
    ensures
        out@ == spec_format(families_view(fams@)),
{
    let mut out: Vec<u8> = Vec::new();
    let n: usize = fams.len();
    let ghost fv = families_view(fams@);
    proof {
        assert(fv.subrange(0, n as int) =~= fv);
    }
    let mut i: usize = 0;
    while i < n
        invariant
            0 <= i <= n,
            n == fams@.len(),
            fv == families_view(fams@),
            out@ + spec_format(fv.subrange(i as int, n as int)) == spec_format(fv),
        decreases n - i,
    {
        let ghost rest = fv.subrange(i as int, n as int);
        proof {
            assert(rest[0] == fv[i as int]);
            assert(rest.drop_first() =~= fv.subrange(i + 1, n as int));
        }
        write_family(&mut out, &fams[i]);
        proof {
            assert(out@ + spec_format(fv.subrange(i + 1, n as int)) =~= spec_format(fv));
        }
        i = i + 1;
    }
    proof {
        assert(fv.subrange(n as int, n as int) =~= Seq::<FamilyS>::empty());
        assert(out@ + Seq::<u8>::empty() =~= out@);
        assert(out@ =~= spec_format(fv));
    }
    out
}

} // verus!
