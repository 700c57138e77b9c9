//! The round-trip law: a well-formed family set, written by the
//! formatter, parses back to itself.
//!
//! The proof walks the formatted text line by line through the
//! automaton. The lemmas in the first half pin down what each scanner
//! returns on bytes of a known shape; the second half chains them over
//! label blocks, sample lines, directive lines, metrics and families.

use vstd::prelude::*;
use crate::chars::{
    spec_is_blank_or_tab,
    spec_is_label_name_start_byte,
    spec_is_label_name_cont_byte,
    spec_is_metric_name_start_byte,
    spec_is_metric_name_cont_byte,
};
use crate::float_text::{
    spec_is_float_literal,
    spec_is_digit,
    spec_is_sign,
    digits_end,
    lemma_digits_end,
    spec_keyword_from,
    spec_number_from,
    spec_exp_from,
    spec_lower,
};
use crate::scan::{
    spec_skip_blanks,
    spec_token_end,
    spec_line_end,
    spec_label_name_end,
    spec_metric_name_end,
    spec_name_cont_end,
};
use crate::machine::{
    MachineS,
    State,
    Step,
    Outcome,
    spec_run,
    spec_step,
    spec_parse,
    reserved_label,
    quantile_label,
    le_label,
};
use crate::model::{MetricType, LabelPairS, FamilyS, MetricS, MetricDataS};
use crate::format::{spec_format_label, spec_format_labels, spec_escape_label_value};

verus! {

/// A valid metric name: nonempty, a start byte, then continuation bytes.
pub open spec fn wf_metric_name(n: Seq<u8>) -> bool {
    n.len() > 0 && spec_is_metric_name_start_byte(n[0]) && (forall|i: int|
        0 < i < n.len() ==> spec_is_metric_name_cont_byte(n[i]))
}

/// A valid label name.
pub open spec fn wf_label_name(n: Seq<u8>) -> bool {
    n.len() > 0 && spec_is_label_name_start_byte(n[0]) && (forall|i: int|
        0 < i < n.len() ==> spec_is_label_name_cont_byte(n[i]))
}

/// Skipping blanks where none stand does nothing.
pub proof fn lemma_skip_blanks_none(t: Seq<u8>, p: int)
    requires
        0 <= p <= t.len(),
        p < t.len() ==> !spec_is_blank_or_tab(t[p]),
    ensures
        spec_skip_blanks(t, p) == p,
{
}

/// A token of known content and length: bytes free of blanks and
/// newlines scan as one token ending at the known terminator.
pub proof fn lemma_token_end_known(t: Seq<u8>, p: int, k: int)
    requires
        0 <= p <= k <= t.len(),
        forall|i: int| p <= i < k ==> !spec_is_blank_or_tab(t[i]) && t[i] != 0x0a,
        k < t.len() ==> spec_is_blank_or_tab(t[k]) || t[k] == 0x0a,
    ensures
        spec_token_end(t, p) == k,
    decreases k - p,
{
    if p < k {
        lemma_token_end_known(t, p + 1, k);
    }
}

/// A line of known content: bytes free of newlines scan to the newline
/// (or the end) at the known position.
pub proof fn lemma_line_end_known(t: Seq<u8>, p: int, k: int)
    requires
        0 <= p <= k <= t.len(),
        forall|i: int| p <= i < k ==> t[i] != 0x0a,
        k < t.len() ==> t[k] == 0x0a,
    ensures
        spec_line_end(t, p) == k,
    decreases k - p,
{
    if p < k {
        lemma_line_end_known(t, p + 1, k);
    }
}

proof fn lemma_name_cont_end_known(t: Seq<u8>, p: int, k: int, metric: bool)
    requires
        0 <= p <= k <= t.len(),
        forall|i: int|
            p <= i < k ==> (if metric {
                spec_is_metric_name_cont_byte(t[i])
            } else {
                spec_is_label_name_cont_byte(t[i])
            }),
        k < t.len() ==> (if metric {
            !spec_is_metric_name_cont_byte(t[k])
        } else {
            !spec_is_label_name_cont_byte(t[k])
        }),
    ensures
        spec_name_cont_end(t, p, metric) == k,
    decreases k - p,
{
    if p < k {
        lemma_name_cont_end_known(t, p + 1, k, metric);
    }
}

/// A metric name of known content: the scan ends exactly after it when
/// the next byte cannot continue a name.
pub proof fn lemma_metric_name_end_known(t: Seq<u8>, p: int, n: Seq<u8>)
    requires
        0 <= p,
        p + n.len() <= t.len(),
        wf_metric_name(n),
        t.subrange(p, p + n.len()) == n,
        p + n.len() < t.len() ==> !spec_is_metric_name_cont_byte(t[p + n.len()]),
    ensures
        spec_metric_name_end(t, p) == p + n.len(),
{
    assert forall|i: int| 0 <= i < n.len() implies t[p + i] == n[i] by {
        assert(t.subrange(p, p + n.len() as int)[i] == t[p + i]);
    }
    assert(t[p + 0] == n[0]);
    assert(spec_is_metric_name_start_byte(t[p]));
    assert forall|i: int| p + 1 <= i < p + n.len() implies spec_is_metric_name_cont_byte(
        t[i],
    ) by {
        assert(t.subrange(p, p + n.len() as int)[i - p] == t[i]);
        assert(n[i - p] == t[i]);
    }
    lemma_name_cont_end_known(t, p + 1, p + n.len(), true);
}

/// A label name of known content scans to its end.
pub proof fn lemma_label_name_end_known(t: Seq<u8>, p: int, n: Seq<u8>)
    requires
        0 <= p,
        p + n.len() <= t.len(),
        wf_label_name(n),
        t.subrange(p, p + n.len()) == n,
        p + n.len() < t.len() ==> !spec_is_label_name_cont_byte(t[p + n.len()]),
    ensures
        spec_label_name_end(t, p) == p + n.len(),
{
    assert forall|i: int| 0 <= i < n.len() implies t[p + i] == n[i] by {
        assert(t.subrange(p, p + n.len() as int)[i] == t[p + i]);
    }
    assert(t[p + 0] == n[0]);
    assert(spec_is_label_name_start_byte(t[p]));
    assert forall|i: int| p + 1 <= i < p + n.len() implies spec_is_label_name_cont_byte(
        t[i],
    ) by {
        assert(t.subrange(p, p + n.len() as int)[i - p] == t[i]);
        assert(n[i - p] == t[i]);
    }
    lemma_name_cont_end_known(t, p + 1, p + n.len(), false);
}

/// No byte of a float literal is a blank, a tab or a newline.
pub proof fn lemma_float_literal_bytes(v: Seq<u8>)
    requires
        spec_is_float_literal(v),
    ensures
        forall|i: int| 0 <= i < v.len() ==> !spec_is_blank_or_tab(v[i]) && v[i] != 0x0a,
        v.len() > 0,
{
    let s: int = if v.len() > 0 && spec_is_sign(v[0]) {
        1
    } else {
        0
    };
    assert forall|i: int| 0 <= i < v.len() implies !spec_is_blank_or_tab(v[i]) && v[i] != 0x0a by {
        if i < s {
            assert(spec_is_sign(v[i]));
        } else {
            lemma_float_byte_after_sign(v, s, i);
        }
    }
    if spec_number_from(v, s) {
        lemma_digits_end(v, s);
        assert(v.len() > s);
    }
}

proof fn lemma_float_byte_after_sign(v: Seq<u8>, s: int, i: int)
    requires
        spec_is_float_literal(v),
        s == (if v.len() > 0 && spec_is_sign(v[0]) {
            1int
        } else {
            0int
        }),
        s <= i < v.len(),
    ensures
        !spec_is_blank_or_tab(v[i]) && v[i] != 0x0a,
{
    if spec_keyword_from(v, s, crate::float_text::inf_keyword()) || spec_keyword_from(
        v,
        s,
        crate::float_text::infinity_keyword(),
    ) || spec_keyword_from(v, s, crate::float_text::nan_keyword()) {
        // A keyword byte lower-cases to a letter.
        assert(spec_lower(v[i]) == spec_lower(v[i]));
        if spec_keyword_from(v, s, crate::float_text::inf_keyword()) {
            assert(spec_lower(v[s + (i - s)]) == crate::float_text::inf_keyword()[i - s]);
        } else if spec_keyword_from(v, s, crate::float_text::infinity_keyword()) {
            assert(spec_lower(v[s + (i - s)]) == crate::float_text::infinity_keyword()[i - s]);
        } else {
            assert(spec_lower(v[s + (i - s)]) == crate::float_text::nan_keyword()[i - s]);
        }
    } else {
        assert(spec_number_from(v, s));
        let a = digits_end(v, s);
        lemma_digits_end(v, s);
        if a < v.len() && v[a] == 0x2e {
            let b = digits_end(v, a + 1);
            lemma_digits_end(v, a + 1);
            lemma_exp_bytes(v, b, i);
            if i < a {
            } else if i == a {
            } else if i < b {
            }
        } else {
            lemma_exp_bytes(v, a, i);
        }
    }
}

/// Unfolding one transition of the run.
pub proof fn lemma_run_step(t: Seq<u8>, p: int, st: State, m: MachineS)
    requires
        0 <= p <= t.len(),
    ensures
        spec_step(t, p, st, m) matches Step::Next { st: st2, pos, m: m2 } ==> spec_run(
            t,
            p,
            st,
            m,
        ) == spec_run(t, pos, st2, m2),
{
    crate::machine::lemma_step_progress(t, p, st, m);
}

/// The start-label-name step on a formatted pair: scan the name, expect
/// the `=`, remember the name.
#[verifier::rlimit(30)]
proof fn lemma_label_name_step(t: Seq<u8>, p: int, x: LabelPairS, m: MachineS)
    requires
        0 <= p,
        p + x.name.len() + 1 <= t.len(),
        t.subrange(p, p + x.name.len()) == x.name,
        t[p + x.name.len()] == 0x3d,
        wf_label_name(x.name),
        x.name != reserved_label(),
    ensures
        crate::machine::step_start_label_name(t, p, m) == (Step::Next {
            st: State::StartLabelValue,
            pos: p + x.name.len() + 1,
            m: MachineS { pending_label: x.name, ..m },
        }),
{
    let nl = x.name.len() as int;
    assert(t[p + 0] == x.name[0]) by {
        assert(t.subrange(p, p + nl)[0] == t[p + 0]);
    }
    assert(!spec_is_blank_or_tab(t[p]) && t[p] != 0x7d);
    lemma_skip_blanks_none(t, p);
    lemma_label_name_end_known(t, p, x.name);
    assert(t[p + nl] == 0x3d && !spec_is_blank_or_tab(t[p + nl]));
}

/// The start-label-value step on a formatted quoted value, with either
/// a comma or a closing brace after the quote.
#[verifier::rlimit(60)]
proof fn lemma_label_value_step(t: Seq<u8>, p: int, x: LabelPairS, m1: MachineS)
    requires
        0 <= p,
        ({
            let ev = spec_escape_label_value(x.value);
            &&& p + ev.len() + 3 <= t.len()
            &&& t[p] == 0x22
            &&& t.subrange(p + 1, p + 1 + ev.len()) == ev
            &&& t[p + 1 + ev.len()] == 0x22
        }),
        m1.pending_label == x.name,
        0 <= m1.cur_fam < m1.families.len(),
        (fam_is_q(m1, x) || fam_is_le(m1, x)) ==> spec_is_float_literal(x.value),
    ensures
        ({
            let ev = spec_escape_label_value(x.value);
            let vend = p + ev.len() + 2;
            let m2 = if fam_is_q(m1, x) {
                MachineS { cur_quantile: Some(x.value), ..m1 }
            } else if fam_is_le(m1, x) {
                MachineS { cur_bucket: Some(x.value), ..m1 }
            } else {
                MachineS { cur_labels: m1.cur_labels.push(x), ..m1 }
            };
            &&& (t[vend] == 0x2c ==> crate::machine::step_start_label_value(t, p, m1)
                == (Step::Next { st: State::StartLabelName, pos: vend + 1, m: m2 }))
            &&& (t[vend] == 0x7d ==> crate::machine::step_start_label_value(t, p, m1)
                == (Step::Next {
                st: State::ReadingValue,
                pos: spec_skip_blanks(t, vend + 1),
                m: m2,
            }))
        }),
{
    let ev = spec_escape_label_value(x.value);
    lemma_skip_blanks_none(t, p);
    crate::laws::lemma_label_value_roundtrip(t, p + 1, x.value, Seq::empty());
    assert(Seq::<u8>::empty() + x.value =~= x.value);
    let vend = p + ev.len() + 2;
    crate::scan::lemma_skip_blanks(t, vend + 1);
    if t[vend] == 0x2c {
        lemma_skip_blanks_none(t, vend);
    }
    if t[vend] == 0x7d {
        lemma_skip_blanks_none(t, vend);
    }
}

/// Processing one `name="value"` pair from the start-label-name state:
/// the machine reads the pair, stores it (in the labels or a scratch
/// slot), and stops on the byte after the closing quote.
#[verifier::rlimit(60)]
proof fn lemma_one_label(t: Seq<u8>, p: int, x: LabelPairS, m: MachineS) -> (r: (MachineS, int))
    requires
        0 <= p,
        p + spec_format_label(x).len() + 1 <= t.len(),
        t.subrange(p, p + spec_format_label(x).len()) == spec_format_label(x),
        wf_label_name(x.name),
        x.name != reserved_label(),
        0 <= m.cur_fam < m.families.len(),
        (fam_is_q(m, x) || fam_is_le(m, x)) ==> spec_is_float_literal(x.value),
    ensures
        ({
            let (m2, s) = r;
            let fl = spec_format_label(x).len() as int;
            &&& s == p + fl
            &&& m2 == (if fam_is_q(m, x) {
                MachineS { pending_label: x.name, cur_quantile: Some(x.value), ..m }
            } else if fam_is_le(m, x) {
                MachineS { pending_label: x.name, cur_bucket: Some(x.value), ..m }
            } else {
                MachineS { pending_label: x.name, cur_labels: m.cur_labels.push(x), ..m }
            })
            &&& (t[s] == 0x2c ==> spec_run(t, p, State::StartLabelName, m) == spec_run(
                t,
                s + 1,
                State::StartLabelName,
                m2,
            ))
            &&& (t[s] == 0x7d ==> spec_run(t, p, State::StartLabelName, m) == spec_run(
                t,
                spec_skip_blanks(t, s + 1),
                State::ReadingValue,
                m2,
            ))
        }),
{
    let fx = spec_format_label(x);
    let nl = x.name.len() as int;
    let ev = spec_escape_label_value(x.value);
    assert forall|i: int| 0 <= i < fx.len() implies t[p + i] == fx[i] by {
        assert(t.subrange(p, p + fx.len() as int)[i] == t[p + i]);
    }
    assert forall|i: int| 0 <= i < nl implies fx[i] == x.name[i] by {
        assert(fx[i] == (x.name + seq![0x3du8, 0x22u8] + ev + seq![0x22u8])[i]);
    }
    assert(fx[nl] == 0x3d && fx[nl + 1] == 0x22);
    assert(fx[nl + 2 + ev.len()] == 0x22);
    assert forall|i: int| 0 <= i < ev.len() implies fx[nl + 2 + i] == ev[i] by {
        assert(fx[nl + 2 + i] == (x.name + seq![0x3du8, 0x22u8] + ev + seq![0x22u8])[nl + 2 + i]);
    }
    assert(t.subrange(p, p + nl) =~= x.name) by {
        assert forall|i: int| 0 <= i < nl implies t.subrange(p, p + nl)[i] == x.name[i] by {
            assert(t[p + i] == fx[i]);
        }
    }
    assert(t[p + nl] == 0x3d);
    lemma_label_name_step(t, p, x, m);
    let m1 = MachineS { pending_label: x.name, ..m };
    let q = p + nl + 1;
    assert(t[q] == 0x22) by {
        assert(t[p + (nl + 1)] == fx[nl + 1]);
    }
    assert(t.subrange(q + 1, q + 1 + ev.len()) =~= ev) by {
        assert forall|i: int| 0 <= i < ev.len() implies t.subrange(q + 1, q + 1 + ev.len() as int)[i]
            == ev[i] by {
            assert(t[p + (nl + 2 + i)] == fx[nl + 2 + i]);
        }
    }
    assert(t[q + 1 + ev.len()] == 0x22) by {
        assert(t[p + (nl + 2 + ev.len())] == fx[nl + 2 + ev.len()]);
    }
    assert(fam_is_q(m1, x) == fam_is_q(m, x) && fam_is_le(m1, x) == fam_is_le(m, x));
    lemma_label_value_step(t, q, x, m1);
    let vend = q + ev.len() + 2;
    assert(vend == p + fx.len());
    lemma_run_step(t, p, State::StartLabelName, m);
    lemma_run_step(t, q, State::StartLabelValue, m1);
    let m2 = if fam_is_q(m, x) {
        MachineS { pending_label: x.name, cur_quantile: Some(x.value), ..m }
    } else if fam_is_le(m, x) {
        MachineS { pending_label: x.name, cur_bucket: Some(x.value), ..m }
    } else {
        MachineS { pending_label: x.name, cur_labels: m.cur_labels.push(x), ..m }
    };
    if t[vend] == 0x2c {
        assert(spec_run(t, p, State::StartLabelName, m) == spec_run(
            t,
            vend + 1,
            State::StartLabelName,
            m2,
        ));
    }
    if t[vend] == 0x7d {
        assert(spec_run(t, p, State::StartLabelName, m) == spec_run(
            t,
            spec_skip_blanks(t, vend + 1),
            State::ReadingValue,
            m2,
        ));
    }
    (m2, vend)
}

/// The whole label list with an optional trailing `quantile`/`le` pair,
/// then the closing brace and the space before the value: the machine
/// accumulates exactly the pairs and stops on the value's first byte.
#[verifier::rlimit(60)]
proof fn lemma_label_list(t: Seq<u8>, p: int, ls: Seq<LabelPairS>, extra: Option<LabelPairS>, m: MachineS) -> (m2: MachineS)
    requires
        0 <= p,
        ({
            let lb = spec_format_labels(ls, extra);
            &&& p + lb.len() + 2 < t.len()
            &&& t.subrange(p, p + lb.len()) == lb
            &&& t[p + lb.len()] == 0x7d
            &&& t[p + lb.len() + 1] == 0x20
            &&& !spec_is_blank_or_tab(t[p + lb.len() + 2])
        }),
        0 <= m.cur_fam < m.families.len(),
        forall|i: int|
            0 <= i < ls.len() ==> wf_label_name(#[trigger] ls[i].name) && ls[i].name
                != reserved_label() && !fam_is_q(m, ls[i]) && !fam_is_le(m, ls[i]),
        match extra {
            Some(x) => (fam_is_q(m, x) || fam_is_le(m, x)) && spec_is_float_literal(x.value)
                && wf_label_name(x.name) && x.name != reserved_label(),
            None => true,
        },
    ensures
        ({
            let lb = spec_format_labels(ls, extra);
            &&& spec_run(t, p, State::StartLabelName, m) == spec_run(
                t,
                p + lb.len() + 2,
                State::ReadingValue,
                m2,
            )
            &&& m2.families == m.families
            &&& m2.cur_fam == m.cur_fam
            &&& m2.role == m.role
            &&& m2.line == m.line
            &&& m2.last_metric == m.last_metric
            &&& m2.cur_labels == m.cur_labels + ls
            &&& m2.cur_quantile == (match extra {
                Some(x) => if fam_is_q(m, x) {
                    Some(x.value)
                } else {
                    m.cur_quantile
                },
                None => m.cur_quantile,
            })
            &&& m2.cur_bucket == (match extra {
                Some(x) => if fam_is_le(m, x) {
                    Some(x.value)
                } else {
                    m.cur_bucket
                },
                None => m.cur_bucket,
            })
        }),
    decreases ls.len(),
{
    let lb = spec_format_labels(ls, extra);
    if ls.len() == 0 && extra is None {
        // Just the closing brace: the machine moves straight to the value.
        assert(lb.len() == 0);
        lemma_skip_blanks_none(t, p);
        assert(spec_skip_blanks(t, p + 1) == spec_skip_blanks(t, p + 2));
        lemma_skip_blanks_none(t, p + 2);
        assert(crate::machine::step_start_label_name(t, p, m) == (Step::Next {
            st: State::ReadingValue,
            pos: p + 2,
            m,
        }));
        lemma_run_step(t, p, State::StartLabelName, m);
        assert(m.cur_labels + ls =~= m.cur_labels);
        m
    } else if ls.len() == 0 {
        let x = extra->0;
        assert(lb == spec_format_label(x));
        let rr = lemma_one_label(t, p, x, m);
        let s = rr.1;
        assert(t[s] == 0x7d);
        assert(spec_skip_blanks(t, s + 1) == spec_skip_blanks(t, s + 2));
        lemma_skip_blanks_none(t, s + 2);
        assert(m.cur_labels + ls =~= m.cur_labels);
        rr.0
    } else {
        let x = ls[0];
        let rest = spec_format_labels(ls.drop_first(), extra);
        if ls.len() == 1 && extra is None {
            assert(lb == spec_format_label(x));
            let rr = lemma_one_label(t, p, x, m);
            let s = rr.1;
            assert(t[s] == 0x7d);
            assert(spec_skip_blanks(t, s + 1) == spec_skip_blanks(t, s + 2));
            lemma_skip_blanks_none(t, s + 2);
            assert(rr.0.cur_labels =~= m.cur_labels + ls) by {
                assert(ls =~= seq![x]);
            }
            rr.0
        } else {
            assert(lb == spec_format_label(x) + seq![0x2cu8] + rest);
            let fl = spec_format_label(x).len() as int;
            assert forall|i: int| 0 <= i < lb.len() implies t[p + i] == lb[i] by {
                assert(t.subrange(p, p + lb.len() as int)[i] == t[p + i]);
            }
            assert(t.subrange(p, p + fl) =~= spec_format_label(x)) by {
                assert forall|i: int| 0 <= i < fl implies t.subrange(p, p + fl)[i]
                    == spec_format_label(x)[i] by {
                    assert(t[p + i] == lb[i]);
                    assert(lb[i] == (spec_format_label(x) + seq![0x2cu8] + rest)[i]);
                }
            }
            let rr = lemma_one_label(t, p, x, m);
            let s = rr.1;
            assert(t[s] == 0x2c) by {
                assert(t[p + fl] == lb[fl]);
                assert(lb[fl] == (spec_format_label(x) + seq![0x2cu8] + rest)[fl]);
            }
            let p2 = s + 1;
            assert(t.subrange(p2, p2 + rest.len()) =~= rest) by {
                assert forall|i: int| 0 <= i < rest.len() implies t.subrange(
                    p2,
                    p2 + rest.len() as int,
                )[i] == rest[i] by {
                    assert(t[p + (fl + 1 + i)] == lb[fl + 1 + i]);
                    assert(lb[fl + 1 + i] == (spec_format_label(x) + seq![0x2cu8] + rest)[fl + 1
                        + i]);
                }
            }
            assert(t[p2 + rest.len()] == 0x7d && t[p2 + rest.len() + 1] == 0x20);
            assert(!spec_is_blank_or_tab(t[p2 + rest.len() + 2]));
            let m1 = rr.0;
            assert(!fam_is_q(m, x) && !fam_is_le(m, x));
            assert(m1 == MachineS { pending_label: x.name, cur_labels: m.cur_labels.push(x), ..m });
            assert(forall|i: int|
                0 <= i < ls.drop_first().len() ==> #[trigger] ls.drop_first()[i] == ls[i + 1]);
            let m2 = lemma_label_list(t, p2, ls.drop_first(), extra, m1);
            assert(m2.cur_labels =~= m.cur_labels + ls) by {
                assert(m2.cur_labels == m.cur_labels.push(x) + ls.drop_first());
            }
            m2
        }
    }
}

/// What a sample line leaves in the registry: the sample applied to the
/// resolved family in the resolved role, with an optional timestamp.
pub open spec fn spec_sample_effect(
    fams: Seq<FamilyS>,
    fi: int,
    role: crate::names::Role,
    labels: Seq<LabelPairS>,
    q: Option<Seq<u8>>,
    b: Option<Seq<u8>>,
    value: Seq<u8>,
    ts: Option<i64>,
) -> Seq<FamilyS> {
    let m0 = MachineS {
        families: fams,
        cur_fam: fi,
        role,
        cur_labels: labels,
        cur_quantile: q,
        cur_bucket: b,
        line: 0,
        pending_label: Seq::empty(),
        last_metric: 0,
    };
    let m1 = crate::machine::spec_apply_sample(m0, value);
    match ts {
        Some(v) => crate::machine::spec_set_timestamp(m1, v).families,
        None => m1.families,
    }
}

/// Applying a sample reads only the registry, the current family and
/// role, the labels and the scratch slots.
proof fn lemma_apply_congruent(ma: MachineS, mb: MachineS, value: Seq<u8>)
    requires
        ma.families == mb.families,
        ma.cur_fam == mb.cur_fam,
        ma.role == mb.role,
        ma.cur_labels == mb.cur_labels,
        ma.cur_quantile == mb.cur_quantile,
        ma.cur_bucket == mb.cur_bucket,
    ensures
        crate::machine::spec_apply_sample(ma, value).families == crate::machine::spec_apply_sample(
            mb,
            value,
        ).families,
        crate::machine::spec_apply_sample(ma, value).last_metric
            == crate::machine::spec_apply_sample(mb, value).last_metric,
        crate::machine::spec_apply_sample(ma, value).cur_fam == crate::machine::spec_apply_sample(
            mb,
            value,
        ).cur_fam,
{
}

/// Attaching a timestamp reads only the registry, the current family
/// and the last metric.
proof fn lemma_ts_congruent(ma: MachineS, mb: MachineS, v: i64)
    requires
        ma.families == mb.families,
        ma.cur_fam == mb.cur_fam,
        ma.last_metric == mb.last_metric,
    ensures
        crate::machine::spec_set_timestamp(ma, v).families == crate::machine::spec_set_timestamp(
            mb,
            v,
        ).families,
{
}

/// No byte of a printed integer is a blank, a tab or a newline, and the
/// first is not a brace or a hash.
proof fn lemma_i64_dec_bytes(v: i64)
    ensures
        forall|i: int|
            0 <= i < crate::num::spec_i64_dec(v).len() ==> !spec_is_blank_or_tab(
                #[trigger] crate::num::spec_i64_dec(v)[i],
            ) && crate::num::spec_i64_dec(v)[i] != 0x0a,
        crate::num::spec_i64_dec(v).len() > 0,
{
    let d = crate::num::spec_i64_dec(v);
    if v >= 0 {
        crate::num::lemma_u64_dec(v as u64);
        assert forall|i: int| 0 <= i < d.len() implies !spec_is_blank_or_tab(d[i]) && d[i]
            != 0x0a by {
            assert(spec_is_digit(d[i]));
        }
    } else {
        let mag = (-(v as int)) as u64;
        crate::num::lemma_u64_dec(mag);
        assert forall|i: int| 0 <= i < d.len() implies !spec_is_blank_or_tab(d[i]) && d[i]
            != 0x0a by {
            if i > 0 {
                assert(d[i] == crate::num::spec_u64_dec(mag)[i - 1]);
                assert(spec_is_digit(d[i]));
            }
        }
    }
}

/// The first byte of a float literal is a sign, a digit, a dot or a
/// keyword letter — never a brace, a hash or a newline.
proof fn lemma_float_first_byte(v: Seq<u8>)
    requires
        spec_is_float_literal(v),
    ensures
        v.len() > 0,
        v[0] != 0x7b,
{
    lemma_float_literal_bytes(v);
    let s: int = if v.len() > 0 && spec_is_sign(v[0]) {
        1
    } else {
        0
    };
    if v.len() == 0 {
        assert(!spec_number_from(v, 0));
        assert(false);
    }
    if s == 0 {
        lemma_float_byte_class(v, 0);
    }
}

/// Any non-sign byte of a float literal lower-cases to a keyword letter,
/// or is a digit, a dot, or an exponent mark.
proof fn lemma_float_byte_class(v: Seq<u8>, i: int)
    requires
        spec_is_float_literal(v),
        ({
            let s: int = if v.len() > 0 && spec_is_sign(v[0]) {
                1
            } else {
                0
            };
            s <= i < v.len()
        }),
    ensures
        v[i] != 0x7b,
{
    let s: int = if v.len() > 0 && spec_is_sign(v[0]) {
        1
    } else {
        0
    };
    if spec_keyword_from(v, s, crate::float_text::inf_keyword()) {
        assert(spec_lower(v[s + (i - s)]) == crate::float_text::inf_keyword()[i - s]);
    } else if spec_keyword_from(v, s, crate::float_text::infinity_keyword()) {
        assert(spec_lower(v[s + (i - s)]) == crate::float_text::infinity_keyword()[i - s]);
    } else if spec_keyword_from(v, s, crate::float_text::nan_keyword()) {
        assert(spec_lower(v[s + (i - s)]) == crate::float_text::nan_keyword()[i - s]);
    } else {
        let a = digits_end(v, s);
        lemma_digits_end(v, s);
        if a < v.len() && v[a] == 0x2e {
            let b = digits_end(v, a + 1);
            lemma_digits_end(v, a + 1);
            lemma_exp_bytes_class(v, b, i);
        } else {
            lemma_exp_bytes_class(v, a, i);
        }
    }
}

proof fn lemma_exp_bytes_class(v: Seq<u8>, b: int, i: int)
    requires
        0 <= b <= v.len(),
        spec_exp_from(v, b),
        0 <= i < v.len(),
    ensures
        b <= i ==> v[i] != 0x7b,
{
    if b <= i {
        if i == b {
        } else {
            let j = if b + 1 < v.len() && spec_is_sign(v[b + 1]) {
                b + 2
            } else {
                b + 1
            };
            lemma_digits_end(v, j);
        }
    }
}

/// The value and the rest of a sample line, entered in the
/// reading-value state: the value token is applied, an optional
/// timestamp attaches, and the line's newline hands control back to the
/// start of the next line.
#[verifier::rlimit(100)]
proof fn lemma_value_part(t: Seq<u8>, p: int, value: Seq<u8>, ts: Option<i64>, m: MachineS) -> (m3:
    MachineS)
    requires
        0 <= p,
        ({
            let tail = value + (match ts {
                Some(v) => seq![0x20u8] + crate::num::spec_i64_dec(v),
                None => Seq::empty(),
            }) + seq![0x0au8];
            &&& p + tail.len() <= t.len()
            &&& t.subrange(p, p + tail.len()) == tail
        }),
        spec_is_float_literal(value),
    ensures
        ({
            let tail = value + (match ts {
                Some(v) => seq![0x20u8] + crate::num::spec_i64_dec(v),
                None => Seq::empty(),
            }) + seq![0x0au8];
            let m1 = crate::machine::spec_apply_sample(m, value);
            let mfin = match ts {
                Some(v) => crate::machine::spec_set_timestamp(m1, v),
                None => m1,
            };
            &&& spec_run(t, p, State::ReadingValue, m) == spec_run(
                t,
                p + tail.len(),
                State::StartOfLine,
                m3,
            )
            &&& m3.families == mfin.families
            &&& m3.line == m.line
        }),
{
    let vl = value.len() as int;
    let tail = value + (match ts {
        Some(v) => seq![0x20u8] + crate::num::spec_i64_dec(v),
        None => Seq::empty(),
    }) + seq![0x0au8];
    assert forall|i: int| 0 <= i < tail.len() implies t[p + i] == tail[i] by {
        assert(t.subrange(p, p + tail.len() as int)[i] == t[p + i]);
    }
    lemma_float_literal_bytes(value);
    assert forall|i: int| 0 <= i < vl implies t[p + i] == value[i] by {
        assert(tail[i] == value[i]);
    }
    assert forall|i: int| p <= i < p + vl implies !spec_is_blank_or_tab(t[i]) && t[i] != 0x0a by {
        assert(t[p + (i - p)] == value[i - p]);
    }
    let j = p + vl;
    match ts {
        None => {
            assert(t[j] == 0x0a) by {
                assert(tail[vl] == 0x0a);
            }
            lemma_token_end_known(t, p, j);
            assert(t.subrange(p, j) =~= value);
            let m1 = crate::machine::spec_apply_sample(m, value);
            assert(crate::machine::step_reading_value(t, p, m) == (Step::Next {
                st: State::StartOfLine,
                pos: j + 1,
                m: m1,
            }));
            lemma_run_step(t, p, State::ReadingValue, m);
            m1
        },
        Some(v) => {
            let d = crate::num::spec_i64_dec(v);
            lemma_i64_dec_bytes(v);
            assert(t[j] == 0x20) by {
                assert(tail[vl] == (seq![0x20u8] + d + seq![0x0au8])[0]);
            }
            lemma_token_end_known(t, p, j);
            assert(t.subrange(p, j) =~= value);
            let m1 = crate::machine::spec_apply_sample(m, value);
            assert(crate::machine::step_reading_value(t, p, m) == (Step::Next {
                st: State::StartTimestamp,
                pos: j,
                m: m1,
            }));
            lemma_run_step(t, p, State::ReadingValue, m);
            // The timestamp token.
            assert forall|i: int| 0 <= i < d.len() implies t[j + 1 + i] == d[i] by {
                assert(tail[vl + 1 + i] == d[i]);
            }
            assert(spec_skip_blanks(t, j) == spec_skip_blanks(t, j + 1));
            assert(t[j + 1] == d[0] && !spec_is_blank_or_tab(t[j + 1]) && t[j + 1] != 0x0a) by {
                assert(t[j + 1 + 0] == d[0]);
            }
            lemma_skip_blanks_none(t, j + 1);
            let k = j + 1 + d.len();
            assert(t[k] == 0x0a) by {
                assert(tail[vl + 1 + d.len()] == 0x0a);
            }
            assert forall|i: int| j + 1 <= i < k implies !spec_is_blank_or_tab(t[i]) && t[i]
                != 0x0a by {
                assert(t[j + 1 + (i - j - 1)] == d[i - j - 1]);
            }
            lemma_token_end_known(t, j + 1, k);
            assert(t.subrange(j + 1, k) =~= d);
            crate::num::lemma_parse_i64_of_dec(v);
            lemma_skip_blanks_none(t, k);
            let m2 = crate::machine::spec_set_timestamp(m1, v);
            assert(crate::machine::step_start_timestamp(t, j, m1) == (Step::Next {
                st: State::StartOfLine,
                pos: k + 1,
                m: m2,
            }));
            lemma_run_step(t, j, State::StartTimestamp, m1);
            assert(k + 1 == p + tail.len());
            m2
        },
    }
}

/// The `quantile` scratch value a sample line's extra pair induces.
pub open spec fn q_of_extra(extra: Option<LabelPairS>, ty: MetricType) -> Option<Seq<u8>> {
    match extra {
        Some(x) => if ty == MetricType::Summary && x.name == quantile_label() {
            Some(x.value)
        } else {
            None
        },
        None => None,
    }
}

/// The `le` scratch value a sample line's extra pair induces.
pub open spec fn b_of_extra(extra: Option<LabelPairS>, ty: MetricType) -> Option<Seq<u8>> {
    match extra {
        Some(x) => if ty == MetricType::Histogram && x.name == le_label() {
            Some(x.value)
        } else {
            None
        },
        None => None,
    }
}

/// One whole formatted sample line, entered at the start of the line:
/// the machine resolves the name, gathers the labels, applies the value
/// and lands on the next line with the registry updated accordingly.
#[verifier::rlimit(100)]
proof fn lemma_sample_line(
    t: Seq<u8>,
    p: int,
    name: Seq<u8>,
    labels: Seq<LabelPairS>,
    extra: Option<LabelPairS>,
    value: Seq<u8>,
    ts: Option<i64>,
    fi: int,
    role: crate::names::Role,
    m: MachineS,
) -> (m3: MachineS)
    requires
        0 <= p,
        ({
            let line = crate::format::spec_format_sample(name, labels, extra, value, ts);
            &&& p + line.len() <= t.len()
            &&& t.subrange(p, p + line.len()) == line
        }),
        wf_metric_name(name),
        spec_is_float_literal(value),
        crate::machine::spec_resolve_sample(m.families, name) == (m.families, fi, role),
        0 <= fi < m.families.len(),
        ({
            let ty = m.families[fi].metric_type;
            &&& (forall|i: int|
                0 <= i < labels.len() ==> wf_label_name(#[trigger] labels[i].name)
                    && labels[i].name != reserved_label() && !(ty == MetricType::Summary
                    && labels[i].name == quantile_label()) && !(ty == MetricType::Histogram
                    && labels[i].name == le_label()))
            &&& (match extra {
                Some(x) => wf_label_name(x.name) && x.name != reserved_label()
                    && spec_is_float_literal(x.value) && ((ty == MetricType::Summary && x.name
                    == quantile_label()) || (ty == MetricType::Histogram && x.name == le_label())),
                None => true,
            })
        }),
    ensures
        ({
            let line = crate::format::spec_format_sample(name, labels, extra, value, ts);
            let ty = m.families[fi].metric_type;
            &&& spec_run(t, p, State::StartOfLine, m) == spec_run(
                t,
                p + line.len(),
                State::StartOfLine,
                m3,
            )
            &&& m3.families == spec_sample_effect(
                m.families,
                fi,
                role,
                labels,
                q_of_extra(extra, ty),
                b_of_extra(extra, ty),
                value,
                ts,
            )
            &&& m3.line == m.line + 1
        }),
{
    let line = crate::format::spec_format_sample(name, labels, extra, value, ts);
    let block = crate::format::spec_format_label_block(labels, extra);
    let nl = name.len() as int;
    let bl = block.len() as int;
    let tsp: Seq<u8> = match ts {
        Some(v) => seq![0x20u8] + crate::num::spec_i64_dec(v),
        None => Seq::empty(),
    };
    let tail = value + tsp + seq![0x0au8];
    assert(line =~= name + block + seq![0x20u8] + tail);
    assert forall|i: int| 0 <= i < line.len() implies t[p + i] == line[i] by {
        assert(t.subrange(p, p + line.len() as int)[i] == t[p + i]);
    }
    let ty = m.families[fi].metric_type;
    lemma_float_literal_bytes(value);
    lemma_float_first_byte(value);
    // Start of line: the name's first byte dispatches to the sample path.
    assert(t[p + 0] == line[0] && line[0] == name[0]);
    assert(!spec_is_blank_or_tab(t[p]) && t[p] != 0x23 && t[p] != 0x0a);
    lemma_skip_blanks_none(t, p);
    let m1 = MachineS { line: m.line + 1, ..m };
    assert(crate::machine::step_start_of_line(t, p, m) == (Step::Next {
        st: State::ReadingMetricName,
        pos: p,
        m: m1,
    }));
    lemma_run_step(t, p, State::StartOfLine, m);
    // The metric name.
    assert(t.subrange(p, p + nl) =~= name) by {
        assert forall|i: int| 0 <= i < nl implies t.subrange(p, p + nl)[i] == name[i] by {
            assert(t[p + i] == line[i] && line[i] == name[i]);
        }
    }
    let e = p + nl;
    assert(t[e] == line[nl]);
    if bl > 0 {
        assert(line[nl] == block[0]);
        assert(block[0] == 0x7b);
    } else {
        assert(line[nl] == 0x20);
    }
    assert(!spec_is_metric_name_cont_byte(t[e]));
    lemma_metric_name_end_known(t, p, name);
    let m2 = MachineS {
        families: m.families,
        cur_fam: fi,
        role,
        cur_labels: Seq::empty(),
        cur_quantile: None,
        cur_bucket: None,
        ..m1
    };
    let vpos = p + nl + bl + 1;
    assert(t[vpos] == line[nl + bl + 1] && line[nl + bl + 1] == tail[0] && tail[0] == value[0]);
    assert(!spec_is_blank_or_tab(t[vpos]));
    if bl == 0 {
        // No label block: a single space separates name and value.
        assert(spec_is_blank_or_tab(t[e]));
        assert(spec_skip_blanks(t, e) == spec_skip_blanks(t, e + 1));
        lemma_skip_blanks_none(t, e + 1);
        assert(crate::machine::step_reading_metric_name(t, p, m1) == (Step::Next {
            st: State::ReadingLabels,
            pos: e + 1,
            m: m2,
        }));
        lemma_run_step(t, p, State::ReadingMetricName, m1);
        assert(labels.len() == 0 && extra is None);
        assert(t[e + 1] == value[0] && value[0] != 0x7b);
        assert(crate::machine::step_reading_labels(t, e + 1, m2) == (Step::Next {
            st: State::ReadingValue,
            pos: e + 1,
            m: m2,
        }));
        lemma_run_step(t, e + 1, State::ReadingLabels, m2);
        assert(t.subrange(vpos, vpos + tail.len() as int) =~= tail) by {
            assert forall|i: int| 0 <= i < tail.len() implies t.subrange(
                vpos,
                vpos + tail.len() as int,
            )[i] == tail[i] by {
                assert(t[p + (nl + 1 + i)] == line[nl + 1 + i]);
            }
        }
        let m3 = lemma_value_part(t, vpos, value, ts, m2);
        let meff = MachineS {
            families: m.families,
            cur_fam: fi,
            role,
            cur_labels: labels,
            cur_quantile: q_of_extra(extra, ty),
            cur_bucket: b_of_extra(extra, ty),
            line: 0,
            pending_label: Seq::empty(),
            last_metric: 0,
        };
        assert(m2.cur_labels =~= labels);
        lemma_apply_congruent(m2, meff, value);
        match ts {
            Some(v) => {
                lemma_ts_congruent(
                    crate::machine::spec_apply_sample(m2, value),
                    crate::machine::spec_apply_sample(meff, value),
                    v,
                );
            },
            None => {
            },
        }
        assert(vpos + tail.len() == p + line.len());
        m3
    } else {
        // A label block: brace, pairs, brace, space.
        assert(!spec_is_blank_or_tab(t[e]));
        assert(crate::machine::step_reading_metric_name(t, p, m1) == (Step::Next {
            st: State::ReadingLabels,
            pos: e,
            m: m2,
        }));
        lemma_run_step(t, p, State::ReadingMetricName, m1);
        assert(t[e] == 0x7b);
        assert(crate::machine::step_reading_labels(t, e, m2) == (Step::Next {
            st: State::StartLabelName,
            pos: e + 1,
            m: m2,
        }));
        lemma_run_step(t, e, State::ReadingLabels, m2);
        let lb = crate::format::spec_format_labels(labels, extra);
        assert(block =~= seq![0x7bu8] + lb + seq![0x7du8]);
        assert(bl == lb.len() + 2);
        assert(t.subrange(e + 1, e + 1 + lb.len() as int) =~= lb) by {
            assert forall|i: int| 0 <= i < lb.len() implies t.subrange(
                e + 1,
                e + 1 + lb.len() as int,
            )[i] == lb[i] by {
                assert(t[p + (nl + 1 + i)] == line[nl + 1 + i]);
                assert(line[nl + 1 + i] == block[1 + i]);
                assert(block[1 + i] == lb[i]);
            }
        }
        assert(t[e + 1 + lb.len()] == 0x7d) by {
            assert(t[p + (nl + 1 + lb.len())] == line[nl + 1 + lb.len()]);
            assert(line[nl + 1 + lb.len()] == block[1 + lb.len() as int]);
        }
        assert(t[e + 1 + lb.len() + 1] == 0x20) by {
            assert(t[p + (nl + bl)] == line[nl + bl]);
        }
        assert(e + 1 + lb.len() + 2 == vpos);
        assert forall|i: int|
            0 <= i < labels.len() implies wf_label_name(#[trigger] labels[i].name) && labels[i].name
            != reserved_label() && !fam_is_q(m2, labels[i]) && !fam_is_le(m2, labels[i]) by {
            assert(m2.families[m2.cur_fam].metric_type == ty);
        }
        let mrv = lemma_label_list(t, e + 1, labels, extra, m2);
        assert(t.subrange(vpos, vpos + tail.len() as int) =~= tail) by {
            assert forall|i: int| 0 <= i < tail.len() implies t.subrange(
                vpos,
                vpos + tail.len() as int,
            )[i] == tail[i] by {
                assert(t[p + (nl + bl + 1 + i)] == line[nl + bl + 1 + i]);
            }
        }
        let m3 = lemma_value_part(t, vpos, value, ts, mrv);
        let meff = MachineS {
            families: m.families,
            cur_fam: fi,
            role,
            cur_labels: labels,
            cur_quantile: q_of_extra(extra, ty),
            cur_bucket: b_of_extra(extra, ty),
            line: 0,
            pending_label: Seq::empty(),
            last_metric: 0,
        };
        assert(mrv.cur_labels =~= labels);
        assert(mrv.cur_quantile == q_of_extra(extra, ty));
        assert(mrv.cur_bucket == b_of_extra(extra, ty));
        lemma_apply_congruent(mrv, meff, value);
        match ts {
            Some(v) => {
                lemma_ts_congruent(
                    crate::machine::spec_apply_sample(mrv, value),
                    crate::machine::spec_apply_sample(meff, value),
                    v,
                );
            },
            None => {
            },
        }
        assert(vpos + tail.len() == p + line.len());
        assert(m3.line == m.line + 1);
        m3
    }
}

/// A formatted HELP line creates the family with its help text set.
#[verifier::rlimit(100)]
proof fn lemma_help_line(t: Seq<u8>, p: int, n: Seq<u8>, h: Seq<u8>, m: MachineS) -> (m2: MachineS)
    requires
        0 <= p,
        ({
            let line = crate::format::help_prefix() + n + seq![0x20u8]
                + crate::format::spec_escape_help(h) + seq![0x0au8];
            &&& p + line.len() <= t.len()
            &&& t.subrange(p, p + line.len()) == line
        }),
        wf_metric_name(n),
        h.len() > 0,
        !spec_is_blank_or_tab(h[0]),
        crate::model::spec_find_family(m.families, n, 0) == m.families.len(),
    ensures
        ({
            let line = crate::format::help_prefix() + n + seq![0x20u8]
                + crate::format::spec_escape_help(h) + seq![0x0au8];
            &&& spec_run(t, p, State::StartOfLine, m) == spec_run(
                t,
                p + line.len(),
                State::StartOfLine,
                m2,
            )
            &&& m2.families == m.families.push(
                FamilyS {
                    name: n,
                    help: h,
                    metric_type: MetricType::Untyped,
                    metrics: Seq::empty(),
                },
            )
            &&& m2.line == m.line + 1
        }),
{
    let eh = crate::format::spec_escape_help(h);
    let line = crate::format::help_prefix() + n + seq![0x20u8] + eh + seq![0x0au8];
    let nl = n.len() as int;
    assert forall|i: int| 0 <= i < line.len() implies t[p + i] == line[i] by {
        assert(t.subrange(p, p + line.len() as int)[i] == t[p + i]);
    }
    assert(line[0] == 0x23 && line[1] == 0x20 && line[2] == 0x48 && line[3] == 0x45 && line[4]
        == 0x4c && line[5] == 0x50 && line[6] == 0x20);
    assert forall|i: int| 0 <= i < nl implies line[7 + i] == n[i] by {
        assert(line[7 + i] == (crate::format::help_prefix() + n + seq![0x20u8] + eh + seq![
            0x0au8,
        ])[7 + i]);
    }
    assert(line[7 + nl] == 0x20);
    assert forall|i: int| 0 <= i < eh.len() implies line[8 + nl + i] == eh[i] by {
        assert(line[8 + nl + i] == (crate::format::help_prefix() + n + seq![0x20u8] + eh + seq![
            0x0au8,
        ])[8 + nl + i]);
    }
    assert(line[8 + nl + eh.len()] == 0x0a);
    assert(eh.len() > 0) by {
        if h[0] == 0x5c || h[0] == 0x0a {
        }
    }
    // Start of line: the hash.
    assert(t[p + 0] == 0x23);
    lemma_skip_blanks_none(t, p);
    let m1 = MachineS { line: m.line + 1, ..m };
    assert(crate::machine::step_start_of_line(t, p, m) == (Step::Next {
        st: State::StartComment,
        pos: p + 1,
        m: m1,
    }));
    lemma_run_step(t, p, State::StartOfLine, m);
    // The comment head: one blank, the keyword, a blank.
    assert(t[p + 1] == 0x20 && spec_is_blank_or_tab(t[p + 1]));
    assert(spec_skip_blanks(t, p + 1) == spec_skip_blanks(t, p + 2));
    assert(t[p + 2] == 0x48 && !spec_is_blank_or_tab(t[p + 2]));
    lemma_skip_blanks_none(t, p + 2);
    let q = p + 2;
    assert(t[p + 3] == 0x45 && t[p + 4] == 0x4c && t[p + 5] == 0x50 && t[p + 6] == 0x20);
    lemma_token_end_known(t, q, p + 6);
    let j = p + 6;
    assert(t.subrange(q, j) =~= crate::machine::help_keyword());
    assert(spec_skip_blanks(t, j) == spec_skip_blanks(t, j + 1));
    assert(t[p + 7] == n[0] && !spec_is_blank_or_tab(t[p + 7]));
    lemma_skip_blanks_none(t, j + 1);
    let q2 = j + 1;
    // The family name.
    assert(t.subrange(q2, q2 + nl) =~= n) by {
        assert forall|i: int| 0 <= i < nl implies t.subrange(q2, q2 + nl)[i] == n[i] by {
            assert(t[p + (7 + i)] == line[7 + i]);
        }
    }
    assert(t[q2 + nl] == 0x20);
    lemma_metric_name_end_known(t, q2, n);
    let e = q2 + nl;
    let gc = crate::machine::spec_get_or_create(m.families, n);
    crate::model::lemma_find_family(m.families, n, 0);
    assert(gc.0 == m.families.push(
        FamilyS { name: n, help: Seq::empty(), metric_type: MetricType::Untyped, metrics: Seq::empty() },
    ) && gc.1 == m.families.len());
    let m2a = MachineS { families: gc.0, cur_fam: gc.1, ..m1 };
    // One blank, then the payload.
    assert(spec_is_blank_or_tab(t[e]) && t[e] != 0x0a);
    assert(spec_skip_blanks(t, e) == spec_skip_blanks(t, e + 1));
    let q3 = e + 1;
    assert(t[q3] == eh[0]) by {
        assert(t[p + (8 + nl)] == line[8 + nl]);
    }
    assert(!spec_is_blank_or_tab(t[q3]) && t[q3] != 0x0a) by {
        if h[0] == 0x5c || h[0] == 0x0a {
            assert(eh[0] == 0x5c);
        } else {
            assert(eh[0] == h[0]);
        }
    }
    lemma_skip_blanks_none(t, q3);
    assert(crate::machine::step_start_comment(t, p + 1, m1) == (Step::Next {
        st: State::ReadingHelp,
        pos: q3,
        m: m2a,
    }));
    lemma_run_step(t, p + 1, State::StartComment, m1);
    // The payload decodes to the help text.
    assert(t.subrange(q3, q3 + eh.len() as int) =~= eh) by {
        assert forall|i: int| 0 <= i < eh.len() implies t.subrange(q3, q3 + eh.len() as int)[i]
            == eh[i] by {
            assert(t[p + (8 + nl + i)] == line[8 + nl + i]);
        }
    }
    assert(t[q3 + eh.len()] == 0x0a) by {
        assert(t[p + (8 + nl + eh.len())] == line[8 + nl + eh.len()]);
    }
    crate::laws::lemma_help_roundtrip(t, q3, h, Seq::empty());
    assert(Seq::<u8>::empty() + h =~= h);
    assert(m2a.families[m2a.cur_fam].help.len() == 0);
    let fam2 = FamilyS { help: h, ..m2a.families[m2a.cur_fam] };
    let m2 = MachineS { families: m2a.families.update(m2a.cur_fam, fam2), ..m2a };
    assert(crate::machine::step_reading_help(t, q3, m2a) == (Step::Next {
        st: State::StartOfLine,
        pos: q3 + eh.len() + 1,
        m: m2,
    }));
    lemma_run_step(t, q3, State::ReadingHelp, m2a);
    assert(q3 + eh.len() + 1 == p + line.len());
    assert(m2.families =~~= m.families.push(
        FamilyS { name: n, help: h, metric_type: MetricType::Untyped, metrics: Seq::empty() },
    ));
    m2
}

/// A formatted TYPE line sets the family's type, creating the family
/// first when it is not yet known.
#[verifier::rlimit(100)]
proof fn lemma_type_line(t: Seq<u8>, p: int, n: Seq<u8>, ty: MetricType, m: MachineS) -> (m2:
    MachineS)
    requires
        0 <= p,
        ({
            let line = crate::format::type_prefix() + n + seq![0x20u8]
                + crate::format::spec_type_token(ty) + seq![0x0au8];
            &&& p + line.len() <= t.len()
            &&& t.subrange(p, p + line.len()) == line
        }),
        wf_metric_name(n),
    ensures
        ({
            let line = crate::format::type_prefix() + n + seq![0x20u8]
                + crate::format::spec_type_token(ty) + seq![0x0au8];
            let gc = crate::machine::spec_get_or_create(m.families, n);
            &&& spec_run(t, p, State::StartOfLine, m) == spec_run(
                t,
                p + line.len(),
                State::StartOfLine,
                m2,
            )
            &&& m2.families == gc.0.update(
                gc.1,
                FamilyS { metric_type: ty, ..gc.0[gc.1] },
            )
            &&& m2.line == m.line + 1
        }),
{
    let tt = crate::format::spec_type_token(ty);
    let line = crate::format::type_prefix() + n + seq![0x20u8] + tt + seq![0x0au8];
    let nl = n.len() as int;
    assert forall|i: int| 0 <= i < line.len() implies t[p + i] == line[i] by {
        assert(t.subrange(p, p + line.len() as int)[i] == t[p + i]);
    }
    assert(line[0] == 0x23 && line[1] == 0x20 && line[2] == 0x54 && line[3] == 0x59 && line[4]
        == 0x50 && line[5] == 0x45 && line[6] == 0x20);
    assert forall|i: int| 0 <= i < nl implies line[7 + i] == n[i] by {
        assert(line[7 + i] == (crate::format::type_prefix() + n + seq![0x20u8] + tt + seq![
            0x0au8,
        ])[7 + i]);
    }
    assert(line[7 + nl] == 0x20);
    assert forall|i: int| 0 <= i < tt.len() implies line[8 + nl + i] == tt[i] by {
        assert(line[8 + nl + i] == (crate::format::type_prefix() + n + seq![0x20u8] + tt + seq![
            0x0au8,
        ])[8 + nl + i]);
    }
    assert(line[8 + nl + tt.len()] == 0x0a);
    assert(tt.len() > 0 && forall|i: int|
        0 <= i < tt.len() ==> !spec_is_blank_or_tab(#[trigger] tt[i]) && tt[i] != 0x0a) by {
        match ty {
            MetricType::Counter => {
            },
            MetricType::Gauge => {
            },
            MetricType::Summary => {
            },
            MetricType::Histogram => {
            },
            MetricType::Untyped => {
            },
        }
    }
    // Start of line, hash, keyword.
    assert(t[p + 0] == 0x23);
    lemma_skip_blanks_none(t, p);
    let m1 = MachineS { line: m.line + 1, ..m };
    assert(crate::machine::step_start_of_line(t, p, m) == (Step::Next {
        st: State::StartComment,
        pos: p + 1,
        m: m1,
    }));
    lemma_run_step(t, p, State::StartOfLine, m);
    assert(t[p + 1] == 0x20 && spec_is_blank_or_tab(t[p + 1]));
    assert(spec_skip_blanks(t, p + 1) == spec_skip_blanks(t, p + 2));
    assert(t[p + 2] == 0x54 && !spec_is_blank_or_tab(t[p + 2]));
    lemma_skip_blanks_none(t, p + 2);
    let q = p + 2;
    assert(t[p + 3] == 0x59 && t[p + 4] == 0x50 && t[p + 5] == 0x45 && t[p + 6] == 0x20);
    lemma_token_end_known(t, q, p + 6);
    let j = p + 6;
    assert(t.subrange(q, j) =~= crate::machine::type_keyword());
    assert(t.subrange(q, j) != crate::machine::help_keyword()) by {
        assert(crate::machine::type_keyword()[0] != crate::machine::help_keyword()[0]);
    }
    assert(spec_skip_blanks(t, j) == spec_skip_blanks(t, j + 1));
    assert(t[p + 7] == n[0] && !spec_is_blank_or_tab(t[p + 7]));
    lemma_skip_blanks_none(t, j + 1);
    let q2 = j + 1;
    assert(t.subrange(q2, q2 + nl) =~= n) by {
        assert forall|i: int| 0 <= i < nl implies t.subrange(q2, q2 + nl)[i] == n[i] by {
            assert(t[p + (7 + i)] == line[7 + i]);
        }
    }
    assert(t[q2 + nl] == 0x20);
    lemma_metric_name_end_known(t, q2, n);
    let e = q2 + nl;
    let gc = crate::machine::spec_get_or_create(m.families, n);
    let m2a = MachineS { families: gc.0, cur_fam: gc.1, ..m1 };
    assert(spec_is_blank_or_tab(t[e]) && t[e] != 0x0a);
    assert(spec_skip_blanks(t, e) == spec_skip_blanks(t, e + 1));
    let q3 = e + 1;
    assert(t[q3] == tt[0]) by {
        assert(t[p + (8 + nl)] == line[8 + nl]);
    }
    assert(!spec_is_blank_or_tab(t[q3]) && t[q3] != 0x0a);
    lemma_skip_blanks_none(t, q3);
    crate::model::lemma_find_family(m.families, n, 0);
    assert(crate::machine::step_start_comment(t, p + 1, m1) == (Step::Next {
        st: State::ReadingType,
        pos: q3,
        m: m2a,
    }));
    lemma_run_step(t, p + 1, State::StartComment, m1);
    // The payload is exactly the type token.
    assert(t.subrange(q3, q3 + tt.len() as int) =~= tt) by {
        assert forall|i: int| 0 <= i < tt.len() implies t.subrange(q3, q3 + tt.len() as int)[i]
            == tt[i] by {
            assert(t[p + (8 + nl + i)] == line[8 + nl + i]);
        }
    }
    assert(t[q3 + tt.len()] == 0x0a) by {
        assert(t[p + (8 + nl + tt.len())] == line[8 + nl + tt.len()]);
    }
    assert forall|i: int| q3 <= i < q3 + tt.len() implies t[i] != 0x0a by {
        assert(t.subrange(q3, q3 + tt.len() as int)[i - q3] == t[i]);
    }
    lemma_line_end_known(t, q3, q3 + tt.len());
    let token = t.subrange(q3, q3 + tt.len() as int);
    assert(token == tt);
    // The token maps back to the type it was written for.
    assert(match ty {
        MetricType::Counter => token == crate::machine::counter_token(),
        MetricType::Gauge => token != crate::machine::counter_token() && token
            == crate::machine::gauge_token(),
        MetricType::Summary => token != crate::machine::counter_token() && token
            != crate::machine::gauge_token() && token == crate::machine::summary_token(),
        MetricType::Histogram => token != crate::machine::counter_token() && token
            != crate::machine::gauge_token() && token != crate::machine::summary_token() && token
            == crate::machine::histogram_token(),
        MetricType::Untyped => token != crate::machine::counter_token() && token
            != crate::machine::gauge_token() && token != crate::machine::summary_token() && token
            != crate::machine::histogram_token(),
    }) by {
        match ty {
            MetricType::Counter => {
            },
            MetricType::Gauge => {
                assert(tt.len() != crate::machine::counter_token().len());
            },
            MetricType::Summary => {
                assert(tt[0] != crate::machine::counter_token()[0]);
                assert(tt.len() != crate::machine::gauge_token().len());
            },
            MetricType::Histogram => {
                assert(tt[0] != crate::machine::counter_token()[0]);
                assert(tt[0] != crate::machine::gauge_token()[0]);
                assert(tt[0] != crate::machine::summary_token()[0]);
            },
            MetricType::Untyped => {
                assert(tt[0] != crate::machine::counter_token()[0]);
                assert(tt[0] != crate::machine::gauge_token()[0]);
                assert(tt[0] != crate::machine::summary_token()[0]);
                assert(tt[0] != crate::machine::histogram_token()[0]);
            },
        }
    }
    let fam2 = FamilyS { metric_type: ty, ..m2a.families[m2a.cur_fam] };
    let m2 = MachineS { families: m2a.families.update(m2a.cur_fam, fam2), ..m2a };
    assert(crate::machine::step_reading_type(t, q3, m2a) == (Step::Next {
        st: State::StartOfLine,
        pos: q3 + tt.len() + 1,
        m: m2,
    }));
    lemma_run_step(t, q3, State::ReadingType, m2a);
    assert(q3 + tt.len() + 1 == p + line.len());
    m2
}

/// Appending `_sum` to a name makes a `Sum`-role name whose base is the
/// name itself.
proof fn lemma_role_sum(n: Seq<u8>)
    ensures
        crate::names::spec_role(n + crate::names::sum_suffix()) == crate::names::Role::Sum,
        crate::names::spec_base_name(n + crate::names::sum_suffix()) == n,
{
    let d = n + crate::names::sum_suffix();
    assert(d.len() == n.len() + 4);
    assert(d.subrange(d.len() - 4, d.len() as int) =~= crate::names::sum_suffix());
    assert(!crate::names::spec_is_count(d)) by {
        if crate::names::spec_is_count(d) {
            assert(d.subrange(d.len() - 6, d.len() as int)[5] == crate::names::count_suffix()[5]);
            assert(d[d.len() - 1] == 0x74);
            assert(d[d.len() - 1] == crate::names::sum_suffix()[3]);
        }
    }
    assert(crate::names::spec_is_sum(d));
    assert(d.subrange(0, d.len() - 4) =~= n);
}

/// Appending `_count` makes a `Count`-role name with the same base.
proof fn lemma_role_count(n: Seq<u8>)
    ensures
        crate::names::spec_role(n + crate::names::count_suffix()) == crate::names::Role::Count,
        crate::names::spec_base_name(n + crate::names::count_suffix()) == n,
{
    let d = n + crate::names::count_suffix();
    assert(d.len() == n.len() + 6);
    assert(d.subrange(d.len() - 6, d.len() as int) =~= crate::names::count_suffix());
    assert(crate::names::spec_is_count(d));
    assert(d.subrange(0, d.len() - 6) =~= n);
}

/// Appending `_bucket` makes a `Bucket`-role name with the same base.
proof fn lemma_role_bucket(n: Seq<u8>)
    ensures
        crate::names::spec_role(n + crate::names::bucket_suffix()) == crate::names::Role::Bucket,
        crate::names::spec_base_name(n + crate::names::bucket_suffix()) == n,
{
    let d = n + crate::names::bucket_suffix();
    assert(d.len() == n.len() + 7);
    assert(d.subrange(d.len() - 7, d.len() as int) =~= crate::names::bucket_suffix());
    assert(!crate::names::spec_is_count(d)) by {
        if crate::names::spec_is_count(d) {
            assert(d.subrange(d.len() - 6, d.len() as int)[0] == crate::names::count_suffix()[0]);
            assert(d[d.len() - 6] == 0x5f);
            assert(d[d.len() - 6] == crate::names::bucket_suffix()[1]);
        }
    }
    assert(!crate::names::spec_is_sum(d)) by {
        if crate::names::spec_is_sum(d) {
            assert(d.subrange(d.len() - 4, d.len() as int)[0] == crate::names::sum_suffix()[0]);
            assert(d[d.len() - 4] == 0x5f);
            assert(d[d.len() - 4] == crate::names::bucket_suffix()[3]);
        }
    }
    assert(crate::names::spec_is_bucket(d));
    assert(d.subrange(0, d.len() - 7) =~= n);
}

/// Finding a family reads only names; resolving also reads types.
proof fn lemma_find_family_congruent(fa: Seq<FamilyS>, fb: Seq<FamilyS>, n: Seq<u8>, i: int)
    requires
        fa.len() == fb.len(),
        forall|k: int| 0 <= k < fa.len() ==> (#[trigger] fa[k]).name == fb[k].name,
        0 <= i <= fa.len(),
    ensures
        crate::model::spec_find_family(fa, n, i) == crate::model::spec_find_family(fb, n, i),
    decreases fa.len() - i,
{
    if i < fa.len() {
        lemma_find_family_congruent(fa, fb, n, i + 1);
    }
}

/// Resolving a sample name reads only family names and types, so edits
/// to metrics elsewhere do not change it.
proof fn lemma_resolve_congruent(fa: Seq<FamilyS>, fb: Seq<FamilyS>, n: Seq<u8>)
    requires
        fa.len() == fb.len(),
        forall|k: int|
            0 <= k < fa.len() ==> (#[trigger] fa[k]).name == fb[k].name && fa[k].metric_type
                == fb[k].metric_type,
        crate::machine::spec_resolve_sample(fa, n) == (fa, crate::machine::spec_resolve_sample(
            fa,
            n,
        ).1, crate::machine::spec_resolve_sample(fa, n).2),
    ensures
        crate::machine::spec_resolve_sample(fb, n) == (fb, crate::machine::spec_resolve_sample(
            fa,
            n,
        ).1, crate::machine::spec_resolve_sample(fa, n).2),
{
    lemma_find_family_congruent(fa, fb, crate::names::spec_base_name(n), 0);
    lemma_find_family_congruent(fa, fb, n, 0);
    crate::model::lemma_find_family(fa, crate::names::spec_base_name(n), 0);
    crate::model::lemma_find_family(fb, crate::names::spec_base_name(n), 0);
    crate::model::lemma_find_family(fa, n, 0);
    crate::model::lemma_find_family(fb, n, 0);
}

/// When a metric at `k` matches and none before it does, the search
/// returns `k`.
proof fn lemma_find_metric_at(ms: Seq<MetricS>, labels: Seq<LabelPairS>, hist: bool, k: int)
    requires
        0 <= k < ms.len(),
        crate::model::spec_has_agg_shape(ms[k].data, hist),
        crate::model::spec_label_sets_match(ms[k].labels, labels),
        forall|j: int|
            0 <= j < k ==> !(crate::model::spec_has_agg_shape(#[trigger] ms[j].data, hist)
                && crate::model::spec_label_sets_match(ms[j].labels, labels)),
    ensures
        crate::model::spec_find_metric(ms, labels, hist, 0) == k,
{
    crate::model::lemma_find_metric(ms, labels, hist, 0);
    let f = crate::model::spec_find_metric(ms, labels, hist, 0);
    if f < k {
    } else if f > k {
    }
}

/// When nothing matches, the search runs to the end.
proof fn lemma_find_metric_none(ms: Seq<MetricS>, labels: Seq<LabelPairS>, hist: bool)
    requires
        forall|j: int|
            0 <= j < ms.len() ==> !(crate::model::spec_has_agg_shape(#[trigger] ms[j].data, hist)
                && crate::model::spec_label_sets_match(ms[j].labels, labels)),
    ensures
        crate::model::spec_find_metric(ms, labels, hist, 0) == ms.len(),
{
    crate::model::lemma_find_metric(ms, labels, hist, 0);
    let f = crate::model::spec_find_metric(ms, labels, hist, 0);
    if f < ms.len() {
    }
}

/// The record a summary builds up while its quantile lines arrive.
pub open spec fn partial_summary(labels: Seq<LabelPairS>, qs: Seq<crate::model::QuantileS>) -> MetricS {
    MetricS {
        labels,
        data: MetricDataS::Summary {
            sample_count: 0,
            sample_sum: crate::machine::zero_literal(),
            quantiles: qs,
        },
        timestamp_ms: None,
    }
}

/// The record a histogram builds up while its bucket lines arrive.
pub open spec fn partial_histogram(labels: Seq<LabelPairS>, bs: Seq<crate::model::BucketS>) -> MetricS {
    MetricS {
        labels,
        data: MetricDataS::Histogram {
            sample_count: 0,
            sample_sum: crate::machine::zero_literal(),
            buckets: bs,
        },
        timestamp_ms: None,
    }
}

/// The family's metrics while an aggregate record is being built: the
/// finished ones, plus the partial record once something arrived.
pub open spec fn agg_metrics(
    base: Seq<MetricS>,
    labels: Seq<LabelPairS>,
    hist: bool,
    done: int,
    qs: Seq<crate::model::QuantileS>,
    bs: Seq<crate::model::BucketS>,
) -> Seq<MetricS> {
    if done == 0 {
        base
    } else if hist {
        base.push(partial_histogram(labels, bs))
    } else {
        base.push(partial_summary(labels, qs))
    }
}

/// Labels well-formed for a family of the given type: valid names, not
/// reserved, and not the type's captured special label.
pub open spec fn wf_labels_for(ls: Seq<LabelPairS>, ty: MetricType) -> bool {
    forall|i: int|
        0 <= i < ls.len() ==> wf_label_name(#[trigger] ls[i].name) && ls[i].name
            != reserved_label() && !(ty == MetricType::Summary && ls[i].name == quantile_label())
            && !(ty == MetricType::Histogram && ls[i].name == le_label())
}

/// No finished metric of the aggregate shape shares the label set.
pub open spec fn no_match_in(base: Seq<MetricS>, labels: Seq<LabelPairS>, hist: bool) -> bool {
    forall|j: int|
        0 <= j < base.len() ==> !(crate::model::spec_has_agg_shape(#[trigger] base[j].data, hist)
            && crate::model::spec_label_sets_match(base[j].labels, labels))
}

/// The quantile lines of a summary metric, folded: each line lands in
/// the partial record that groups the label set.
#[verifier::rlimit(100)]
proof fn lemma_quantile_lines(
    t: Seq<u8>,
    p: int,
    fname: Seq<u8>,
    labels: Seq<LabelPairS>,
    qs_done: Seq<crate::model::QuantileS>,
    qs_rem: Seq<crate::model::QuantileS>,
    fi: int,
    base: Seq<MetricS>,
    m: MachineS,
) -> (m2: MachineS)
    requires
        0 <= p,
        ({
            let lines = crate::format::spec_format_quantiles(fname, labels, qs_rem);
            &&& p + lines.len() <= t.len()
            &&& t.subrange(p, p + lines.len()) == lines
        }),
        wf_metric_name(fname),
        0 <= fi < m.families.len(),
        m.families[fi].metric_type == MetricType::Summary,
        m.families[fi].metrics == agg_metrics(base, labels, false, qs_done.len() as int, qs_done, Seq::empty()),
        crate::machine::spec_resolve_sample(m.families, fname) == (m.families, fi, crate::names::Role::Plain),
        wf_labels_for(labels, MetricType::Summary),
        no_match_in(base, labels, false),
        forall|i: int|
            0 <= i < qs_rem.len() ==> spec_is_float_literal(#[trigger] qs_rem[i].quantile)
                && spec_is_float_literal(qs_rem[i].value),
    ensures
        ({
            let lines = crate::format::spec_format_quantiles(fname, labels, qs_rem);
            let qs_all = qs_done + qs_rem;
            &&& spec_run(t, p, State::StartOfLine, m) == spec_run(
                t,
                p + lines.len(),
                State::StartOfLine,
                m2,
            )
            &&& m2.families == m.families.update(
                fi,
                FamilyS {
                    metrics: agg_metrics(base, labels, false, qs_all.len() as int, qs_all, Seq::empty()),
                    ..m.families[fi]
                },
            )
        }),
    decreases qs_rem.len(),
{
    let lines = crate::format::spec_format_quantiles(fname, labels, qs_rem);
    if qs_rem.len() == 0 {
        assert(qs_done + qs_rem =~= qs_done);
        assert(m.families.update(fi, FamilyS { metrics: m.families[fi].metrics, ..m.families[fi] })
            =~~= m.families) by {
            assert(FamilyS { metrics: m.families[fi].metrics, ..m.families[fi] } =~= m.families[fi]);
        }
        m
    } else {
        let q0 = qs_rem[0];
        let extra = LabelPairS { name: quantile_label(), value: q0.quantile };
        let line = crate::format::spec_format_sample(fname, labels, Some(extra), q0.value, None);
        assert(lines == line + crate::format::spec_format_quantiles(
            fname,
            labels,
            qs_rem.drop_first(),
        ));
        assert forall|i: int| 0 <= i < lines.len() implies t[p + i] == lines[i] by {
            assert(t.subrange(p, p + lines.len() as int)[i] == t[p + i]);
        }
        assert(t.subrange(p, p + line.len() as int) =~= line) by {
            assert forall|i: int| 0 <= i < line.len() implies t.subrange(
                p,
                p + line.len() as int,
            )[i] == line[i] by {
                assert(t[p + i] == lines[i]);
                assert(lines[i] == (line + crate::format::spec_format_quantiles(
                    fname,
                    labels,
                    qs_rem.drop_first(),
                ))[i]);
            }
        }
        assert(wf_label_name(quantile_label()));
        assert(quantile_label() != reserved_label()) by {
            assert(quantile_label()[0] != reserved_label()[0]);
        }
        let m3 = lemma_sample_line(
            t,
            p,
            fname,
            labels,
            Some(extra),
            q0.value,
            None,
            fi,
            crate::names::Role::Plain,
            m,
        );
        // What the line left in the registry: the partial record grew.
        let ty = m.families[fi].metric_type;
        assert(q_of_extra(Some(extra), ty) == Some(q0.quantile));
        assert(b_of_extra(Some(extra), ty) is None);
        let qs_done2 = qs_done.push(q0);
        let target = FamilyS {
            metrics: agg_metrics(base, labels, false, qs_done2.len() as int, qs_done2, Seq::empty()),
            ..m.families[fi]
        };
        assert(m3.families =~~= m.families.update(fi, target)) by {
            let meff = MachineS {
                families: m.families,
                cur_fam: fi,
                role: crate::names::Role::Plain,
                cur_labels: labels,
                cur_quantile: Some(q0.quantile),
                cur_bucket: None,
                line: 0,
                pending_label: Seq::empty(),
                last_metric: 0,
            };
            let ms0 = m.families[fi].metrics;
            if qs_done.len() == 0 {
                lemma_find_metric_none(ms0, labels, false);
                assert(crate::machine::spec_apply_agg(meff, q0.value, false).families =~~= m.families.update(fi, target)) by {
                    assert(partial_summary(labels, Seq::empty()).data == crate::machine::spec_empty_summary());
                    assert(qs_done2 =~= Seq::<crate::model::QuantileS>::empty().push(q0));
                    assert(Seq::<crate::model::QuantileS>::empty().push(q0)[0] == q0);
                }
            } else {
                crate::laws::lemma_label_sets_match_refl(labels);
                lemma_find_metric_at(ms0, labels, false, base.len() as int);
                assert(crate::machine::spec_apply_agg(meff, q0.value, false).families =~~= m.families.update(fi, target));
            }
        }
        // Names and types did not change, so the name still resolves.
        assert forall|k: int|
            0 <= k < m3.families.len() implies (#[trigger] m3.families[k]).name
            == m.families[k].name && m3.families[k].metric_type == m.families[k].metric_type by {
            assert(m3.families[k] == m.families.update(fi, target)[k]);
        }
        lemma_resolve_congruent(m.families, m3.families, fname);
        let p2 = p + line.len();
        let rest_lines = crate::format::spec_format_quantiles(fname, labels, qs_rem.drop_first());
        assert(t.subrange(p2, p2 + rest_lines.len() as int) =~= rest_lines) by {
            assert forall|i: int| 0 <= i < rest_lines.len() implies t.subrange(
                p2,
                p2 + rest_lines.len() as int,
            )[i] == rest_lines[i] by {
                assert(t[p + (line.len() + i)] == lines[line.len() + i]);
                assert(lines[line.len() + i] == (line + rest_lines)[line.len() + i]);
            }
        }
        assert(m3.families[fi].metric_type == MetricType::Summary);
        assert(m3.families[fi].metrics == agg_metrics(
            base,
            labels,
            false,
            qs_done2.len() as int,
            qs_done2,
            Seq::empty(),
        ));
        let m2 = lemma_quantile_lines(
            t,
            p2,
            fname,
            labels,
            qs_done2,
            qs_rem.drop_first(),
            fi,
            base,
            m3,
        );
        assert(qs_done2 + qs_rem.drop_first() =~= qs_done + qs_rem);
        assert(m2.families =~~= m.families.update(
            fi,
            FamilyS {
                metrics: agg_metrics(
                    base,
                    labels,
                    false,
                    (qs_done + qs_rem).len() as int,
                    qs_done + qs_rem,
                    Seq::empty(),
                ),
                ..m.families[fi]
            },
        )) by {
            assert(m3.families[fi] == target);
        }
        m2
    }
}

/// A suffixed sample name resolves to its parent aggregate family.
proof fn lemma_resolve_suffixed(fams: Seq<FamilyS>, fname: Seq<u8>, fi: int)
    requires
        0 <= fi < fams.len(),
        crate::model::spec_find_family(fams, fname, 0) == fi,
        fams[fi].metric_type == MetricType::Summary || fams[fi].metric_type
            == MetricType::Histogram,
    ensures
        crate::machine::spec_resolve_sample(fams, fname + crate::names::sum_suffix()) == (
            fams,
            fi,
            crate::names::Role::Sum,
        ),
        crate::machine::spec_resolve_sample(fams, fname + crate::names::count_suffix()) == (
            fams,
            fi,
            crate::names::Role::Count,
        ),
        crate::machine::spec_resolve_sample(fams, fname + crate::names::bucket_suffix()) == (
            fams,
            fi,
            crate::names::Role::Bucket,
        ),
{
    lemma_role_sum(fname);
    lemma_role_count(fname);
    lemma_role_bucket(fname);
}

/// The bucket lines of a histogram metric, folded.
#[verifier::rlimit(100)]
proof fn lemma_bucket_lines(
    t: Seq<u8>,
    p: int,
    fname: Seq<u8>,
    labels: Seq<LabelPairS>,
    bs_done: Seq<crate::model::BucketS>,
    bs_rem: Seq<crate::model::BucketS>,
    fi: int,
    base: Seq<MetricS>,
    m: MachineS,
) -> (m2: MachineS)
    requires
        0 <= p,
        ({
            let lines = crate::format::spec_format_buckets(fname, labels, bs_rem);
            &&& p + lines.len() <= t.len()
            &&& t.subrange(p, p + lines.len()) == lines
        }),
        wf_metric_name(fname),
        0 <= fi < m.families.len(),
        m.families[fi].metric_type == MetricType::Histogram,
        m.families[fi].metrics == agg_metrics(base, labels, true, bs_done.len() as int, Seq::empty(), bs_done),
        crate::model::spec_find_family(m.families, fname, 0) == fi,
        wf_labels_for(labels, MetricType::Histogram),
        no_match_in(base, labels, true),
        forall|i: int| 0 <= i < bs_rem.len() ==> spec_is_float_literal(#[trigger] bs_rem[i].upper_bound),
    ensures
        ({
            let lines = crate::format::spec_format_buckets(fname, labels, bs_rem);
            let bs_all = bs_done + bs_rem;
            &&& spec_run(t, p, State::StartOfLine, m) == spec_run(
                t,
                p + lines.len(),
                State::StartOfLine,
                m2,
            )
            &&& m2.families == m.families.update(
                fi,
                FamilyS {
                    metrics: agg_metrics(base, labels, true, bs_all.len() as int, Seq::empty(), bs_all),
                    ..m.families[fi]
                },
            )
        }),
    decreases bs_rem.len(),
{
    let lines = crate::format::spec_format_buckets(fname, labels, bs_rem);
    if bs_rem.len() == 0 {
        assert(bs_done + bs_rem =~= bs_done);
        assert(m.families.update(fi, FamilyS { metrics: m.families[fi].metrics, ..m.families[fi] })
            =~~= m.families) by {
            assert(FamilyS { metrics: m.families[fi].metrics, ..m.families[fi] } =~= m.families[fi]);
        }
        m
    } else {
        let b0 = bs_rem[0];
        let dname = fname + crate::names::bucket_suffix();
        let extra = LabelPairS { name: le_label(), value: b0.upper_bound };
        let cd = crate::num::spec_u64_dec(b0.cumulative_count);
        crate::num::lemma_trunc_of_dec(b0.cumulative_count);
        let line = crate::format::spec_format_sample(dname, labels, Some(extra), cd, None);
        assert(lines == line + crate::format::spec_format_buckets(
            fname,
            labels,
            bs_rem.drop_first(),
        ));
        assert forall|i: int| 0 <= i < lines.len() implies t[p + i] == lines[i] by {
            assert(t.subrange(p, p + lines.len() as int)[i] == t[p + i]);
        }
        assert(t.subrange(p, p + line.len() as int) =~= line) by {
            assert forall|i: int| 0 <= i < line.len() implies t.subrange(
                p,
                p + line.len() as int,
            )[i] == line[i] by {
                assert(t[p + i] == lines[i]);
                assert(lines[i] == (line + crate::format::spec_format_buckets(
                    fname,
                    labels,
                    bs_rem.drop_first(),
                ))[i]);
            }
        }
        assert(wf_label_name(le_label()));
        assert(le_label() != reserved_label()) by {
            assert(le_label().len() != reserved_label().len());
        }
        lemma_resolve_suffixed(m.families, fname, fi);
        assert(wf_metric_name(dname)) by {
            assert(dname[0] == fname[0]);
            assert forall|i: int| 0 < i < dname.len() implies spec_is_metric_name_cont_byte(
                #[trigger] dname[i],
            ) by {
                if i >= fname.len() {
                    assert(dname[i] == crate::names::bucket_suffix()[i - fname.len()]);
                }
            }
        }
        let m3 = lemma_sample_line(
            t,
            p,
            dname,
            labels,
            Some(extra),
            cd,
            None,
            fi,
            crate::names::Role::Bucket,
            m,
        );
        let ty = m.families[fi].metric_type;
        assert(q_of_extra(Some(extra), ty) is None);
        assert(b_of_extra(Some(extra), ty) == Some(b0.upper_bound));
        let bs_done2 = bs_done.push(b0);
        let target = FamilyS {
            metrics: agg_metrics(base, labels, true, bs_done2.len() as int, Seq::empty(), bs_done2),
            ..m.families[fi]
        };
        assert(m3.families =~~= m.families.update(fi, target)) by {
            let meff = MachineS {
                families: m.families,
                cur_fam: fi,
                role: crate::names::Role::Bucket,
                cur_labels: labels,
                cur_quantile: None,
                cur_bucket: Some(b0.upper_bound),
                line: 0,
                pending_label: Seq::empty(),
                last_metric: 0,
            };
            let ms0 = m.families[fi].metrics;
            if bs_done.len() == 0 {
                lemma_find_metric_none(ms0, labels, true);
                assert(crate::machine::spec_apply_agg(meff, cd, true).families =~~= m.families.update(fi, target)) by {
                    assert(partial_histogram(labels, Seq::empty()).data == crate::machine::spec_empty_histogram());
                    assert(bs_done2 =~= Seq::<crate::model::BucketS>::empty().push(b0));
                    assert(Seq::<crate::model::BucketS>::empty().push(b0)[0] == b0);
                }
            } else {
                crate::laws::lemma_label_sets_match_refl(labels);
                lemma_find_metric_at(ms0, labels, true, base.len() as int);
                assert(crate::machine::spec_apply_agg(meff, cd, true).families =~~= m.families.update(fi, target));
            }
        }
        assert forall|k: int|
            0 <= k < m3.families.len() implies (#[trigger] m3.families[k]).name
            == m.families[k].name && m3.families[k].metric_type == m.families[k].metric_type by {
            assert(m3.families[k] == m.families.update(fi, target)[k]);
        }
        lemma_find_family_congruent(m.families, m3.families, fname, 0);
        let p2 = p + line.len();
        let rest_lines = crate::format::spec_format_buckets(fname, labels, bs_rem.drop_first());
        assert(t.subrange(p2, p2 + rest_lines.len() as int) =~= rest_lines) by {
            assert forall|i: int| 0 <= i < rest_lines.len() implies t.subrange(
                p2,
                p2 + rest_lines.len() as int,
            )[i] == rest_lines[i] by {
                assert(t[p + (line.len() + i)] == lines[line.len() + i]);
                assert(lines[line.len() + i] == (line + rest_lines)[line.len() + i]);
            }
        }
        assert(m3.families[fi].metric_type == MetricType::Histogram);
        assert(m3.families[fi].metrics == agg_metrics(
            base,
            labels,
            true,
            bs_done2.len() as int,
            Seq::empty(),
            bs_done2,
        ));
        let m2 = lemma_bucket_lines(
            t,
            p2,
            fname,
            labels,
            bs_done2,
            bs_rem.drop_first(),
            fi,
            base,
            m3,
        );
        assert(bs_done2 + bs_rem.drop_first() =~= bs_done + bs_rem);
        assert(m2.families =~~= m.families.update(
            fi,
            FamilyS {
                metrics: agg_metrics(
                    base,
                    labels,
                    true,
                    (bs_done + bs_rem).len() as int,
                    Seq::empty(),
                    bs_done + bs_rem,
                ),
                ..m.families[fi]
            },
        )) by {
            assert(m3.families[fi] == target);
        }
        m2
    }
}

/// A well-formed metric for a family of the given type: the matching
/// payload shape, well-formed labels, float value tokens, and no
/// timestamp on aggregate records.
pub open spec fn wf_metric(mt: MetricS, ty: MetricType) -> bool {
    wf_labels_for(mt.labels, ty) && match ty {
        MetricType::Counter => mt.data matches MetricDataS::Counter { value }
            && spec_is_float_literal(value),
        MetricType::Gauge => mt.data matches MetricDataS::Gauge { value }
            && spec_is_float_literal(value),
        MetricType::Untyped => mt.data matches MetricDataS::Untyped { value }
            && spec_is_float_literal(value),
        MetricType::Summary => mt.data matches MetricDataS::Summary {
            sample_sum,
            quantiles,
            ..
        } && spec_is_float_literal(sample_sum) && (forall|i: int|
            0 <= i < quantiles.len() ==> spec_is_float_literal(
                #[trigger] quantiles[i].quantile,
            ) && spec_is_float_literal(quantiles[i].value)) && mt.timestamp_ms is None,
        MetricType::Histogram => mt.data matches MetricDataS::Histogram { sample_sum, buckets, .. }
            && spec_is_float_literal(sample_sum) && (forall|i: int|
            0 <= i < buckets.len() ==> spec_is_float_literal(#[trigger] buckets[i].upper_bound))
            && mt.timestamp_ms is None,
    }
}

/// The closing `_sum` and `_count` lines of an aggregate metric: they
/// fill the partial record (or create it when no observation line came)
/// and finish it.
#[verifier::rlimit(100)]
proof fn lemma_agg_final_lines(
    t: Seq<u8>,
    p: int,
    fname: Seq<u8>,
    labels: Seq<LabelPairS>,
    hist: bool,
    count: u64,
    sum_lit: Seq<u8>,
    qs: Seq<crate::model::QuantileS>,
    bs: Seq<crate::model::BucketS>,
    fi: int,
    base: Seq<MetricS>,
    m: MachineS,
) -> (m2: MachineS)
    requires
        0 <= p,
        ({
            let sline = crate::format::spec_format_sample(
                fname + crate::names::sum_suffix(),
                labels,
                None,
                sum_lit,
                None,
            );
            let cline = crate::format::spec_format_sample(
                fname + crate::names::count_suffix(),
                labels,
                None,
                crate::num::spec_u64_dec(count),
                None,
            );
            &&& p + sline.len() + cline.len() <= t.len()
            &&& t.subrange(p, p + sline.len() + cline.len()) == sline + cline
        }),
        wf_metric_name(fname),
        0 <= fi < m.families.len(),
        m.families[fi].metric_type == (if hist {
            MetricType::Histogram
        } else {
            MetricType::Summary
        }),
        m.families[fi].metrics == agg_metrics(
            base,
            labels,
            hist,
            if hist {
                bs.len() as int
            } else {
                qs.len() as int
            },
            qs,
            bs,
        ),
        crate::model::spec_find_family(m.families, fname, 0) == fi,
        wf_labels_for(
            labels,
            if hist {
                MetricType::Histogram
            } else {
                MetricType::Summary
            },
        ),
        no_match_in(base, labels, hist),
        spec_is_float_literal(sum_lit),
    ensures
        ({
            let sline = crate::format::spec_format_sample(
                fname + crate::names::sum_suffix(),
                labels,
                None,
                sum_lit,
                None,
            );
            let cline = crate::format::spec_format_sample(
                fname + crate::names::count_suffix(),
                labels,
                None,
                crate::num::spec_u64_dec(count),
                None,
            );
            let final_metric = MetricS {
                labels,
                data: if hist {
                    MetricDataS::Histogram { sample_count: count, sample_sum: sum_lit, buckets: bs }
                } else {
                    MetricDataS::Summary {
                        sample_count: count,
                        sample_sum: sum_lit,
                        quantiles: qs,
                    }
                },
                timestamp_ms: None,
            };
            &&& spec_run(t, p, State::StartOfLine, m) == spec_run(
                t,
                p + sline.len() + cline.len(),
                State::StartOfLine,
                m2,
            )
            &&& m2.families == m.families.update(
                fi,
                FamilyS { metrics: base.push(final_metric), ..m.families[fi] },
            )
        }),
{
    let ty = m.families[fi].metric_type;
    let sname = fname + crate::names::sum_suffix();
    let cname = fname + crate::names::count_suffix();
    let cd = crate::num::spec_u64_dec(count);
    crate::num::lemma_trunc_of_dec(count);
    let sline = crate::format::spec_format_sample(sname, labels, None, sum_lit, None);
    let cline = crate::format::spec_format_sample(cname, labels, None, cd, None);
    assert forall|i: int| 0 <= i < sline.len() + cline.len() implies t[p + i] == (sline + cline)[i] by {
        assert(t.subrange(p, p + sline.len() + cline.len() as int)[i] == t[p + i]);
    }
    assert(t.subrange(p, p + sline.len() as int) =~= sline) by {
        assert forall|i: int| 0 <= i < sline.len() implies t.subrange(p, p + sline.len() as int)[i]
            == sline[i] by {
            assert(t[p + i] == (sline + cline)[i]);
        }
    }
    assert(wf_metric_name(sname)) by {
        assert(sname[0] == fname[0]);
        assert forall|i: int| 0 < i < sname.len() implies spec_is_metric_name_cont_byte(
            #[trigger] sname[i],
        ) by {
            if i >= fname.len() {
                assert(sname[i] == crate::names::sum_suffix()[i - fname.len()]);
            }
        }
    }
    assert(wf_metric_name(cname)) by {
        assert(cname[0] == fname[0]);
        assert forall|i: int| 0 < i < cname.len() implies spec_is_metric_name_cont_byte(
            #[trigger] cname[i],
        ) by {
            if i >= fname.len() {
                assert(cname[i] == crate::names::count_suffix()[i - fname.len()]);
            }
        }
    }
    lemma_resolve_suffixed(m.families, fname, fi);
    let ma = lemma_sample_line(
        t,
        p,
        sname,
        labels,
        None,
        sum_lit,
        None,
        fi,
        crate::names::Role::Sum,
        m,
    );
    let obs: int = if hist {
        bs.len() as int
    } else {
        qs.len() as int
    };
    let mid_metric = MetricS {
        labels,
        data: if hist {
            MetricDataS::Histogram { sample_count: 0, sample_sum: sum_lit, buckets: bs }
        } else {
            MetricDataS::Summary { sample_count: 0, sample_sum: sum_lit, quantiles: qs }
        },
        timestamp_ms: None,
    };
    let mid_fam = FamilyS { metrics: base.push(mid_metric), ..m.families[fi] };
    assert(ma.families =~~= m.families.update(fi, mid_fam)) by {
        let meff = MachineS {
            families: m.families,
            cur_fam: fi,
            role: crate::names::Role::Sum,
            cur_labels: labels,
            cur_quantile: None,
            cur_bucket: None,
            line: 0,
            pending_label: Seq::empty(),
            last_metric: 0,
        };
        let ms0 = m.families[fi].metrics;
        if obs == 0 {
            lemma_find_metric_none(ms0, labels, hist);
            assert(crate::machine::spec_apply_agg(meff, sum_lit, hist).families =~~= m.families.update(fi, mid_fam)) by {
                if hist {
                    assert(bs =~= Seq::<crate::model::BucketS>::empty());
                } else {
                    assert(qs =~= Seq::<crate::model::QuantileS>::empty());
                }
            }
        } else {
            crate::laws::lemma_label_sets_match_refl(labels);
            lemma_find_metric_at(ms0, labels, hist, base.len() as int);
            assert(crate::machine::spec_apply_agg(meff, sum_lit, hist).families =~~= m.families.update(fi, mid_fam));
        }
    }
    assert forall|k: int|
        0 <= k < ma.families.len() implies (#[trigger] ma.families[k]).name == m.families[k].name
        && ma.families[k].metric_type == m.families[k].metric_type by {
        assert(ma.families[k] == m.families.update(fi, mid_fam)[k]);
    }
    lemma_find_family_congruent(m.families, ma.families, fname, 0);
    // The `_count` line.
    let p2 = p + sline.len();
    assert(t.subrange(p2, p2 + cline.len() as int) =~= cline) by {
        assert forall|i: int| 0 <= i < cline.len() implies t.subrange(p2, p2 + cline.len() as int)[i]
            == cline[i] by {
            assert(t[p + (sline.len() + i)] == (sline + cline)[sline.len() + i]);
        }
    }
    lemma_resolve_suffixed(ma.families, fname, fi);
    let mb = lemma_sample_line(
        t,
        p2,
        cname,
        labels,
        None,
        cd,
        None,
        fi,
        crate::names::Role::Count,
        ma,
    );
    let final_metric = MetricS {
        labels,
        data: if hist {
            MetricDataS::Histogram { sample_count: count, sample_sum: sum_lit, buckets: bs }
        } else {
            MetricDataS::Summary { sample_count: count, sample_sum: sum_lit, quantiles: qs }
        },
        timestamp_ms: None,
    };
    assert(mb.families =~~= m.families.update(
        fi,
        FamilyS { metrics: base.push(final_metric), ..m.families[fi] },
    )) by {
        let meff = MachineS {
            families: ma.families,
            cur_fam: fi,
            role: crate::names::Role::Count,
            cur_labels: labels,
            cur_quantile: None,
            cur_bucket: None,
            line: 0,
            pending_label: Seq::empty(),
            last_metric: 0,
        };
        let ms1 = ma.families[fi].metrics;
        assert(ms1 =~= base.push(mid_metric)) by {
            assert(ma.families[fi] == mid_fam);
        }
        crate::laws::lemma_label_sets_match_refl(labels);
        assert forall|j: int|
            0 <= j < base.len() implies !(crate::model::spec_has_agg_shape(
            #[trigger] ms1[j].data,
            hist,
        ) && crate::model::spec_label_sets_match(ms1[j].labels, labels)) by {
            assert(ms1[j] == base[j]);
        }
        lemma_find_metric_at(ms1, labels, hist, base.len() as int);
        assert(crate::machine::spec_apply_agg(meff, cd, hist).families =~~= m.families.update(
            fi,
            FamilyS { metrics: base.push(final_metric), ..m.families[fi] },
        ));
    }
    mb
}

/// All the lines one metric unrolls into: after them, the metric stands
/// finished at the end of its family's list.
#[verifier::rlimit(100)]
proof fn lemma_metric_lines(t: Seq<u8>, p: int, fname: Seq<u8>, fi: int, mt: MetricS, m: MachineS)
    -> (m2: MachineS)
    requires
        0 <= p,
        ({
            let lines = crate::format::spec_format_metric(fname, mt);
            &&& p + lines.len() <= t.len()
            &&& t.subrange(p, p + lines.len()) == lines
        }),
        wf_metric_name(fname),
        0 <= fi < m.families.len(),
        wf_metric(mt, m.families[fi].metric_type),
        crate::model::spec_find_family(m.families, fname, 0) == fi,
        crate::machine::spec_resolve_sample(m.families, fname) == (m.families, fi, crate::names::Role::Plain),
        m.families[fi].metric_type == MetricType::Summary ==> no_match_in(
            m.families[fi].metrics,
            mt.labels,
            false,
        ),
        m.families[fi].metric_type == MetricType::Histogram ==> no_match_in(
            m.families[fi].metrics,
            mt.labels,
            true,
        ),
    ensures
        ({
            let lines = crate::format::spec_format_metric(fname, mt);
            &&& spec_run(t, p, State::StartOfLine, m) == spec_run(
                t,
                p + lines.len(),
                State::StartOfLine,
                m2,
            )
            &&& m2.families == m.families.update(
                fi,
                FamilyS { metrics: m.families[fi].metrics.push(mt), ..m.families[fi] },
            )
        }),
{
    let ty = m.families[fi].metric_type;
    let lines = crate::format::spec_format_metric(fname, mt);
    match mt.data {
        MetricDataS::Counter { value } => {
            let m3 = lemma_sample_line(
                t,
                p,
                fname,
                mt.labels,
                None,
                value,
                mt.timestamp_ms,
                fi,
                crate::names::Role::Plain,
                m,
            );
            assert(m3.families =~~= m.families.update(
                fi,
                FamilyS { metrics: m.families[fi].metrics.push(mt), ..m.families[fi] },
            ));
            m3
        },
        MetricDataS::Gauge { value } => {
            let m3 = lemma_sample_line(
                t,
                p,
                fname,
                mt.labels,
                None,
                value,
                mt.timestamp_ms,
                fi,
                crate::names::Role::Plain,
                m,
            );
            assert(m3.families =~~= m.families.update(
                fi,
                FamilyS { metrics: m.families[fi].metrics.push(mt), ..m.families[fi] },
            ));
            m3
        },
        MetricDataS::Untyped { value } => {
            let m3 = lemma_sample_line(
                t,
                p,
                fname,
                mt.labels,
                None,
                value,
                mt.timestamp_ms,
                fi,
                crate::names::Role::Plain,
                m,
            );
            assert(m3.families =~~= m.families.update(
                fi,
                FamilyS { metrics: m.families[fi].metrics.push(mt), ..m.families[fi] },
            ));
            m3
        },
        MetricDataS::Summary { sample_count, sample_sum, quantiles } => {
            let qlines = crate::format::spec_format_quantiles(fname, mt.labels, quantiles);
            let sline = crate::format::spec_format_sample(
                fname + crate::names::sum_suffix(),
                mt.labels,
                None,
                sample_sum,
                None,
            );
            let cline = crate::format::spec_format_sample(
                fname + crate::names::count_suffix(),
                mt.labels,
                None,
                crate::num::spec_u64_dec(sample_count),
                None,
            );
            assert(lines == qlines + sline + cline);
            assert forall|i: int| 0 <= i < lines.len() implies t[p + i] == lines[i] by {
                assert(t.subrange(p, p + lines.len() as int)[i] == t[p + i]);
            }
            assert(t.subrange(p, p + qlines.len() as int) =~= qlines) by {
                assert forall|i: int| 0 <= i < qlines.len() implies t.subrange(
                    p,
                    p + qlines.len() as int,
                )[i] == qlines[i] by {
                    assert(t[p + i] == lines[i]);
                    assert(lines[i] == (qlines + sline + cline)[i]);
                }
            }
            let base = m.families[fi].metrics;
            let mq = lemma_quantile_lines(
                t,
                p,
                fname,
                mt.labels,
                Seq::empty(),
                quantiles,
                fi,
                base,
                m,
            );
            assert(Seq::<crate::model::QuantileS>::empty() + quantiles =~= quantiles);
            let midfam = FamilyS {
                metrics: agg_metrics(base, mt.labels, false, quantiles.len() as int, quantiles, Seq::empty()),
                ..m.families[fi]
            };
            assert(mq.families == m.families.update(fi, midfam));
            assert forall|k: int|
                0 <= k < mq.families.len() implies (#[trigger] mq.families[k]).name
                == m.families[k].name && mq.families[k].metric_type
                == m.families[k].metric_type by {
                assert(mq.families[k] == m.families.update(fi, midfam)[k]);
            }
            lemma_find_family_congruent(m.families, mq.families, fname, 0);
            let p2 = p + qlines.len();
            assert(t.subrange(p2, p2 + sline.len() + cline.len() as int) =~= sline + cline) by {
                assert forall|i: int| 0 <= i < sline.len() + cline.len() implies t.subrange(
                    p2,
                    p2 + sline.len() + cline.len() as int,
                )[i] == (sline + cline)[i] by {
                    assert(t[p + (qlines.len() + i)] == lines[qlines.len() + i]);
                    assert(lines[qlines.len() + i] == (qlines + sline + cline)[qlines.len() + i]);
                }
            }
            let m2 = lemma_agg_final_lines(
                t,
                p2,
                fname,
                mt.labels,
                false,
                sample_count,
                sample_sum,
                quantiles,
                Seq::empty(),
                fi,
                base,
                mq,
            );
            assert(m2.families =~~= m.families.update(
                fi,
                FamilyS { metrics: base.push(mt), ..m.families[fi] },
            )) by {
                assert(mq.families[fi] == midfam);
                assert(MetricS {
                    labels: mt.labels,
                    data: MetricDataS::Summary { sample_count, sample_sum, quantiles },
                    timestamp_ms: None,
                } =~= mt);
            }
            m2
        },
        MetricDataS::Histogram { sample_count, sample_sum, buckets } => {
            let blines = crate::format::spec_format_buckets(fname, mt.labels, buckets);
            let sline = crate::format::spec_format_sample(
                fname + crate::names::sum_suffix(),
                mt.labels,
                None,
                sample_sum,
                None,
            );
            let cline = crate::format::spec_format_sample(
                fname + crate::names::count_suffix(),
                mt.labels,
                None,
                crate::num::spec_u64_dec(sample_count),
                None,
            );
            assert(lines == blines + sline + cline);
            assert forall|i: int| 0 <= i < lines.len() implies t[p + i] == lines[i] by {
                assert(t.subrange(p, p + lines.len() as int)[i] == t[p + i]);
            }
            assert(t.subrange(p, p + blines.len() as int) =~= blines) by {
                assert forall|i: int| 0 <= i < blines.len() implies t.subrange(
                    p,
                    p + blines.len() as int,
                )[i] == blines[i] by {
                    assert(t[p + i] == lines[i]);
                    assert(lines[i] == (blines + sline + cline)[i]);
                }
            }
            let base = m.families[fi].metrics;
            let mq = lemma_bucket_lines(
                t,
                p,
                fname,
                mt.labels,
                Seq::empty(),
                buckets,
                fi,
                base,
                m,
            );
            assert(Seq::<crate::model::BucketS>::empty() + buckets =~= buckets);
            let midfam = FamilyS {
                metrics: agg_metrics(base, mt.labels, true, buckets.len() as int, Seq::empty(), buckets),
                ..m.families[fi]
            };
            assert(mq.families == m.families.update(fi, midfam));
            assert forall|k: int|
                0 <= k < mq.families.len() implies (#[trigger] mq.families[k]).name
                == m.families[k].name && mq.families[k].metric_type
                == m.families[k].metric_type by {
                assert(mq.families[k] == m.families.update(fi, midfam)[k]);
            }
            lemma_find_family_congruent(m.families, mq.families, fname, 0);
            let p2 = p + blines.len();
            assert(t.subrange(p2, p2 + sline.len() + cline.len() as int) =~= sline + cline) by {
                assert forall|i: int| 0 <= i < sline.len() + cline.len() implies t.subrange(
                    p2,
                    p2 + sline.len() + cline.len() as int,
                )[i] == (sline + cline)[i] by {
                    assert(t[p + (blines.len() + i)] == lines[blines.len() + i]);
                    assert(lines[blines.len() + i] == (blines + sline + cline)[blines.len() + i]);
                }
            }
            let m2 = lemma_agg_final_lines(
                t,
                p2,
                fname,
                mt.labels,
                true,
                sample_count,
                sample_sum,
                Seq::empty(),
                buckets,
                fi,
                base,
                mq,
            );
            assert(m2.families =~~= m.families.update(
                fi,
                FamilyS { metrics: base.push(mt), ..m.families[fi] },
            )) by {
                assert(mq.families[fi] == midfam);
                assert(MetricS {
                    labels: mt.labels,
                    data: MetricDataS::Histogram { sample_count, sample_sum, buckets },
                    timestamp_ms: None,
                } =~= mt);
            }
            m2
        },
    }
}

/// Finding a family whose name stands at `k` behind different names.
proof fn lemma_find_family_at(fams: Seq<FamilyS>, n: Seq<u8>, k: int)
    requires
        0 <= k < fams.len(),
        fams[k].name == n,
        forall|j: int| 0 <= j < k ==> (#[trigger] fams[j]).name != n,
    ensures
        crate::model::spec_find_family(fams, n, 0) == k,
{
    crate::model::lemma_find_family(fams, n, 0);
    let f = crate::model::spec_find_family(fams, n, 0);
    if f < k {
    } else if f > k {
    }
}

/// A name carried by no family is not found.
proof fn lemma_find_family_absent(fams: Seq<FamilyS>, n: Seq<u8>)
    requires
        forall|j: int| 0 <= j < fams.len() ==> (#[trigger] fams[j]).name != n,
    ensures
        crate::model::spec_find_family(fams, n, 0) == fams.len(),
{
    crate::model::lemma_find_family(fams, n, 0);
    let f = crate::model::spec_find_family(fams, n, 0);
    if f < fams.len() {
    }
}

/// A well-formed family: a valid name, help that does not begin with a
/// blank, metrics of the matching shape, and distinct label sets for
/// aggregate records.
pub open spec fn wf_family(f: FamilyS) -> bool {
    &&& wf_metric_name(f.name)
    &&& (f.help.len() == 0 || !spec_is_blank_or_tab(f.help[0]))
    &&& (forall|i: int| 0 <= i < f.metrics.len() ==> wf_metric(#[trigger] f.metrics[i], f.metric_type))
    &&& ((f.metric_type == MetricType::Summary || f.metric_type == MetricType::Histogram)
        ==> (forall|i: int, j: int|
        0 <= i < f.metrics.len() && 0 <= j < f.metrics.len() && i != j
            ==> !crate::model::spec_label_sets_match(
            (#[trigger] f.metrics[i]).labels,
            (#[trigger] f.metrics[j]).labels,
        )))
}

/// A well-formed family set: well-formed families under distinct names,
/// where no name strips to an aggregate family written earlier.
pub open spec fn wf_output(fams: Seq<FamilyS>) -> bool {
    &&& (forall|i: int| 0 <= i < fams.len() ==> wf_family(#[trigger] fams[i]))
    &&& (forall|i: int, j: int|
        0 <= i < fams.len() && 0 <= j < fams.len() && i != j ==> (#[trigger] fams[i]).name != (
        #[trigger] fams[j]).name)
    &&& (forall|i: int, j: int|
        0 <= i < fams.len() && 0 <= j < i && crate::names::spec_role((#[trigger] fams[i]).name)
            != crate::names::Role::Plain && (#[trigger] fams[j]).name
            == crate::names::spec_base_name(fams[i].name) ==> fams[j].metric_type
            != MetricType::Summary && fams[j].metric_type != MetricType::Histogram)
}

/// The metrics of one family, folded line group by line group.
#[verifier::rlimit(100)]
proof fn lemma_family_metrics(
    t: Seq<u8>,
    p: int,
    fname: Seq<u8>,
    fi: int,
    mts: Seq<MetricS>,
    m: MachineS,
) -> (m2: MachineS)
    requires
        0 <= p,
        ({
            let lines = crate::format::spec_format_metrics(fname, mts);
            &&& p + lines.len() <= t.len()
            &&& t.subrange(p, p + lines.len()) == lines
        }),
        wf_metric_name(fname),
        0 <= fi < m.families.len(),
        m.families[fi].name == fname,
        crate::model::spec_find_family(m.families, fname, 0) == fi,
        crate::machine::spec_resolve_sample(m.families, fname) == (m.families, fi, crate::names::Role::Plain),
        forall|i: int| 0 <= i < mts.len() ==> wf_metric(#[trigger] mts[i], m.families[fi].metric_type),
        (m.families[fi].metric_type == MetricType::Summary || m.families[fi].metric_type
            == MetricType::Histogram) ==> ({
            &&& (forall|j: int, r: int|
                0 <= j < m.families[fi].metrics.len() && 0 <= r < mts.len()
                    ==> !crate::model::spec_label_sets_match(
                    (#[trigger] m.families[fi].metrics[j]).labels,
                    (#[trigger] mts[r]).labels,
                ))
            &&& (forall|r: int, s: int|
                0 <= r < mts.len() && 0 <= s < mts.len() && r != s
                    ==> !crate::model::spec_label_sets_match(
                    (#[trigger] mts[r]).labels,
                    (#[trigger] mts[s]).labels,
                ))
        }),
    ensures
        ({
            let lines = crate::format::spec_format_metrics(fname, mts);
            &&& spec_run(t, p, State::StartOfLine, m) == spec_run(
                t,
                p + lines.len(),
                State::StartOfLine,
                m2,
            )
            &&& m2.families == m.families.update(
                fi,
                FamilyS { metrics: m.families[fi].metrics + mts, ..m.families[fi] },
            )
        }),
    decreases mts.len(),
{
    let lines = crate::format::spec_format_metrics(fname, mts);
    if mts.len() == 0 {
        assert(m.families[fi].metrics + mts =~= m.families[fi].metrics);
        assert(m.families.update(fi, FamilyS { metrics: m.families[fi].metrics + mts, ..m.families[fi] })
            =~~= m.families) by {
            assert(FamilyS { metrics: m.families[fi].metrics + mts, ..m.families[fi] } =~= m.families[fi]);
        }
        m
    } else {
        let mt0 = mts[0];
        let mlines = crate::format::spec_format_metric(fname, mt0);
        let rest = crate::format::spec_format_metrics(fname, mts.drop_first());
        assert(lines == mlines + rest);
        assert forall|i: int| 0 <= i < lines.len() implies t[p + i] == lines[i] by {
            assert(t.subrange(p, p + lines.len() as int)[i] == t[p + i]);
        }
        assert(t.subrange(p, p + mlines.len() as int) =~= mlines) by {
            assert forall|i: int| 0 <= i < mlines.len() implies t.subrange(
                p,
                p + mlines.len() as int,
            )[i] == mlines[i] by {
                assert(t[p + i] == lines[i]);
                assert(lines[i] == (mlines + rest)[i]);
            }
        }
        let ty = m.families[fi].metric_type;
        if ty == MetricType::Summary {
            assert(no_match_in(m.families[fi].metrics, mt0.labels, false)) by {
                crate::laws::lemma_label_sets_symmetric();
            }
        }
        if ty == MetricType::Histogram {
            assert(no_match_in(m.families[fi].metrics, mt0.labels, true)) by {
                crate::laws::lemma_label_sets_symmetric();
            }
        }
        let ma = lemma_metric_lines(t, p, fname, fi, mt0, m);
        let midfam = FamilyS { metrics: m.families[fi].metrics.push(mt0), ..m.families[fi] };
        assert(ma.families == m.families.update(fi, midfam));
        assert forall|k: int|
            0 <= k < ma.families.len() implies (#[trigger] ma.families[k]).name
            == m.families[k].name && ma.families[k].metric_type == m.families[k].metric_type by {
            assert(ma.families[k] == m.families.update(fi, midfam)[k]);
        }
        lemma_find_family_congruent(m.families, ma.families, fname, 0);
        lemma_resolve_congruent(m.families, ma.families, fname);
        let p2 = p + mlines.len();
        assert(t.subrange(p2, p2 + rest.len() as int) =~= rest) by {
            assert forall|i: int| 0 <= i < rest.len() implies t.subrange(p2, p2 + rest.len() as int)[i]
                == rest[i] by {
                assert(t[p + (mlines.len() + i)] == lines[mlines.len() + i]);
                assert(lines[mlines.len() + i] == (mlines + rest)[mlines.len() + i]);
            }
        }
        assert(ma.families[fi] == midfam);
        assert(forall|i: int|
            0 <= i < mts.drop_first().len() ==> #[trigger] mts.drop_first()[i] == mts[i + 1]);
        if ty == MetricType::Summary || ty == MetricType::Histogram {
            assert forall|j: int, r: int|
                0 <= j < ma.families[fi].metrics.len() && 0 <= r < mts.drop_first().len()
                    implies !crate::model::spec_label_sets_match(
                (#[trigger] ma.families[fi].metrics[j]).labels,
                (#[trigger] mts.drop_first()[r]).labels,
            ) by {
                if j < m.families[fi].metrics.len() {
                    assert(ma.families[fi].metrics[j] == m.families[fi].metrics[j]);
                } else {
                    assert(ma.families[fi].metrics[j] == mt0);
                }
            }
        }
        let m2 = lemma_family_metrics(t, p2, fname, fi, mts.drop_first(), ma);
        assert(m2.families =~~= m.families.update(
            fi,
            FamilyS { metrics: m.families[fi].metrics + mts, ..m.families[fi] },
        )) by {
            assert(m.families[fi].metrics.push(mt0) + mts.drop_first() =~= m.families[fi].metrics
                + mts);
        }
        m2
    }
}

/// One family's whole block: its HELP and TYPE lines and all its sample
/// lines, which together add exactly the family to the registry.
#[verifier::rlimit(100)]
proof fn lemma_family_block(t: Seq<u8>, p: int, f: FamilyS, m: MachineS) -> (m2: MachineS)
    requires
        0 <= p,
        ({
            let block = crate::format::spec_format_family(f);
            &&& p + block.len() <= t.len()
            &&& t.subrange(p, p + block.len()) == block
        }),
        wf_family(f),
        forall|j: int| 0 <= j < m.families.len() ==> (#[trigger] m.families[j]).name != f.name,
        crate::names::spec_role(f.name) != crate::names::Role::Plain ==> forall|j: int|
            0 <= j < m.families.len() && (#[trigger] m.families[j]).name
                == crate::names::spec_base_name(f.name) ==> m.families[j].metric_type
                != MetricType::Summary && m.families[j].metric_type != MetricType::Histogram,
    ensures
        ({
            let block = crate::format::spec_format_family(f);
            &&& spec_run(t, p, State::StartOfLine, m) == spec_run(
                t,
                p + block.len(),
                State::StartOfLine,
                m2,
            )
            &&& m2.families == m.families.push(f)
        }),
{
    let block = crate::format::spec_format_family(f);
    let hline = crate::format::spec_format_help_line(f);
    let tline = crate::format::spec_format_type_line(f);
    let mlines = crate::format::spec_format_metrics(f.name, f.metrics);
    assert(block == hline + tline + mlines);
    assert forall|i: int| 0 <= i < block.len() implies t[p + i] == block[i] by {
        assert(t.subrange(p, p + block.len() as int)[i] == t[p + i]);
    }
    let fi = m.families.len() as int;
    lemma_find_family_absent(m.families, f.name);
    // The HELP line, if the help text is not empty.
    let ma: MachineS;
    if f.help.len() > 0 {
        assert(t.subrange(p, p + hline.len() as int) =~= hline) by {
            assert forall|i: int| 0 <= i < hline.len() implies t.subrange(
                p,
                p + hline.len() as int,
            )[i] == hline[i] by {
                assert(t[p + i] == block[i]);
                assert(block[i] == (hline + tline + mlines)[i]);
            }
        }
        assert(hline == crate::format::help_prefix() + f.name + seq![0x20u8]
            + crate::format::spec_escape_help(f.help) + seq![0x0au8]);
        ma = lemma_help_line(t, p, f.name, f.help, m);
    } else {
        assert(hline =~= Seq::<u8>::empty());
        ma = m;
    }
    let pt = p + hline.len();
    assert(t.subrange(pt, pt + tline.len() as int) =~= tline) by {
        assert forall|i: int| 0 <= i < tline.len() implies t.subrange(pt, pt + tline.len() as int)[i]
            == tline[i] by {
            assert(t[p + (hline.len() + i)] == block[hline.len() + i]);
            assert(block[hline.len() + i] == (hline + tline + mlines)[hline.len() + i]);
        }
    }
    assert(tline == crate::format::type_prefix() + f.name + seq![0x20u8]
        + crate::format::spec_type_token(f.metric_type) + seq![0x0au8]);
    // The TYPE line finds or creates the family and sets its type.
    if f.help.len() > 0 {
        assert(ma.families == m.families.push(
            FamilyS { name: f.name, help: f.help, metric_type: MetricType::Untyped, metrics: Seq::empty() },
        ));
        assert forall|j: int| 0 <= j < fi implies (#[trigger] ma.families[j]).name != f.name by {
            assert(ma.families[j] == m.families[j]);
        }
        lemma_find_family_at(ma.families, f.name, fi);
    } else {
        lemma_find_family_absent(ma.families, f.name);
    }
    let mb = lemma_type_line(t, pt, f.name, f.metric_type, ma);
    let partial = FamilyS {
        name: f.name,
        help: f.help,
        metric_type: f.metric_type,
        metrics: Seq::empty(),
    };
    assert(mb.families =~~= m.families.push(partial)) by {
        let gc = crate::machine::spec_get_or_create(ma.families, f.name);
        if f.help.len() > 0 {
            assert(gc.0 == ma.families && gc.1 == fi);
        } else {
            assert(gc.1 == fi);
        }
    }
    // The family's samples.
    let pm = pt + tline.len();
    assert(t.subrange(pm, pm + mlines.len() as int) =~= mlines) by {
        assert forall|i: int| 0 <= i < mlines.len() implies t.subrange(pm, pm + mlines.len() as int)[i]
            == mlines[i] by {
            assert(t[p + (hline.len() + tline.len() + i)] == block[hline.len() + tline.len() + i]);
            assert(block[hline.len() + tline.len() + i] == (hline + tline + mlines)[hline.len()
                + tline.len() + i]);
        }
    }
    assert forall|j: int| 0 <= j < fi implies (#[trigger] mb.families[j]).name != f.name by {
        assert(mb.families[j] == m.families[j]);
    }
    lemma_find_family_at(mb.families, f.name, fi);
    // The family's own name resolves to it in the plain role.
    assert(crate::machine::spec_resolve_sample(mb.families, f.name) == (
        mb.families,
        fi,
        crate::names::Role::Plain,
    )) by {
        let base = crate::names::spec_base_name(f.name);
        let r0 = crate::names::spec_role(f.name);
        if r0 != crate::names::Role::Plain {
            crate::model::lemma_find_family(mb.families, base, 0);
            let bi = crate::model::spec_find_family(mb.families, base, 0);
            if bi < mb.families.len() {
                assert(base.len() < f.name.len()) by {
                    crate::names::lemma_base_shorter(f.name);
                }
                assert(mb.families[bi].name == base);
                if bi < fi {
                    assert(mb.families[bi] == m.families[bi]);
                } else {
                    assert(mb.families[bi] == partial);
                    assert(false);
                }
            }
        }
        crate::model::lemma_find_family(mb.families, f.name, 0);
    }
    let mc = lemma_family_metrics(t, pm, f.name, fi, f.metrics, mb);
    assert(mc.families =~~= m.families.push(f)) by {
        assert(mb.families[fi] == partial);
        assert(Seq::<MetricS>::empty() + f.metrics =~= f.metrics);
        assert(FamilyS { metrics: Seq::<MetricS>::empty() + f.metrics, ..partial } =~= f);
    }
    assert(pm + mlines.len() == p + block.len());
    mc
}

/// The whole document, family block by family block.
#[verifier::rlimit(100)]
proof fn lemma_document(t: Seq<u8>, p: int, done: Seq<FamilyS>, rem: Seq<FamilyS>, m: MachineS)
    requires
        0 <= p,
        p + crate::format::spec_format(rem).len() == t.len(),
        t.subrange(p, t.len() as int) == crate::format::spec_format(rem),
        m.families == done,
        wf_output(done + rem),
        done.len() + rem.len() == (done + rem).len(),
    ensures
        spec_run(t, p, State::StartOfLine, m) == (Outcome::Done { families: done + rem }),
    decreases rem.len(),
{
    let whole = done + rem;
    if rem.len() == 0 {
        assert(crate::format::spec_format(rem).len() == 0);
        assert(p == t.len());
        assert(spec_skip_blanks(t, p) == p);
        assert(spec_run(t, p, State::StartOfLine, m) == (Outcome::Done { families: m.families }));
        assert(done + rem =~= done);
    } else {
        let f = rem[0];
        let block = crate::format::spec_format_family(f);
        let rest = crate::format::spec_format(rem.drop_first());
        assert(crate::format::spec_format(rem) == block + rest);
        assert forall|i: int| 0 <= i < block.len() + rest.len() implies t[p + i] == (block
            + rest)[i] by {
            assert(t.subrange(p, t.len() as int)[i] == t[p + i]);
        }
        assert(t.subrange(p, p + block.len() as int) =~= block) by {
            assert forall|i: int| 0 <= i < block.len() implies t.subrange(
                p,
                p + block.len() as int,
            )[i] == block[i] by {
                assert(t[p + i] == (block + rest)[i]);
            }
        }
        assert(whole[done.len() as int] == f);
        assert(wf_family(f));
        assert forall|j: int| 0 <= j < m.families.len() implies (#[trigger] m.families[j]).name
            != f.name by {
            assert(whole[j] == done[j] && whole[j].name != whole[done.len() as int].name);
        }
        if crate::names::spec_role(f.name) != crate::names::Role::Plain {
            assert forall|j: int|
                0 <= j < m.families.len() && (#[trigger] m.families[j]).name
                    == crate::names::spec_base_name(f.name) implies m.families[j].metric_type
                != MetricType::Summary && m.families[j].metric_type != MetricType::Histogram by {
                assert(whole[j] == done[j]);
            }
        }
        let ma = lemma_family_block(t, p, f, m);
        let p2 = p + block.len();
        assert(t.subrange(p2, t.len() as int) =~= rest) by {
            assert forall|i: int| 0 <= i < rest.len() implies t.subrange(p2, t.len() as int)[i]
                == rest[i] by {
                assert(t[p + (block.len() + i)] == (block + rest)[block.len() + i]);
            }
        }
        assert(done.push(f) + rem.drop_first() =~= done + rem);
        lemma_document(t, p2, done.push(f), rem.drop_first(), ma);
    }
}

/// Round trip of the formatter and the parser: a well-formed family
/// set, written out and parsed back, comes back exactly. Well-formed
/// means: valid and distinct family names, none of which strips to an
/// earlier aggregate family; valid non-reserved label names that avoid
/// the captured `quantile`/`le` names; float-literal value tokens;
/// distinct label sets and no timestamps on aggregate records; and help
/// text that does not begin with a blank.
pub proof fn lemma_format_parse_roundtrip(fams: Seq<FamilyS>)
    requires
        wf_output(fams),
    ensures
        spec_parse(crate::format::spec_format(fams)) == (Outcome::Done { families: fams }),
{
    let t = crate::format::spec_format(fams);
    assert(t.subrange(0, t.len() as int) =~= t);
    assert(Seq::<FamilyS>::empty() + fams =~= fams);
    assert(crate::machine::init_machine().families =~= Seq::<FamilyS>::empty());
    lemma_document(t, 0, Seq::empty(), fams, crate::machine::init_machine());
}

/// Is this pair a summary's `quantile` capture?
pub open spec fn fam_is_q(m: MachineS, x: LabelPairS) -> bool {
    m.families[m.cur_fam].metric_type == MetricType::Summary && x.name == quantile_label()
}

/// Is this pair a histogram's `le` capture?
pub open spec fn fam_is_le(m: MachineS, x: LabelPairS) -> bool {
    m.families[m.cur_fam].metric_type == MetricType::Histogram && x.name == le_label()
}

proof fn lemma_exp_bytes(v: Seq<u8>, b: int, i: int)
    requires
        0 <= b <= v.len(),
        spec_exp_from(v, b),
        0 <= i < v.len(),
    ensures
        b <= i ==> !spec_is_blank_or_tab(v[i]) && v[i] != 0x0a,
{
    if b <= i {
        if i == b {
            assert(v[b] == 0x65 || v[b] == 0x45);
        } else {
            let j = if b + 1 < v.len() && spec_is_sign(v[b + 1]) {
                b + 2
            } else {
                b + 1
            };
            lemma_digits_end(v, j);
            if i < j {
                assert(spec_is_sign(v[i]));
            } else {
                assert(spec_is_digit(v[i]));
            }
        }
    }
}

} // verus!
