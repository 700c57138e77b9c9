//! Sample-name analysis: the `_count`, `_sum` and `_bucket` suffixes that
//! relate a sample line to its parent summary or histogram family.

use vstd::prelude::*;
use vstd::slice::slice_subrange;

verus! {

/// The role a sample name plays within a summary or histogram family.
#[derive(Clone, Copy, Debug, PartialEq, Eq, Structural)]
pub enum Role {
    Count,
    Sum,
    Bucket,
    Plain,
}

pub open spec fn spec_ends_with(s: Seq<u8>, t: Seq<u8>) -> bool {
    t.len() <= s.len() && s.subrange(s.len() - t.len(), s.len() as int) == t
}

pub open spec fn count_suffix() -> Seq<u8> {
    seq![0x5f, 0x63, 0x6f, 0x75, 0x6e, 0x74]  // "_count"
}

pub open spec fn sum_suffix() -> Seq<u8> {
    seq![0x5f, 0x73, 0x75, 0x6d]  // "_sum"
}

pub open spec fn bucket_suffix() -> Seq<u8> {
    seq![0x5f, 0x62, 0x75, 0x63, 0x6b, 0x65, 0x74]  // "_bucket"
}

pub open spec fn spec_is_count(s: Seq<u8>) -> bool {
    spec_ends_with(s, count_suffix())
}

pub open spec fn spec_is_sum(s: Seq<u8>) -> bool {
    spec_ends_with(s, sum_suffix())
}

pub open spec fn spec_is_bucket(s: Seq<u8>) -> bool {
    spec_ends_with(s, bucket_suffix())
}

/// The implied parent family name: the sample name with its `_count`,
/// `_sum` or `_bucket` suffix stripped, tried in that order.
pub open spec fn spec_base_name(s: Seq<u8>) -> Seq<u8> {
    if spec_is_count(s) {
        s.subrange(0, s.len() - 6)
    } else if spec_is_sum(s) {
        s.subrange(0, s.len() - 4)
    } else if spec_is_bucket(s) {
        s.subrange(0, s.len() - 7)
    } else {
        s
    }
}

/// The role implied by a sample name's suffix alone.
pub open spec fn spec_role(s: Seq<u8>) -> Role {
    if spec_is_count(s) {
        Role::Count
    } else if spec_is_sum(s) {
        Role::Sum
    } else if spec_is_bucket(s) {
        Role::Bucket
    } else {
        Role::Plain
    }
}

/// A name with a suffix role is strictly longer than its base.
pub proof fn lemma_base_shorter(n: Seq<u8>)
    ensures
        spec_role(n) != Role::Plain ==> spec_base_name(n).len() < n.len(),
{
}

/// Byte-wise equality of two slices.
pub fn bytes_eq(a: &[u8], b: &[u8]) -> (r: bool)
    ensures
        r == (a@ == b@),
{
    if a.len() != b.len() {
        assert(a@.len() != b@.len());
        return false;
    }
    let n: usize = a.len();
    let mut i: usize = 0;
    while i < n
        invariant
            n == a@.len() == b@.len(),
            0 <= i <= n,
            forall|k: int| 0 <= k < i ==> a@[k] == b@[k],
        decreases n - i,
    {
        if a[i] != b[i] {
            return false;
        }
        i = i + 1;
    }
    proof {
        assert(a@ =~= b@);
    }
    true
}

/// Does `s` end with the bytes of `t`?
pub fn ends_with_bytes(s: &[u8], t: &[u8]) -> (r: bool)
    ensures
        r == spec_ends_with(s@, t@),
{
    if t.len() > s.len() {
        return false;
    }
    let tail: &[u8] = slice_subrange(s, s.len() - t.len(), s.len());
    bytes_eq(tail, t)
}

pub fn is_count(name: &[u8]) -> (r: bool)
    ensures
        r == spec_is_count(name@),
{
    let suffix: [u8; 6] = [0x5f, 0x63, 0x6f, 0x75, 0x6e, 0x74];
    proof {
        assert(suffix@ =~= count_suffix());
    }
    ends_with_bytes(name, suffix.as_slice())
}

pub fn is_sum(name: &[u8]) -> (r: bool)
    ensures
        r == spec_is_sum(name@),
{
    let suffix: [u8; 4] = [0x5f, 0x73, 0x75, 0x6d];
    proof {
        assert(suffix@ =~= sum_suffix());
    }
    ends_with_bytes(name, suffix.as_slice())
}

pub fn is_bucket(name: &[u8]) -> (r: bool)
    ensures
        r == spec_is_bucket(name@),
{
    let suffix: [u8; 7] = [0x5f, 0x62, 0x75, 0x63, 0x6b, 0x65, 0x74];
    proof {
        assert(suffix@ =~= bucket_suffix());
    }
    ends_with_bytes(name, suffix.as_slice())
}

/// The parent family name a summary sample points at.
pub fn summary_metric_name<'a>(name: &'a [u8]) -> (r: &'a [u8])
    ensures
        r@ == spec_base_name(name@),
{
    if is_count(name) {
        slice_subrange(name, 0, name.len() - 6)
    } else if is_sum(name) {
        slice_subrange(name, 0, name.len() - 4)
    } else if is_bucket(name) {
        slice_subrange(name, 0, name.len() - 7)
    } else {
        name
    }
}

/// The parent family name a histogram sample points at; the suffix rule is
/// the same as for summaries.
pub fn histogram_metric_name<'a>(name: &'a [u8]) -> (r: &'a [u8])
    ensures
        r@ == spec_base_name(name@),
{
    if is_count(name) {
        slice_subrange(name, 0, name.len() - 6)
    } else if is_sum(name) {
        slice_subrange(name, 0, name.len() - 4)
    } else if is_bucket(name) {
        slice_subrange(name, 0, name.len() - 7)
    } else {
        name
    }
}

/// The role a sample name implies.
pub fn role_of_name(name: &[u8]) -> (r: Role)
    ensures
        r == spec_role(name@),
{
    if is_count(name) {
        Role::Count
    } else if is_sum(name) {
        Role::Sum
    } else if is_bucket(name) {
        Role::Bucket
    } else {
        Role::Plain
    }
}

} // verus!
