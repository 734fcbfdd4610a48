//! Per-entry metadata and its aggregation over a group.
//!
//! Every field merges conservatively: a timestamp absent on either side is
//! absent on the merged record, sizes add, and the newest modification,
//! newest access and earliest creation win.

use vstd::prelude::*;

verus! {

/// Metadata of one entry, or the running aggregate of a group. Timestamps
/// are plain counts (for instance nanoseconds since some fixed epoch); an
/// unreadable field is carried as `None`, never as a default.
#[derive(Clone, Copy, Debug)]
pub struct Meta {
    pub modified: Option<u64>,
    pub accessed: Option<u64>,
    pub created: Option<u64>,
    pub size: u64,
    pub is_dir: bool,
    pub is_symlink: bool,
}

/// The larger of two timestamps, absent when either is absent.
pub open spec fn spec_opt_max(a: Option<u64>, b: Option<u64>) -> Option<u64> {
    match (a, b) {
        (Some(x), Some(y)) => Some(if x >= y { x } else { y }),
        _ => None,
    }
}

/// The smaller of two timestamps, absent when either is absent.
pub open spec fn spec_opt_min(a: Option<u64>, b: Option<u64>) -> Option<u64> {
    match (a, b) {
        (Some(x), Some(y)) => Some(if x <= y { x } else { y }),
        _ => None,
    }
}

/// Sum capped at the largest representable value.
pub open spec fn spec_sat_add(a: u64, b: u64) -> u64 {
    if a + b <= u64::MAX {
        (a + b) as u64
    } else {
        u64::MAX
    }
}

/// The aggregate of two metadata records: newest `modified` and `accessed`,
/// earliest `created`, summed `size`; the flags keep the left (first seen)
/// side's values.
pub open spec fn spec_merge_meta(a: Meta, b: Meta) -> Meta {
    Meta {
        modified: spec_opt_max(a.modified, b.modified),
        accessed: spec_opt_max(a.accessed, b.accessed),
        created: spec_opt_min(a.created, b.created),
        size: spec_sat_add(a.size, b.size),
        is_dir: a.is_dir,
        is_symlink: a.is_symlink,
    }
}

/// Group-level merge: an entry without any readable metadata poisons the
/// whole aggregate.
pub open spec fn spec_merge_opt_meta(a: Option<Meta>, b: Option<Meta>) -> Option<Meta> {
    match (a, b) {
        (Some(x), Some(y)) => Some(spec_merge_meta(x, y)),
        _ => None,
    }
}

fn opt_max(a: Option<u64>, b: Option<u64>) -> (r: Option<u64>)
    ensures
        r == spec_opt_max(a, b),
{
    match (a, b) {
        (Some(x), Some(y)) => Some(if x >= y { x } else { y }),
        _ => None,
    }
}

fn opt_min(a: Option<u64>, b: Option<u64>) -> (r: Option<u64>)
    ensures
        r == spec_opt_min(a, b),
{
    match (a, b) {
        (Some(x), Some(y)) => Some(if x <= y { x } else { y }),
        _ => None,
    }
}

fn sat_add(a: u64, b: u64) -> (r: u64)
    ensures
        r == spec_sat_add(a, b),
{
    if a <= u64::MAX - b {
        a + b
    } else {
        u64::MAX
    }
}

/// Merge the aggregated metadata of a group with one more entry's record.
pub fn merge_meta(a: Option<Meta>, b: Option<Meta>) -> (r: Option<Meta>)
    ensures
        r == spec_merge_opt_meta(a, b),
{
    match (a, b) {
        (Some(x), Some(y)) => Some(
            Meta {
                modified: opt_max(x.modified, y.modified),
                accessed: opt_max(x.accessed, y.accessed),
                created: opt_min(x.created, y.created),
                size: sat_add(x.size, y.size),
                is_dir: x.is_dir,
                is_symlink: x.is_symlink,
            },
        ),
        _ => None,
    }
}

/// Metadata poisoning: a group whose `modified` is known, merged against an
/// entry whose `modified` is unreadable, loses the field entirely rather
/// than keeping the known side.
pub proof fn lemma_meta_poisoning(g: Meta, e: Meta)
    requires
        g.modified is Some,
        e.modified is None,
    ensures
        spec_merge_meta(g, e).modified is None,
{
}

/// The metadata aggregated by folding the records of `ms` in order.
pub open spec fn fold_metas(ms: Seq<Meta>) -> Meta
    recommends
        ms.len() > 0,
    decreases ms.len(),
{
    if ms.len() <= 1 {
        ms[0]
    } else {
        spec_merge_meta(fold_metas(ms.drop_last()), ms.last())
    }
}

/// The exact sum of the sizes of `ms`.
pub open spec fn sum_sizes(ms: Seq<Meta>) -> int
    decreases ms.len(),
{
    if ms.len() == 0 {
        0
    } else {
        sum_sizes(ms.drop_last()) + ms.last().size
    }
}

proof fn lemma_sum_sizes_nonneg(ms: Seq<Meta>)
    ensures
        sum_sizes(ms) >= 0,
    decreases ms.len(),
{
    if ms.len() > 0 {
        lemma_sum_sizes_nonneg(ms.drop_last());
    }
}

/// Size additivity: as long as the total fits the size type, the aggregated
/// size of a group is the exact sum of the sizes of all merged records.
pub proof fn lemma_size_additivity(ms: Seq<Meta>)
    requires
        ms.len() > 0,
        sum_sizes(ms) <= u64::MAX,
    ensures
        fold_metas(ms).size == sum_sizes(ms),
    decreases ms.len(),
{
    if ms.len() == 1 {
        assert(ms.drop_last().len() == 0);
        assert(sum_sizes(ms.drop_last()) == 0);
        assert(sum_sizes(ms) == ms.last().size);
        assert(fold_metas(ms) == ms[0]);
        assert(ms.last() == ms[0]);
    } else {
        lemma_sum_sizes_nonneg(ms.drop_last());
        lemma_size_additivity(ms.drop_last());
    }
}

} // verus!
