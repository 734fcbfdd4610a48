//! The per-key aggregate: a numeral range, the first entry's parent and
//! identity, and merged metadata.

use vstd::prelude::*;
use crate::meta::{Meta, spec_merge_opt_meta};

verus! {

/// Half-open interval of the numerals seen for one group.
#[derive(Clone, Copy, PartialEq, Eq, Structural, Debug)]
pub struct NumRange {
    pub start: u64,
    pub end: u64,
}

/// The union hull of two ranges: least start, greatest end.
pub open spec fn spec_merge_range(a: NumRange, b: NumRange) -> NumRange {
    NumRange {
        start: if a.start <= b.start {
            a.start
        } else {
            b.start
        },
        end: if a.end >= b.end {
            a.end
        } else {
            b.end
        },
    }
}

/// Merge two numeral ranges.
pub fn merge_range(a: NumRange, b: NumRange) -> (r: NumRange)
    ensures
        r == spec_merge_range(a, b),
{
    NumRange {
        start: if a.start <= b.start {
            a.start
        } else {
            b.start
        },
        end: if a.end >= b.end {
            a.end
        } else {
            b.end
        },
    }
}

/// Range merging is commutative: the hull does not depend on which side
/// arrived first.
pub proof fn lemma_merge_range_comm(a: NumRange, b: NumRange)
    ensures
        spec_merge_range(a, b) == spec_merge_range(b, a),
{
}

/// Range merging is associative: merging groups pairwise in any association
/// equals merging them sequentially.
pub proof fn lemma_merge_range_assoc(a: NumRange, b: NumRange, c: NumRange)
    ensures
        spec_merge_range(spec_merge_range(a, b), c) == spec_merge_range(
            a,
            spec_merge_range(b, c),
        ),
{
}

/// The range of a single numeral `n`: the half-open interval from `n` to
/// `n + 1`.
pub open spec fn singleton_range(n: u64) -> NumRange
    recommends
        n < u64::MAX,
{
    NumRange { start: n, end: (n + 1) as u64 }
}

/// The range accumulated by folding the numerals of `ns` in arrival order.
pub open spec fn fold_ranges(ns: Seq<u64>) -> NumRange
    recommends
        ns.len() > 0,
    decreases ns.len(),
{
    if ns.len() <= 1 {
        singleton_range(ns[0])
    } else {
        spec_merge_range(fold_ranges(ns.drop_last()), singleton_range(ns.last()))
    }
}

proof fn lemma_fold_ranges_bounds(ns: Seq<u64>)
    requires
        ns.len() > 0,
        forall|i: int| 0 <= i < ns.len() ==> ns[i] < u64::MAX,
    ensures
        exists|i: int| 0 <= i < ns.len() && ns[i] == fold_ranges(ns).start,
        forall|i: int| 0 <= i < ns.len() ==> fold_ranges(ns).start <= ns[i],
        exists|i: int| 0 <= i < ns.len() && ns[i] + 1 == fold_ranges(ns).end,
        forall|i: int| 0 <= i < ns.len() ==> ns[i] + 1 <= fold_ranges(ns).end,
    decreases ns.len(),
{
    let r = fold_ranges(ns);
    if ns.len() == 1 {
        assert(r == singleton_range(ns[0]));
        assert(ns[0] == r.start);
        assert(ns[0] + 1 == r.end);
    } else {
        let sub = ns.drop_last();
        assert(forall|i: int| 0 <= i < sub.len() ==> sub[i] == ns[i]);
        lemma_fold_ranges_bounds(sub);
        let rs = fold_ranges(sub);
        let last = ns.last();
        assert(r == spec_merge_range(rs, singleton_range(last)));
        if rs.start <= last {
            assert(r.start == rs.start);
            assert(exists|i: int| 0 <= i < sub.len() && sub[i] == rs.start);
            let w = choose|i: int| 0 <= i < sub.len() && sub[i] == rs.start;
            assert(ns[w] == r.start);
        } else {
            assert(r.start == last);
            assert(ns[ns.len() - 1] == r.start);
        }
        if rs.end >= last + 1 {
            assert(r.end == rs.end);
            assert(exists|i: int| 0 <= i < sub.len() && sub[i] + 1 == rs.end);
            let w = choose|i: int| 0 <= i < sub.len() && sub[i] + 1 == rs.end;
            assert(ns[w] + 1 == r.end);
        } else {
            assert(r.end == last + 1);
            assert(ns[ns.len() - 1] + 1 == r.end);
        }
        assert forall|i: int| 0 <= i < ns.len() implies r.start <= ns[i] && ns[i] + 1 <= r.end by {
            if i < ns.len() - 1 {
                assert(rs.start <= sub[i]);
                assert(sub[i] + 1 <= rs.end);
            }
        }
    }
}

/// Order independence of range aggregation: folding the same numerals in any
/// permutation of arrival order yields the same final range.
pub proof fn lemma_fold_ranges_permutation(ns1: Seq<u64>, ns2: Seq<u64>)
    requires
        ns1.to_multiset() == ns2.to_multiset(),
        ns1.len() > 0,
        forall|i: int| 0 <= i < ns1.len() ==> ns1[i] < u64::MAX,
    ensures
        fold_ranges(ns1) == fold_ranges(ns2),
{
    ns1.to_multiset_ensures();
    ns2.to_multiset_ensures();
    assert(ns2.len() > 0);
    assert forall|x: u64| #[trigger] ns1.contains(x) implies ns2.contains(x) by {
        assert(ns1.to_multiset().count(x) > 0);
        assert(ns2.to_multiset().count(x) > 0);
    }
    assert forall|x: u64| #[trigger] ns2.contains(x) implies ns1.contains(x) by {
        assert(ns2.to_multiset().count(x) > 0);
        assert(ns1.to_multiset().count(x) > 0);
    }
    assert forall|i: int| 0 <= i < ns2.len() implies ns2[i] < u64::MAX by {
        assert(ns2.contains(ns2[i]));
        let j = choose|j: int| 0 <= j < ns1.len() && ns1[j] == ns2[i];
        assert(ns1[j] < u64::MAX);
    }
    lemma_fold_ranges_bounds(ns1);
    lemma_fold_ranges_bounds(ns2);
    let r1 = fold_ranges(ns1);
    let r2 = fold_ranges(ns2);
    let s1 = choose|i: int| 0 <= i < ns1.len() && ns1[i] == r1.start;
    assert(ns1.contains(r1.start));
    let s1b = choose|i: int| 0 <= i < ns2.len() && ns2[i] == r1.start;
    assert(r2.start <= ns2[s1b]);
    let s2 = choose|i: int| 0 <= i < ns2.len() && ns2[i] == r2.start;
    assert(ns2.contains(r2.start));
    let s2b = choose|i: int| 0 <= i < ns1.len() && ns1[i] == r2.start;
    assert(r1.start <= ns1[s2b]);
    assert(r1.start == r2.start);
    let e1 = choose|i: int| 0 <= i < ns1.len() && ns1[i] + 1 == r1.end;
    assert(ns1[e1] == (r1.end - 1) as u64);
    assert(ns1.contains((r1.end - 1) as u64));
    let e1b = choose|i: int| 0 <= i < ns2.len() && ns2[i] == (r1.end - 1) as u64;
    assert(r2.end >= ns2[e1b] + 1);
    let e2 = choose|i: int| 0 <= i < ns2.len() && ns2[i] + 1 == r2.end;
    assert(ns2[e2] == (r2.end - 1) as u64);
    assert(ns2.contains((r2.end - 1) as u64));
    let e2b = choose|i: int| 0 <= i < ns1.len() && ns1[i] == (r2.end - 1) as u64;
    assert(r1.end >= ns1[e2b] + 1);
    assert(r1.end == r2.end);
}

/// One line of output: either a run of numbered files collapsed to a range,
/// or a single name that carries no numeral.
#[derive(Clone, Debug)]
pub struct FileGroup {
    /// Range of the numerals folded into the group; `None` for a singleton
    /// keyed by its raw name.
    pub range: Option<NumRange>,
    /// Containing directory of the first entry folded in.
    pub parent: Option<Vec<u8>>,
    /// Stem of the group key, byte for byte as first seen.
    pub stem: Vec<u8>,
    /// Extension of the group key, including its leading separator.
    pub ext: Vec<u8>,
    /// Aggregated metadata; absent as soon as any member's was unreadable.
    pub meta: Option<Meta>,
}

/// Mathematical model of a `FileGroup`.
pub struct GroupModel {
    pub range: Option<NumRange>,
    pub parent: Option<Seq<u8>>,
    pub stem: Seq<u8>,
    pub ext: Seq<u8>,
    pub meta: Option<Meta>,
}

impl View for FileGroup {
    type V = GroupModel;

    open spec fn view(&self) -> GroupModel {
        GroupModel {
            range: self.range,
            parent: match self.parent {
                Some(p) => Some(p@),
                None => None,
            },
            stem: self.stem@,
            ext: self.ext@,
            meta: self.meta,
        }
    }
}

/// A recorded range is never empty.
pub open spec fn group_wf(g: GroupModel) -> bool {
    match g.range {
        Some(r) => r.start < r.end,
        None => true,
    }
}

/// The group's aggregated modification time, absent when the metadata or
/// the field is absent.
pub open spec fn spec_modified(g: GroupModel) -> Option<u64> {
    match g.meta {
        Some(m) => m.modified,
        None => None,
    }
}

/// The group's aggregated access time.
pub open spec fn spec_accessed(g: GroupModel) -> Option<u64> {
    match g.meta {
        Some(m) => m.accessed,
        None => None,
    }
}

/// The group's aggregated creation time.
pub open spec fn spec_created(g: GroupModel) -> Option<u64> {
    match g.meta {
        Some(m) => m.created,
        None => None,
    }
}

/// The group's aggregated size, absent when the metadata is.
pub open spec fn spec_size(g: GroupModel) -> Option<u64> {
    match g.meta {
        Some(m) => Some(m.size),
        None => None,
    }
}

/// Whether the group's first member was a directory.
pub open spec fn spec_is_dir(g: GroupModel) -> bool {
    match g.meta {
        Some(m) => m.is_dir,
        None => false,
    }
}

/// Whether the group's first member was a symbolic link.
pub open spec fn spec_is_symlink(g: GroupModel) -> bool {
    match g.meta {
        Some(m) => m.is_symlink,
        None => false,
    }
}

impl FileGroup {
    pub fn modified(&self) -> (r: Option<u64>)
        ensures
            r == spec_modified(self@),
    {
        match &self.meta {
            Some(m) => m.modified,
            None => None,
        }
    }

    pub fn accessed(&self) -> (r: Option<u64>)
        ensures
            r == spec_accessed(self@),
    {
        match &self.meta {
            Some(m) => m.accessed,
            None => None,
        }
    }

    pub fn created(&self) -> (r: Option<u64>)
        ensures
            r == spec_created(self@),
    {
        match &self.meta {
            Some(m) => m.created,
            None => None,
        }
    }

    pub fn size(&self) -> (r: Option<u64>)
        ensures
            r == spec_size(self@),
    {
        match &self.meta {
            Some(m) => Some(m.size),
            None => None,
        }
    }

    pub fn is_dir(&self) -> (r: bool)
        ensures
            r == spec_is_dir(self@),
    {
        match &self.meta {
            Some(m) => m.is_dir,
            None => false,
        }
    }

    pub fn is_symlink(&self) -> (r: bool)
        ensures
            r == spec_is_symlink(self@),
    {
        match &self.meta {
            Some(m) => m.is_symlink,
            None => false,
        }
    }
}

} // verus!
