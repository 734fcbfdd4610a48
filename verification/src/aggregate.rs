//! Folding a traversal's entries into insertion-ordered groups.
//!
//! Each entry is decomposed; entries sharing a stem and extension merge into
//! one numbered group, every other name stands alone under its raw name. An
//! index from key to position keeps the lookup fast while the groups keep
//! first-occurrence order.

use vstd::prelude::*;
use crate::group::{
    FileGroup, GroupModel, NumRange, group_wf, spec_merge_range, merge_range, singleton_range,
    fold_ranges,
};
use crate::meta::{Meta, spec_merge_opt_meta, merge_meta};
use crate::name::{
    spec_decompose, decompose, digits_val, parse_numeral, spec_split_ext, split_ext, DOT,
};
use crate::order::models;

verus! {

/// Key tag of a group identified by stem and extension.
pub const TAG_NUMBERED: u8 = 0;

/// Key tag of a singleton keyed by its raw name.
pub const TAG_RAW: u8 = 1;

/// The executable form of a group key: a tag telling numbered groups from
/// raw singletons, and the two identifying byte strings.
pub type ExKey = (u8, Vec<u8>, Vec<u8>);

/// The mathematical form of a group key.
pub type SpecKey = (u8, Seq<u8>, Seq<u8>);

/// The identifying key of a group: numbered groups carry their stem and
/// extension, raw singletons their whole name.
pub open spec fn spec_key_of(g: GroupModel) -> SpecKey {
    match g.range {
        Some(_) => (TAG_NUMBERED, g.stem, g.ext),
        None => (TAG_RAW, g.stem + g.ext, Seq::<u8>::empty()),
    }
}

/// The key an entry named `name` folds under: its stem and extension when it
/// decomposes and its numeral leaves room for the half-open end, its raw
/// name otherwise.
pub open spec fn spec_entry_key(name: Seq<u8>) -> SpecKey {
    match spec_decompose(name) {
        Some(p) => if digits_val(p.1) < u64::MAX {
            (TAG_NUMBERED, p.0, p.2)
        } else {
            (TAG_RAW, name, Seq::<u8>::empty())
        },
        None => (TAG_RAW, name, Seq::<u8>::empty()),
    }
}

/// The numeral value of a decomposable name.
pub open spec fn spec_numeral_of(name: Seq<u8>) -> u64 {
    match spec_decompose(name) {
        Some(p) => digits_val(p.1) as u64,
        None => 0,
    }
}

/// The singleton group of an entry whose name carries no usable numeral.
pub open spec fn spec_raw_group(name: Seq<u8>, parent: Seq<u8>, meta: Option<Meta>) -> GroupModel {
    GroupModel {
        range: None,
        parent: Some(parent),
        stem: spec_split_ext(name).0,
        ext: spec_split_ext(name).1,
        meta,
    }
}

/// The group created on first sight of an entry.
pub open spec fn spec_new_group(name: Seq<u8>, parent: Seq<u8>, meta: Option<Meta>) -> GroupModel {
    if spec_entry_key(name).0 == TAG_NUMBERED {
        GroupModel {
            range: Some(
                NumRange {
                    start: spec_numeral_of(name),
                    end: (spec_numeral_of(name) + 1) as u64,
                },
            ),
            parent: Some(parent),
            stem: spec_entry_key(name).1,
            ext: spec_entry_key(name).2,
            meta,
        }
    } else {
        spec_raw_group(name, parent, meta)
    }
}

/// An existing numbered group after one more entry with numeral `n`: the
/// range hull grows, the metadata merges, everything else keeps the first
/// entry's values.
pub open spec fn spec_merge_entry(g: GroupModel, n: u64, meta: Option<Meta>) -> GroupModel {
    GroupModel {
        range: match g.range {
            Some(r) => Some(spec_merge_range(r, singleton_range(n))),
            None => None,
        },
        meta: spec_merge_opt_meta(g.meta, meta),
        ..g
    }
}

/// First position holding a group with key `k`, or -1.
pub open spec fn find_key(gs: Seq<GroupModel>, k: SpecKey) -> int
    decreases gs.len(),
{
    if gs.len() == 0 {
        -1
    } else if spec_key_of(gs[0]) == k {
        0
    } else if find_key(gs.drop_first(), k) < 0 {
        -1
    } else {
        find_key(gs.drop_first(), k) + 1
    }
}

/// Hidden entries are dropped before decomposition when the policy says so.
pub open spec fn spec_skip(name: Seq<u8>, show_hidden: bool) -> bool {
    !show_hidden && name.len() > 0 && name[0] == DOT
}

/// The grouped state after folding one entry: unchanged for a skipped
/// hidden name; a merge into the first group carrying the entry's key; a
/// replacement for a raw key seen again; a new group last in order for a
/// fresh key.
pub open spec fn spec_fold(
    gs: Seq<GroupModel>,
    name: Seq<u8>,
    parent: Seq<u8>,
    meta: Option<Meta>,
    show_hidden: bool,
) -> Seq<GroupModel> {
    if spec_skip(name, show_hidden) {
        gs
    } else {
        let k = spec_entry_key(name);
        let i = find_key(gs, k);
        if i < 0 {
            gs.push(spec_new_group(name, parent, meta))
        } else if k.0 == TAG_NUMBERED {
            gs.update(i, spec_merge_entry(gs[i], spec_numeral_of(name), meta))
        } else {
            gs.update(i, spec_raw_group(name, parent, meta))
        }
    }
}

/// A group first opened for a numbered entry starts at the singleton range
/// of its numeral.
pub proof fn lemma_new_group_range(name: Seq<u8>, parent: Seq<u8>, meta: Option<Meta>)
    requires
        spec_entry_key(name).0 == TAG_NUMBERED,
    ensures
        spec_new_group(name, parent, meta).range == Some(singleton_range(spec_numeral_of(name))),
{
}

/// Each further entry grows a group's range by exactly one fold step: with
/// the numerals seen so far folded into the range, merging numeral `n`
/// folds it in too. Together with the order independence of `fold_ranges`,
/// the final range never depends on arrival order.
pub proof fn lemma_merge_entry_range(g: GroupModel, n: u64, meta: Option<Meta>, ns: Seq<u64>)
    requires
        ns.len() > 0,
        g.range == Some(fold_ranges(ns)),
    ensures
        spec_merge_entry(g, n, meta).range == Some(fold_ranges(ns.push(n))),
{
    assert(ns.push(n).drop_last() =~= ns);
    assert(ns.push(n).last() == n);
    assert(ns.push(n).len() > 1);
}

proof fn lemma_find_key_present(gs: Seq<GroupModel>, k: SpecKey, i: int)
    requires
        0 <= i < gs.len(),
        spec_key_of(gs[i]) == k,
        forall|j: int| 0 <= j < gs.len() && j != i ==> spec_key_of(gs[j]) != k,
    ensures
        find_key(gs, k) == i,
    decreases gs.len(),
{
    if i == 0 {
    } else {
        assert(spec_key_of(gs[0]) != k);
        let sub = gs.drop_first();
        assert forall|j: int| 0 <= j < sub.len() && j != i - 1 implies spec_key_of(sub[j]) != k by {
            assert(sub[j] == gs[j + 1]);
        }
        assert(sub[i - 1] == gs[i]);
        lemma_find_key_present(sub, k, i - 1);
    }
}

proof fn lemma_find_key_absent(gs: Seq<GroupModel>, k: SpecKey)
    requires
        forall|j: int| 0 <= j < gs.len() ==> spec_key_of(gs[j]) != k,
    ensures
        find_key(gs, k) == -1,
    decreases gs.len(),
{
    if gs.len() > 0 {
        let sub = gs.drop_first();
        assert forall|j: int| 0 <= j < sub.len() implies spec_key_of(sub[j]) != k by {
            assert(sub[j] == gs[j + 1]);
        }
        lemma_find_key_absent(sub, k);
    }
}

#[verifier::external_type_specification]
#[verifier::external_body]
#[verifier::reject_recursive_types(K)]
#[verifier::reject_recursive_types(V)]
#[verifier::reject_recursive_types(S)]
pub struct ExIndexMap<K, V, S>(indexmap::IndexMap<K, V, S>);

/// What the index holds: the mapping from group key to position.
pub uninterp spec fn index_view(m: indexmap::IndexMap<ExKey, usize>) -> Map<SpecKey, usize>;

/// The mathematical value of an index key.
pub open spec fn key_view(k: ExKey) -> SpecKey {
    (k.0, k.1@, k.2@)
}

/// The empty index.
pub open spec fn index_empty() -> Map<SpecKey, usize> {
    Map::empty()
}

/// Relies on indexmap::IndexMap::new: makes an empty map.
#[verifier::external_body]
fn index_new() -> (m: indexmap::IndexMap<ExKey, usize>)
    ensures
        index_view(m) == index_empty(),
{
    indexmap::IndexMap::new()
}

/// Relies on indexmap::IndexMap::get: returns the value stored under an
/// equal key, or nothing when the key is absent.
#[verifier::external_body]
fn index_get(
    m: &indexmap::IndexMap<ExKey, usize>,
    k: &ExKey,
) -> (r: Option<usize>)
    ensures
        index_view(*m).dom().contains(key_view(*k)) ==> r == Some(
            index_view(*m)[key_view(*k)],
        ),
        !index_view(*m).dom().contains(key_view(*k)) ==> r is None,
{
    m.get(k).copied()
}

/// Relies on indexmap::IndexMap::insert: stores the value under the key; an
/// equal key already present keeps its place and only its value changes.
#[verifier::external_body]
fn index_insert(
    m: &mut indexmap::IndexMap<ExKey, usize>,
    k: ExKey,
    v: usize,
)
    ensures
        index_view(*final(m)) == index_view(*old(m)).insert(key_view(k), v),
{
    let _ = m.insert(k, v);
}

fn clone_bytes(v: &Vec<u8>) -> (r: Vec<u8>)
    ensures
        r@ == v@,
{
    let mut r: Vec<u8> = Vec::new();
    let mut k: usize = 0;
    while k < v.len()
        invariant
            k <= v@.len(),
            r@ == v@.subrange(0, k as int),
        decreases v@.len() - k,
    {
        r.push(v[k]);
        proof {
            assert(v@.subrange(0, k as int).push(v@[k as int]) =~= v@.subrange(0, k + 1 as int));
        }
        k += 1;
    }
    proof {
        assert(v@.subrange(0, v@.len() as int) =~= v@);
    }
    r
}

/// The folding engine: groups in first-occurrence order, an index from key
/// to position, and the hidden-name policy.
pub struct Aggregator {
    /// Groups, ordered by first occurrence of their key.
    pub groups: Vec<FileGroup>,
    /// Position of each live key.
    pub index: indexmap::IndexMap<ExKey, usize>,
    /// Whether names beginning with `.` take part at all.
    pub show_hidden: bool,
}

impl Aggregator {
    /// The index mirrors the groups exactly: each group's key maps to its
    /// position, each indexed key points back at the group carrying it, and
    /// every recorded range is nonempty.
    pub open spec fn wf(self) -> bool {
        &&& (forall|i: int|
            0 <= i < self.groups@.len() ==> {
                &&& index_view(self.index).dom().contains(
                    #[trigger] spec_key_of(self.groups@[i]@),
                )
                &&& index_view(self.index)[spec_key_of(self.groups@[i]@)] == i
            })
        &&& (forall|k: SpecKey|
            #[trigger] index_view(self.index).dom().contains(k) ==> {
                &&& index_view(self.index)[k] < self.groups@.len()
                &&& spec_key_of(self.groups@[index_view(self.index)[k] as int]@) == k
            })
        &&& (forall|i: int| 0 <= i < self.groups@.len() ==> group_wf(#[trigger] self.groups@[i]@))
    }

    /// A fresh, empty aggregator.
    pub fn new(show_hidden: bool) -> (r: Aggregator)
        ensures
            r.wf(),
            r.groups@.len() == 0,
            r.show_hidden == show_hidden,
    {
        let r = Aggregator { groups: Vec::new(), index: index_new(), show_hidden };
        proof {
            assert(forall|k: SpecKey|
                !(#[trigger] index_view(r.index).dom().contains(k)));
        }
        r
    }

    /// Fold one entry: skip it under the hidden policy, merge it into the
    /// group of its key, replace a raw singleton seen again, or open a new
    /// group last in order.
    pub fn fold(&mut self, name: Vec<u8>, parent: Vec<u8>, meta: Option<Meta>)
        requires
            old(self).wf(),
        ensures
            final(self).wf(),
            final(self).show_hidden == old(self).show_hidden,
            models(final(self).groups@) == spec_fold(
                models(old(self).groups@),
                name@,
                parent@,
                meta,
                old(self).show_hidden,
            ),
    {
        let ghost gs0 = models(old(self).groups@);
        if !self.show_hidden && name.len() > 0 && name[0] == DOT {
            return ;
        }
        let dec = decompose(&name);
        let mut numbered = false;
        let mut nval: u64 = 0;
        let mut key: ExKey = (TAG_RAW, Vec::new(), Vec::new());
        let mut stem: Vec<u8> = Vec::new();
        let mut ext: Vec<u8> = Vec::new();
        match dec {
            Some(d) => {
                let parsed = parse_numeral(&d.numeral);
                match parsed {
                    Some(v) => {
                        if v < u64::MAX {
                            numbered = true;
                            nval = v;
                            key = (TAG_NUMBERED, clone_bytes(&d.stem), clone_bytes(&d.ext));
                            stem = d.stem;
                            ext = d.ext;
                        } else {
                            key = (TAG_RAW, clone_bytes(&name), Vec::new());
                        }
                    },
                    None => {
                        key = (TAG_RAW, clone_bytes(&name), Vec::new());
                    },
                }
            },
            None => {
                key = (TAG_RAW, clone_bytes(&name), Vec::new());
            },
        }
        proof {
            assert(key_view(key) == spec_entry_key(name@));
            if numbered {
                assert(spec_numeral_of(name@) == nval);
            }
        }
        let found = index_get(&self.index, &key);
        match found {
            Some(i) => {
                proof {
                    assert(index_view(self.index).dom().contains(spec_entry_key(name@)));
                    assert(i == index_view(self.index)[spec_entry_key(name@)]);
                    assert(i < self.groups@.len());
                    assert(spec_key_of(self.groups@[i as int]@) == spec_entry_key(name@));
                    assert forall|j: int|
                        0 <= j < gs0.len() && j != i implies spec_key_of(gs0[j]) != spec_entry_key(
                        name@,
                    ) by {
                        assert(gs0[j] == old(self).groups@[j]@);
                        assert(index_view(self.index)[spec_key_of(old(self).groups@[j]@)] == j);
                    }
                    assert(gs0[i as int] == old(self).groups@[i as int]@);
                    lemma_find_key_present(gs0, spec_entry_key(name@), i as int);
                }
                let g = self.groups.remove(i);
                let merged: FileGroup;
                if numbered {
                    let r0 = match g.range {
                        Some(r0) => r0,
                        None => {
                            proof {
                                assert(spec_key_of(g@).0 == TAG_NUMBERED);
                                assert(false);
                            }
                            NumRange { start: 0, end: 0 }
                        },
                    };
                    merged = FileGroup {
                        range: Some(merge_range(r0, NumRange { start: nval, end: nval + 1 })),
                        parent: g.parent,
                        stem: g.stem,
                        ext: g.ext,
                        meta: merge_meta(g.meta, meta),
                    };
                    proof {
                        assert(merged@ == spec_merge_entry(gs0[i as int], nval, meta));
                    }
                } else {
                    let (st, ex) = split_ext(name);
                    merged = FileGroup {
                        range: None,
                        parent: Some(parent),
                        stem: st,
                        ext: ex,
                        meta,
                    };
                    proof {
                        assert(merged@ == spec_raw_group(name@, parent@, meta));
                    }
                }
                proof {
                    assert(spec_key_of(merged@) == spec_entry_key(name@));
                    assert(group_wf(merged@));
                }
                self.groups.insert(i, merged);
                proof {
                    assert(self.groups@ =~= old(self).groups@.update(i as int, merged));
                    assert(models(self.groups@) =~= gs0.update(i as int, merged@));
                    assert(models(self.groups@) == spec_fold(
                        gs0,
                        name@,
                        parent@,
                        meta,
                        old(self).show_hidden,
                    ));
                    assert forall|j: int|
                        0 <= j < self.groups@.len() implies {
                        &&& index_view(self.index).dom().contains(
                            #[trigger] spec_key_of(self.groups@[j]@),
                        )
                        &&& index_view(self.index)[spec_key_of(self.groups@[j]@)] == j
                        &&& group_wf(self.groups@[j]@)
                    } by {
                        if j != i {
                            assert(self.groups@[j] == old(self).groups@[j]);
                        }
                    }
                    assert forall|k: SpecKey| #[trigger]
                        index_view(self.index).dom().contains(k) implies {
                        &&& index_view(self.index)[k] < self.groups@.len()
                        &&& spec_key_of(self.groups@[index_view(self.index)[k] as int]@) == k
                    } by {
                        let j = index_view(self.index)[k] as int;
                        if j != i {
                            assert(self.groups@[j] == old(self).groups@[j]);
                        }
                    }
                }
            },
            None => {
                proof {
                    assert forall|j: int| 0 <= j < gs0.len() implies spec_key_of(gs0[j])
                        != spec_entry_key(name@) by {
                        assert(gs0[j] == old(self).groups@[j]@);
                        assert(index_view(self.index).dom().contains(
                            spec_key_of(old(self).groups@[j]@),
                        ));
                    }
                    lemma_find_key_absent(gs0, spec_entry_key(name@));
                }
                let idx = self.groups.len();
                let ng: FileGroup;
                if numbered {
                    ng = FileGroup {
                        range: Some(NumRange { start: nval, end: nval + 1 }),
                        parent: Some(parent),
                        stem,
                        ext,
                        meta,
                    };
                } else {
                    let (st, ex) = split_ext(name);
                    ng = FileGroup { range: None, parent: Some(parent), stem: st, ext: ex, meta };
                }
                proof {
                    assert(ng@ == spec_new_group(name@, parent@, meta));
                    assert(spec_key_of(ng@) == spec_entry_key(name@));
                    assert(group_wf(ng@));
                }
                self.groups.push(ng);
                index_insert(&mut self.index, key, idx);
                proof {
                    assert(models(self.groups@) =~= gs0.push(ng@));
                    assert(models(self.groups@) == spec_fold(
                        gs0,
                        name@,
                        parent@,
                        meta,
                        old(self).show_hidden,
                    ));
                    let m1 = index_view(self.index);
                    assert forall|j: int|
                        0 <= j < self.groups@.len() implies {
                        &&& m1.dom().contains(#[trigger] spec_key_of(self.groups@[j]@))
                        &&& m1[spec_key_of(self.groups@[j]@)] == j
                        &&& group_wf(self.groups@[j]@)
                    } by {
                        if j < idx {
                            assert(self.groups@[j] == old(self).groups@[j]);
                            assert(spec_key_of(old(self).groups@[j]@) != spec_entry_key(name@));
                        }
                    }
                    assert forall|k: SpecKey| #[trigger] m1.dom().contains(
                        k,
                    ) implies {
                        &&& m1[k] < self.groups@.len()
                        &&& spec_key_of(self.groups@[m1[k] as int]@) == k
                    } by {
                        if k != spec_entry_key(name@) {
                            let j = index_view(old(self).index)[k] as int;
                            assert(self.groups@[j] == old(self).groups@[j]);
                        }
                    }
                }
            },
        }
    }

    /// Hand the grouped result over, in first-occurrence order.
    pub fn finish(self) -> (r: Vec<FileGroup>)
        ensures
            r == self.groups,
    {
        self.groups
    }
}

} // verus!
