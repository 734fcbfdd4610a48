//! Ordering of the grouped result: a composite comparator built from the
//! caller's criteria, an optional lexical tiebreak, a final inversion, and a
//! stable sort applying it.

use vstd::prelude::*;
use crate::group::{FileGroup, GroupModel, NumRange, spec_modified, spec_size};

verus! {

/// One sort criterion; the caller lists them in precedence order.
#[derive(Clone, Copy, PartialEq, Eq, Structural, Debug)]
pub enum SortKey {
    ByModifiedTime,
    BySize,
}

/// Three-way comparison of two numbers: negative, zero or positive.
pub open spec fn cmp_u64(a: u64, b: u64) -> int {
    if a < b {
        -1
    } else if a > b {
        1
    } else {
        0
    }
}

/// Comparison of two optional fields; an absent side contributes no
/// distinction.
pub open spec fn cmp_opt(a: Option<u64>, b: Option<u64>) -> int {
    match (a, b) {
        (Some(x), Some(y)) => cmp_u64(x, y),
        _ => 0,
    }
}

/// Lexicographic byte order.
pub open spec fn cmp_bytes(a: Seq<u8>, b: Seq<u8>) -> int
    decreases a.len(),
{
    if a.len() == 0 && b.len() == 0 {
        0
    } else if a.len() == 0 {
        -1
    } else if b.len() == 0 {
        1
    } else if a[0] < b[0] {
        -1
    } else if a[0] > b[0] {
        1
    } else {
        cmp_bytes(a.drop_first(), b.drop_first())
    }
}

/// Ranges compare by their `(start, end)` pairs; a side without a range
/// contributes no distinction.
pub open spec fn cmp_range(a: Option<NumRange>, b: Option<NumRange>) -> int {
    match (a, b) {
        (Some(x), Some(y)) => if x.start != y.start {
            cmp_u64(x.start, y.start)
        } else {
            cmp_u64(x.end, y.end)
        },
        _ => 0,
    }
}

/// `a`, with `b` deciding only a tie of `a`.
pub open spec fn compose_cmp(a: int, b: int) -> int {
    if a != 0 {
        a
    } else {
        b
    }
}

/// Comparison of two groups under one criterion.
pub open spec fn cmp_by_key(k: SortKey, a: GroupModel, b: GroupModel) -> int {
    match k {
        SortKey::ByModifiedTime => cmp_opt(spec_modified(a), spec_modified(b)),
        SortKey::BySize => cmp_opt(spec_size(a), spec_size(b)),
    }
}

/// Comparison under a chain of criteria, earlier ones deciding first.
pub open spec fn cmp_by_keys(ks: Seq<SortKey>, a: GroupModel, b: GroupModel) -> int
    decreases ks.len(),
{
    if ks.len() == 0 {
        0
    } else {
        compose_cmp(cmp_by_key(ks[0], a, b), cmp_by_keys(ks.drop_first(), a, b))
    }
}

/// The default lexical tiebreak: stem, then range, then extension.
pub open spec fn cmp_lex(a: GroupModel, b: GroupModel) -> int {
    compose_cmp(
        cmp_bytes(a.stem, b.stem),
        compose_cmp(cmp_range(a.range, b.range), cmp_bytes(a.ext, b.ext)),
    )
}

/// Invert the final composite ordering when `reverse` is set.
pub open spec fn apply_reverse(c: int, reverse: bool) -> int {
    if reverse {
        -c
    } else {
        c
    }
}

/// The whole composite comparator: the caller's criteria in order, then the
/// lexical chain when the default ordering is on, the result inverted as a
/// whole when `reverse` is set.
pub open spec fn cmp_groups(
    ks: Seq<SortKey>,
    default_on: bool,
    reverse: bool,
    a: GroupModel,
    b: GroupModel,
) -> int {
    apply_reverse(
        compose_cmp(
            cmp_by_keys(ks, a, b),
            if default_on {
                cmp_lex(a, b)
            } else {
                0
            },
        ),
        reverse,
    )
}

/// Reverse involution: inverting the final composite ordering twice is the
/// same as never inverting it.
pub proof fn lemma_reverse_involution(
    ks: Seq<SortKey>,
    default_on: bool,
    a: GroupModel,
    b: GroupModel,
)
    ensures
        apply_reverse(cmp_groups(ks, default_on, true, a, b), true) == cmp_groups(
            ks,
            default_on,
            false,
            a,
            b,
        ),
        forall|c: int| apply_reverse(apply_reverse(c, true), true) == apply_reverse(c, false),
{
}

/// Stable insertion of `x` behind every earlier element it does not strictly
/// precede.
pub open spec fn spec_insert(
    t: Seq<GroupModel>,
    x: GroupModel,
    ks: Seq<SortKey>,
    default_on: bool,
    reverse: bool,
) -> Seq<GroupModel>
    decreases t.len(),
{
    if t.len() == 0 {
        seq![x]
    } else if cmp_groups(ks, default_on, reverse, t.last(), x) > 0 {
        spec_insert(t.drop_last(), x, ks, default_on, reverse).push(t.last())
    } else {
        t.push(x)
    }
}

/// Stable insertion sort under the composite comparator.
pub open spec fn spec_sort(
    s: Seq<GroupModel>,
    ks: Seq<SortKey>,
    default_on: bool,
    reverse: bool,
) -> Seq<GroupModel>
    decreases s.len(),
{
    if s.len() == 0 {
        s
    } else {
        spec_insert(spec_sort(s.drop_last(), ks, default_on, reverse), s.last(), ks, default_on, reverse)
    }
}

/// The ordered result: left untouched when no criteria are given and the
/// default ordering is off, sorted stably under the composite comparator
/// otherwise.
pub open spec fn spec_order(
    s: Seq<GroupModel>,
    ks: Seq<SortKey>,
    default_on: bool,
    reverse: bool,
) -> Seq<GroupModel> {
    if ks.len() == 0 && !default_on {
        s
    } else {
        spec_sort(s, ks, default_on, reverse)
    }
}

/// The models of a sequence of groups.
pub open spec fn models(s: Seq<FileGroup>) -> Seq<GroupModel> {
    s.map_values(|g: FileGroup| g@)
}

proof fn lemma_insert_multiset(
    t: Seq<GroupModel>,
    x: GroupModel,
    ks: Seq<SortKey>,
    default_on: bool,
    reverse: bool,
)
    ensures
        spec_insert(t, x, ks, default_on, reverse).to_multiset() == t.to_multiset().insert(x),
    decreases t.len(),
{
    broadcast use vstd::seq_lib::to_multiset_build;
    broadcast use vstd::multiset::group_multiset_axioms;

    if t.len() == 0 {
        assert(t =~= Seq::<GroupModel>::empty());
        assert(seq![x] =~= t.push(x));
        assert(t.push(x).to_multiset() == t.to_multiset().insert(x));
    } else if cmp_groups(ks, default_on, reverse, t.last(), x) > 0 {
        let dl = t.drop_last();
        lemma_insert_multiset(dl, x, ks, default_on, reverse);
        assert(t =~= dl.push(t.last()));
        assert(dl.to_multiset().insert(x).insert(t.last()) =~= dl.to_multiset().insert(
            t.last(),
        ).insert(x));
    } else {
        assert(t.push(x).to_multiset() == t.to_multiset().insert(x));
    }
}

/// Ordering permutes: the ordered result holds exactly the groups that went
/// in, multiplicity included.
pub proof fn lemma_order_permutes(
    s: Seq<GroupModel>,
    ks: Seq<SortKey>,
    default_on: bool,
    reverse: bool,
)
    ensures
        spec_order(s, ks, default_on, reverse).to_multiset() == s.to_multiset(),
    decreases s.len(),
{
    broadcast use vstd::seq_lib::to_multiset_build;
    broadcast use vstd::multiset::group_multiset_axioms;

    if !(ks.len() == 0 && !default_on) && s.len() > 0 {
        let dl = s.drop_last();
        assert(spec_order(dl, ks, default_on, reverse) == spec_sort(dl, ks, default_on, reverse));
        lemma_order_permutes(dl, ks, default_on, reverse);
        lemma_insert_multiset(
            spec_sort(dl, ks, default_on, reverse),
            s.last(),
            ks,
            default_on,
            reverse,
        );
        assert(s =~= dl.push(s.last()));
    }
}

fn cmp_u64_exec(a: u64, b: u64) -> (r: i8)
    ensures
        r as int == cmp_u64(a, b),
        -1 <= r <= 1,
{
    if a < b {
        -1
    } else if a > b {
        1
    } else {
        0
    }
}

fn cmp_opt_exec(a: Option<u64>, b: Option<u64>) -> (r: i8)
    ensures
        r as int == cmp_opt(a, b),
        -1 <= r <= 1,
{
    match (a, b) {
        (Some(x), Some(y)) => cmp_u64_exec(x, y),
        _ => 0,
    }
}

fn cmp_bytes_exec(a: &Vec<u8>, b: &Vec<u8>) -> (r: i8)
    ensures
        r as int == cmp_bytes(a@, b@),
        -1 <= r <= 1,
{
    let mut i: usize = 0;
    proof {
        assert(a@.skip(0) =~= a@);
        assert(b@.skip(0) =~= b@);
    }
    while i < a.len() && i < b.len()
        invariant
            i <= a@.len(),
            i <= b@.len(),
            cmp_bytes(a@, b@) == cmp_bytes(a@.skip(i as int), b@.skip(i as int)),
        decreases a@.len() - i,
    {
        if a[i] < b[i] {
            return -1;
        }
        if a[i] > b[i] {
            return 1;
        }
        proof {
            assert(a@.skip(i as int).drop_first() =~= a@.skip(i + 1 as int));
            assert(b@.skip(i as int).drop_first() =~= b@.skip(i + 1 as int));
        }
        i += 1;
    }
    if a.len() < b.len() {
        -1
    } else if a.len() > b.len() {
        1
    } else {
        0
    }
}

fn cmp_range_exec(a: Option<NumRange>, b: Option<NumRange>) -> (r: i8)
    ensures
        r as int == cmp_range(a, b),
        -1 <= r <= 1,
{
    match (a, b) {
        (Some(x), Some(y)) => if x.start != y.start {
            cmp_u64_exec(x.start, y.start)
        } else {
            cmp_u64_exec(x.end, y.end)
        },
        _ => 0,
    }
}

proof fn lemma_cmp_by_keys_snoc(ks: Seq<SortKey>, a: GroupModel, b: GroupModel)
    requires
        ks.len() > 0,
    ensures
        cmp_by_keys(ks, a, b) == compose_cmp(
            cmp_by_keys(ks.drop_last(), a, b),
            cmp_by_key(ks.last(), a, b),
        ),
    decreases ks.len(),
{
    if ks.len() == 1 {
        assert(ks.drop_last().len() == 0);
        assert(ks.drop_first().len() == 0);
        assert(cmp_by_keys(ks.drop_first(), a, b) == 0);
        assert(cmp_by_keys(ks.drop_last(), a, b) == 0);
        assert(ks[0] == ks.last());
    } else {
        lemma_cmp_by_keys_snoc(ks.drop_first(), a, b);
        assert(ks.drop_first().drop_last() =~= ks.drop_last().drop_first());
        assert(ks.drop_first().last() == ks.last());
        assert(ks.drop_last()[0] == ks[0]);
        assert(ks.drop_last().len() > 0);
        assert(cmp_by_keys(ks.drop_last(), a, b) == compose_cmp(
            cmp_by_key(ks.drop_last()[0], a, b),
            cmp_by_keys(ks.drop_last().drop_first(), a, b),
        ));
        assert(cmp_by_keys(ks, a, b) == compose_cmp(
            cmp_by_key(ks[0], a, b),
            cmp_by_keys(ks.drop_first(), a, b),
        ));
    }
}

/// Compare two groups under the composite comparator.
pub fn compare_groups(
    criteria: &Vec<SortKey>,
    default_on: bool,
    reverse: bool,
    a: &FileGroup,
    b: &FileGroup,
) -> (r: i8)
    ensures
        r as int == cmp_groups(criteria@, default_on, reverse, a@, b@),
        -1 <= r <= 1,
{
    let mut acc: i8 = 0;
    let mut i: usize = 0;
    while i < criteria.len()
        invariant
            i <= criteria@.len(),
            acc as int == cmp_by_keys(criteria@.subrange(0, i as int), a@, b@),
            -1 <= acc <= 1,
        decreases criteria@.len() - i,
    {
        let c = match criteria[i] {
            SortKey::ByModifiedTime => cmp_opt_exec(a.modified(), b.modified()),
            SortKey::BySize => cmp_opt_exec(a.size(), b.size()),
        };
        proof {
            lemma_cmp_by_keys_snoc(criteria@.subrange(0, i + 1 as int), a@, b@);
            assert(criteria@.subrange(0, i + 1 as int).drop_last() =~= criteria@.subrange(
                0,
                i as int,
            ));
            assert(criteria@.subrange(0, i + 1 as int).last() == criteria@[i as int]);
        }
        if acc == 0 {
            acc = c;
        }
        i += 1;
    }
    proof {
        assert(criteria@.subrange(0, criteria@.len() as int) =~= criteria@);
    }
    let c = if acc != 0 {
        acc
    } else if default_on {
        let sc = cmp_bytes_exec(&a.stem, &b.stem);
        if sc != 0 {
            sc
        } else {
            let rc = cmp_range_exec(a.range, b.range);
            if rc != 0 {
                rc
            } else {
                cmp_bytes_exec(&a.ext, &b.ext)
            }
        }
    } else {
        0
    };
    if reverse {
        -c
    } else {
        c
    }
}

/// Order the groups under the composite comparator with a stable sort; with
/// no criteria and the default ordering off, the insertion order is kept
/// verbatim.
pub fn order(
    groups: Vec<FileGroup>,
    criteria: &Vec<SortKey>,
    default_on: bool,
    reverse: bool,
) -> (r: Vec<FileGroup>)
    ensures
        models(r@) == spec_order(models(groups@), criteria@, default_on, reverse),
        (criteria@.len() == 0 && !default_on) ==> r@ == groups@,
{
    if criteria.len() == 0 && !default_on {
        return groups;
    }
    let ghost orig = groups@;
    let mut v = groups;
    if v.len() == 0 {
        return v;
    }
    let mut i: usize = 1;
    proof {
        let s1 = models(orig.subrange(0, 1));
        assert(s1.len() == 1);
        assert(s1.drop_last().len() == 0);
        assert(spec_sort(s1.drop_last(), criteria@, default_on, reverse) == s1.drop_last());
        assert(spec_sort(s1, criteria@, default_on, reverse) == spec_insert(
            s1.drop_last(),
            s1.last(),
            criteria@,
            default_on,
            reverse,
        ));
        assert(spec_insert(s1.drop_last(), s1.last(), criteria@, default_on, reverse) == seq![
            s1.last(),
        ]);
        assert(seq![s1.last()] =~= s1);
        assert(v@.subrange(0, 1) =~= orig.subrange(0, 1));
        assert(v@.subrange(1, v@.len() as int) =~= orig.subrange(1, orig.len() as int));
    }
    while i < v.len()
        invariant
            1 <= i <= v@.len(),
            v@.len() == orig.len(),
            models(v@.subrange(0, i as int)) == spec_sort(
                models(orig.subrange(0, i as int)),
                criteria@,
                default_on,
                reverse,
            ),
            v@.subrange(i as int, v@.len() as int) == orig.subrange(i as int, orig.len() as int),
        decreases v@.len() - i,
    {
        let ghost prev = v@;
        let x = v.remove(i);
        proof {
            assert(x == orig[i as int]) by {
                assert(prev.subrange(i as int, prev.len() as int)[0] == prev[i as int]);
                assert(orig.subrange(i as int, orig.len() as int)[0] == orig[i as int]);
            }
            assert(v@.subrange(0, i as int) =~= prev.subrange(0, i as int));
            assert(v@.subrange(i as int, v@.len() as int) =~= orig.subrange(
                i + 1 as int,
                orig.len() as int,
            )) by {
                assert forall|k: int| 0 <= k < v@.len() - i implies #[trigger] v@.subrange(
                    i as int,
                    v@.len() as int,
                )[k] == orig.subrange(i + 1 as int, orig.len() as int)[k] by {
                    assert(v@[i + k] == prev[i + 1 + k]);
                    assert(prev.subrange(i as int, prev.len() as int)[k + 1] == prev[i + 1 + k]);
                    assert(orig.subrange(i as int, orig.len() as int)[k + 1] == orig[i + 1 + k]);
                }
            }
        }
        let ghost pre = v@;
        let mut j: usize = i;
        proof {
            assert(models(pre.subrange(i as int, i as int)).len() == 0);
            assert(spec_insert(models(pre.subrange(0, i as int)), x@, criteria@, default_on, reverse)
                =~= spec_insert(
                models(pre.subrange(0, i as int)),
                x@,
                criteria@,
                default_on,
                reverse,
            ) + models(pre.subrange(i as int, i as int)));
        }
        while j > 0 && compare_groups(criteria, default_on, reverse, &v[j - 1], &x) > 0
            invariant
                j <= i,
                i <= v@.len(),
                v@ == pre,
                spec_insert(models(pre.subrange(0, i as int)), x@, criteria@, default_on, reverse)
                    == spec_insert(
                    models(pre.subrange(0, j as int)),
                    x@,
                    criteria@,
                    default_on,
                    reverse,
                ) + models(pre.subrange(j as int, i as int)),
            decreases j,
        {
            proof {
                let tj = models(pre.subrange(0, j as int));
                assert(tj.len() == j);
                assert(tj.last() == pre[j - 1 as int]@);
                assert(tj.drop_last() =~= models(pre.subrange(0, j - 1 as int)));
                assert(spec_insert(tj, x@, criteria@, default_on, reverse) == spec_insert(
                    models(pre.subrange(0, j - 1 as int)),
                    x@,
                    criteria@,
                    default_on,
                    reverse,
                ).push(pre[j - 1 as int]@));
                assert(models(pre.subrange(j - 1 as int, i as int)) =~= seq![pre[j - 1 as int]@]
                    + models(pre.subrange(j as int, i as int)));
                assert(spec_insert(
                    models(pre.subrange(0, j - 1 as int)),
                    x@,
                    criteria@,
                    default_on,
                    reverse,
                ).push(pre[j - 1 as int]@) + models(pre.subrange(j as int, i as int)) =~=
                    spec_insert(
                    models(pre.subrange(0, j - 1 as int)),
                    x@,
                    criteria@,
                    default_on,
                    reverse,
                ) + models(pre.subrange(j - 1 as int, i as int)));
            }
            j -= 1;
        }
        proof {
            let tj = models(pre.subrange(0, j as int));
            if j == 0 {
                assert(tj.len() == 0);
                assert(spec_insert(tj, x@, criteria@, default_on, reverse) == seq![x@]);
            } else {
                assert(tj.last() == pre[j - 1 as int]@);
                assert(cmp_groups(criteria@, default_on, reverse, pre[j - 1 as int]@, x@) <= 0);
                assert(spec_insert(tj, x@, criteria@, default_on, reverse) == tj.push(x@));
            }
        }
        v.insert(j, x);
        proof {
            // the new sorted prefix is the old one with x inserted
            assert(models(v@.subrange(0, i + 1 as int)) =~= spec_insert(
                models(pre.subrange(0, i as int)),
                x@,
                criteria@,
                default_on,
                reverse,
            )) by {
                let lhs = models(v@.subrange(0, i + 1 as int));
                let rhs = spec_insert(
                    models(pre.subrange(0, j as int)),
                    x@,
                    criteria@,
                    default_on,
                    reverse,
                ) + models(pre.subrange(j as int, i as int));
                assert forall|k: int| 0 <= k < i + 1 implies lhs[k] == rhs[k] by {
                    if k < j {
                        assert(v@[k] == pre[k]);
                        assert(rhs[k] == models(pre.subrange(0, j as int)).push(x@)[k]);
                    } else if k == j {
                        assert(v@[k] == x);
                    } else {
                        assert(v@[k] == pre[k - 1]);
                    }
                }
            }
            // and that equals the spec sort of one more element
            let so = models(orig.subrange(0, i + 1 as int));
            assert(so.drop_last() =~= models(orig.subrange(0, i as int)));
            assert(so.last() == orig[i as int]@);
            assert(spec_sort(so, criteria@, default_on, reverse) == spec_insert(
                spec_sort(models(orig.subrange(0, i as int)), criteria@, default_on, reverse),
                orig[i as int]@,
                criteria@,
                default_on,
                reverse,
            ));
            // the untouched tail
            assert(v@.subrange(i + 1 as int, v@.len() as int) =~= orig.subrange(
                i + 1 as int,
                orig.len() as int,
            )) by {
                assert forall|k: int| 0 <= k < v@.len() - i - 1 implies #[trigger] v@.subrange(
                    i + 1 as int,
                    v@.len() as int,
                )[k] == orig.subrange(i + 1 as int, orig.len() as int)[k] by {
                    assert(v@[i + 1 + k] == pre[i + k]);
                    assert(pre.subrange(i as int, pre.len() as int)[k] == pre[i + k]);
                }
            }
        }
        i += 1;
    }
    proof {
        assert(v@.subrange(0, i as int) =~= v@);
        assert(orig.subrange(0, i as int) =~= orig);
    }
    v
}

} // verus!
