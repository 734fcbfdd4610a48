//! Splitting a file name into a stem, a trailing numeral and an extension.
//!
//! A name decomposes when it contains a run of decimal digits immediately
//! followed by the end of the name or by the `.` that opens the extension.
//! Among such runs the rightmost one is the numeral; everything before it is
//! the stem and everything from the following `.` (if any) is the extension.

use vstd::prelude::*;

verus! {

/// ASCII `'0'`.
pub const ZERO: u8 = 48;

/// ASCII `'9'`.
pub const NINE: u8 = 57;

/// ASCII `'.'`.
pub const DOT: u8 = 46;

/// True for the ASCII decimal digits.
pub open spec fn is_digit(b: u8) -> bool {
    ZERO <= b <= NINE
}

/// Index just past the run of decimal digits beginning at `i`.
pub open spec fn run_end(name: Seq<u8>, i: int) -> int
    decreases name.len() - i,
{
    if i < 0 || i >= name.len() {
        i
    } else if is_digit(name[i]) {
        run_end(name, i + 1)
    } else {
        i
    }
}

/// A stem/numeral/extension boundary at stem length `i`: a digit run starts
/// there, no digit immediately precedes it, and the run is followed by the
/// end of the name or by a `.`.
pub open spec fn valid_start(name: Seq<u8>, i: int) -> bool {
    &&& 0 <= i < name.len()
    &&& is_digit(name[i])
    &&& (i == 0 || !is_digit(name[i - 1]))
    &&& (run_end(name, i) == name.len() || name[run_end(name, i)] == DOT)
}

/// The rightmost valid numeral start at or below `i`, if any.
pub open spec fn find_start(name: Seq<u8>, i: int) -> Option<int>
    decreases i + 1,
{
    if i < 0 {
        None
    } else if valid_start(name, i) {
        Some(i)
    } else {
        find_start(name, i - 1)
    }
}

/// Where the numeral of `name` begins, if `name` decomposes at all.
pub open spec fn numeral_start(name: Seq<u8>) -> Option<int> {
    find_start(name, name.len() - 1)
}

/// The stem/numeral/extension partition of `name`, if it decomposes.
pub open spec fn spec_decompose(name: Seq<u8>) -> Option<(Seq<u8>, Seq<u8>, Seq<u8>)> {
    match numeral_start(name) {
        None => None,
        Some(i) => {
            let j = run_end(name, i);
            Some((name.subrange(0, i), name.subrange(i, j), name.subrange(j, name.len() as int)))
        },
    }
}

proof fn lemma_find_start_hit(name: Seq<u8>, i: int, s: int)
    requires
        0 <= s <= i < name.len(),
        valid_start(name, s),
        forall|k: int| s < k <= i ==> !valid_start(name, k),
    ensures
        find_start(name, i) == Some(s),
    decreases i,
{
    if i > s {
        lemma_find_start_hit(name, i - 1, s);
    }
}

proof fn lemma_find_start_none(name: Seq<u8>, i: int)
    requires
        i < name.len(),
        forall|k: int| 0 <= k <= i ==> !valid_start(name, k),
    ensures
        find_start(name, i) is None,
    decreases i + 1,
{
    if i >= 0 {
        lemma_find_start_none(name, i - 1);
    }
}

/// A file name split into its three parts.
pub struct Decomposed {
    pub stem: Vec<u8>,
    pub numeral: Vec<u8>,
    pub ext: Vec<u8>,
}

fn digit(b: u8) -> (r: bool)
    ensures
        r == is_digit(b),
{
    ZERO <= b && b <= NINE
}

/// A fresh copy of `v[lo..hi]`.
fn copy_range(v: &Vec<u8>, lo: usize, hi: usize) -> (r: Vec<u8>)
    requires
        lo <= hi <= v@.len(),
    ensures
        r@ == v@.subrange(lo as int, hi as int),
{
    let mut r: Vec<u8> = Vec::new();
    let mut k = lo;
    while k < hi
        invariant
            lo <= k <= hi <= v@.len(),
            r@ == v@.subrange(lo as int, k as int),
        decreases hi - k,
    {
        r.push(v[k]);
        proof {
            assert(v@.subrange(lo as int, k as int).push(v@[k as int]) =~= v@.subrange(
                lo as int,
                k + 1 as int,
            ));
        }
        k += 1;
    }
    r
}

/// Split `name` into stem, numeral and extension, choosing the rightmost
/// digit run that stands against the extension boundary or the end of the
/// name; `None` when no digit run stands there.
pub fn decompose(name: &Vec<u8>) -> (r: Option<Decomposed>)
    ensures
        r is Some <==> numeral_start(name@) is Some,
        (r matches Some(d) ==> {
            &&& spec_decompose(name@) == Some((d.stem@, d.numeral@, d.ext@))
            &&& d.stem@ + d.numeral@ + d.ext@ == name@
            &&& d.numeral@.len() > 0
            &&& (forall|k: int| 0 <= k < d.numeral@.len() ==> is_digit(d.numeral@[k]))
            &&& valid_start(name@, d.stem@.len() as int)
            &&& (forall|k: int| d.stem@.len() < k < name@.len() ==> !valid_start(name@, k))
        }),
        r is None ==> forall|k: int| 0 <= k < name@.len() ==> !valid_start(name@, k),
{
    let n = name.len();
    let mut i = n;
    while i > 0
        invariant
            i <= n,
            n == name@.len(),
            forall|k: int| i <= k < n ==> !valid_start(name@, k),
        decreases i,
    {
        let s = i - 1;
        if digit(name[s]) && (s == 0 || !digit(name[s - 1])) {
            let mut j = s + 1;
            proof {
                assert(run_end(name@, s as int) == run_end(name@, s + 1 as int));
            }
            while j < n && digit(name[j])
                invariant
                    s < j <= n,
                    n == name@.len(),
                    forall|k: int| s <= k < j ==> is_digit(name@[k]),
                    run_end(name@, s as int) == run_end(name@, j as int),
                decreases n - j,
            {
                proof {
                    assert(run_end(name@, j as int) == run_end(name@, j + 1 as int));
                }
                j += 1;
            }
            proof {
                assert(run_end(name@, j as int) == j);
            }
            if j == n || name[j] == DOT {
                proof {
                    assert(valid_start(name@, s as int));
                    lemma_find_start_hit(name@, n as int - 1, s as int);
                }
                let stem = copy_range(name, 0, s);
                let numeral = copy_range(name, s, j);
                let ext = copy_range(name, j, n);
                proof {
                    assert(name@.subrange(0, s as int) + name@.subrange(s as int, j as int)
                        + name@.subrange(j as int, n as int) =~= name@);
                }
                return Some(Decomposed { stem, numeral, ext });
            }
            proof {
                assert(!valid_start(name@, s as int));
            }
        }
        i = s;
    }
    proof {
        if n > 0 {
            lemma_find_start_none(name@, n as int - 1);
        }
    }
    None
}

/// Numeric value of a string of decimal digits.
pub open spec fn digits_val(s: Seq<u8>) -> int
    decreases s.len(),
{
    if s.len() == 0 {
        0
    } else {
        digits_val(s.drop_last()) * 10 + (s.last() - ZERO)
    }
}

proof fn lemma_digits_val_nonneg(s: Seq<u8>)
    requires
        forall|i: int| 0 <= i < s.len() ==> is_digit(s[i]),
    ensures
        digits_val(s) >= 0,
    decreases s.len(),
{
    if s.len() > 0 {
        lemma_digits_val_nonneg(s.drop_last());
    }
}

proof fn lemma_digits_val_prefix(s: Seq<u8>, k: int)
    requires
        0 <= k <= s.len(),
        forall|i: int| 0 <= i < s.len() ==> is_digit(s[i]),
    ensures
        0 <= digits_val(s.subrange(0, k)) <= digits_val(s),
    decreases s.len() - k,
{
    if k == s.len() {
        assert(s.subrange(0, k) =~= s);
        lemma_digits_val_nonneg(s);
    } else {
        lemma_digits_val_prefix(s, k + 1);
        assert(s.subrange(0, k + 1).drop_last() =~= s.subrange(0, k));
        assert(forall|i: int| 0 <= i < s.subrange(0, k).len() ==> is_digit(s.subrange(0, k)[i]));
        lemma_digits_val_nonneg(s.subrange(0, k));
    }
}

/// Parse a run of decimal digits as an unsigned integer; `None` when the
/// value does not fit.
pub fn parse_numeral(digits: &Vec<u8>) -> (r: Option<u64>)
    requires
        forall|i: int| 0 <= i < digits@.len() ==> is_digit(digits@[i]),
    ensures
        (r matches Some(v) ==> digits_val(digits@) == v),
        r is None ==> digits_val(digits@) > u64::MAX,
{
    let n = digits.len();
    let mut acc: u64 = 0;
    let mut k: usize = 0;
    while k < n
        invariant
            k <= n,
            n == digits@.len(),
            forall|i: int| 0 <= i < digits@.len() ==> is_digit(digits@[i]),
            acc == digits_val(digits@.subrange(0, k as int)),
        decreases n - k,
    {
        let d = (digits[k] - ZERO) as u64;
        let limit = (u64::MAX - d) / 10;
        proof {
            assert(digits@.subrange(0, k + 1 as int).drop_last() =~= digits@.subrange(0, k as int));
        }
        if acc > limit {
            proof {
                assert(acc * 10 + d > u64::MAX) by (nonlinear_arith)
                    requires
                        acc > (u64::MAX - d) / 10,
                        d <= 9,
                        acc <= u64::MAX,
                ;
                lemma_digits_val_prefix(digits@, k + 1 as int);
            }
            return None;
        }
        proof {
            assert(acc * 10 + d <= u64::MAX) by (nonlinear_arith)
                requires
                    acc <= (u64::MAX - d) / 10,
                    d <= 9,
            ;
        }
        acc = acc * 10 + d;
        k += 1;
    }
    proof {
        assert(digits@.subrange(0, n as int) =~= digits@);
    }
    Some(acc)
}

/// Index of the last `.` of `name` at position 1 or later (a leading `.`
/// marks a hidden name, not an extension), or -1 when there is none.
pub open spec fn last_sep(name: Seq<u8>, i: int) -> int
    decreases i + 1,
{
    if i < 1 || i >= name.len() {
        -1
    } else if name[i] == DOT {
        i
    } else {
        last_sep(name, i - 1)
    }
}

/// The stem/extension split of a name that carries no numeral: the extension
/// begins at the last `.` (never the leading byte), or is empty.
pub open spec fn spec_split_ext(name: Seq<u8>) -> (Seq<u8>, Seq<u8>) {
    let i = last_sep(name, name.len() - 1);
    if i < 0 {
        (name, Seq::<u8>::empty())
    } else {
        (name.subrange(0, i), name.subrange(i, name.len() as int))
    }
}

proof fn lemma_last_sep_hit(name: Seq<u8>, i: int, s: int)
    requires
        1 <= s <= i < name.len(),
        name[s] == DOT,
        forall|k: int| s < k <= i ==> name[k] != DOT,
    ensures
        last_sep(name, i) == s,
    decreases i,
{
    if i > s {
        lemma_last_sep_hit(name, i - 1, s);
    }
}

proof fn lemma_last_sep_none(name: Seq<u8>, i: int)
    requires
        i < name.len(),
        forall|k: int| 1 <= k <= i ==> name[k] != DOT,
    ensures
        last_sep(name, i) == -1,
    decreases i + 1,
{
    if i >= 1 {
        lemma_last_sep_none(name, i - 1);
    }
}

/// Split a name without a numeral into stem and extension.
pub fn split_ext(name: Vec<u8>) -> (r: (Vec<u8>, Vec<u8>))
    ensures
        (r.0@, r.1@) == spec_split_ext(name@),
        r.0@ + r.1@ == name@,
{
    let n = name.len();
    let mut i = n;
    while i > 1
        invariant
            i <= n,
            n == name@.len(),
            forall|k: int| i <= k < n ==> name@[k] != DOT,
        decreases i,
    {
        let s = i - 1;
        if name[s] == DOT {
            proof {
                lemma_last_sep_hit(name@, n as int - 1, s as int);
            }
            let stem = copy_range(&name, 0, s);
            let ext = copy_range(&name, s, n);
            proof {
                assert(name@.subrange(0, s as int) + name@.subrange(s as int, n as int) =~= name@);
            }
            return (stem, ext);
        }
        i = s;
    }
    proof {
        if n > 0 {
            lemma_last_sep_none(name@, n as int - 1);
        }
        assert(name@ + Seq::<u8>::empty() =~= name@);
    }
    (name, Vec::new())
}

} // verus!
