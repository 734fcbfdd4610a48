//! Rendering a group back into one compact path segment, and the derived
//! width of the size column.

use vstd::prelude::*;
use crate::group::{FileGroup, GroupModel, group_wf};
use crate::name::{ZERO, DOT};

verus! {

/// ASCII `'#'`, the marker standing in for a collapsed numeral run.
pub const HASH: u8 = 35;

/// ASCII `' '`.
pub const SPACE: u8 = 32;

/// ASCII `'('`.
pub const LPAREN: u8 = 40;

/// ASCII `')'`.
pub const RPAREN: u8 = 41;

/// Decimal digits of `n`, most significant first, no leading zeros.
pub open spec fn spec_decimal(n: nat) -> Seq<u8>
    decreases n,
{
    if n < 10 {
        seq![(n + ZERO) as u8]
    } else {
        spec_decimal(n / 10).push((n % 10 + ZERO) as u8)
    }
}

/// Render `n` in its canonical decimal form.
pub fn u64_to_decimal(n: u64) -> (r: Vec<u8>)
    ensures
        r@ == spec_decimal(n as nat),
    decreases n,
{
    if n < 10 {
        let mut r: Vec<u8> = Vec::new();
        r.push((n as u8) + ZERO);
        proof {
            assert(r@ =~= seq![((n as nat) + ZERO) as u8]);
        }
        r
    } else {
        let mut r = u64_to_decimal(n / 10);
        r.push(((n % 10) as u8) + ZERO);
        proof {
            assert((n / 10) as nat == (n as nat) / 10);
            assert(((n % 10) as u8) + ZERO == ((n as nat) % 10 + ZERO) as u8);
        }
        r
    }
}

/// The one line a group collapses to: an unchanged name for a raw singleton,
/// the literal numeral for a width-one range, and a `stem#ext (a..b)` span,
/// inclusive at both ends in text, for a wider one.
pub open spec fn spec_render(g: GroupModel) -> Seq<u8> {
    match g.range {
        None => g.stem + g.ext,
        Some(r) => if r.end == r.start + 1 {
            g.stem + spec_decimal(r.start as nat) + g.ext
        } else {
            g.stem + seq![HASH] + g.ext + seq![SPACE, LPAREN] + spec_decimal(r.start as nat)
                + seq![DOT, DOT] + spec_decimal((r.end - 1) as nat) + seq![RPAREN]
        },
    }
}

fn push_all(out: &mut Vec<u8>, src: &Vec<u8>)
    ensures
        final(out)@ == old(out)@ + src@,
{
    let mut k: usize = 0;
    proof {
        assert(out@ + src@.subrange(0, 0) =~= out@);
    }
    while k < src.len()
        invariant
            k <= src@.len(),
            out@ == old(out)@ + src@.subrange(0, k as int),
        decreases src@.len() - k,
    {
        out.push(src[k]);
        proof {
            assert((old(out)@ + src@.subrange(0, k as int)).push(src@[k as int]) =~= old(out)@
                + src@.subrange(0, k + 1 as int));
        }
        k += 1;
    }
    proof {
        assert(src@.subrange(0, src@.len() as int) =~= src@);
    }
}

/// Render the group as its display path segment.
pub fn render(g: &FileGroup) -> (r: Vec<u8>)
    requires
        group_wf(g@),
    ensures
        r@ == spec_render(g@),
{
    let mut out: Vec<u8> = Vec::new();
    proof {
        assert(Seq::<u8>::empty() + g.stem@ =~= g.stem@);
    }
    push_all(&mut out, &g.stem);
    match g.range {
        None => {
            push_all(&mut out, &g.ext);
        },
        Some(nr) => {
            if nr.end - nr.start == 1 {
                let d = u64_to_decimal(nr.start);
                push_all(&mut out, &d);
                push_all(&mut out, &g.ext);
                proof {
                    assert(g.stem@ + spec_decimal(nr.start as nat) + g.ext@ =~= (g.stem@
                        + spec_decimal(nr.start as nat)) + g.ext@);
                }
            } else {
                out.push(HASH);
                proof {
                    assert((g.stem@).push(HASH) =~= g.stem@ + seq![HASH]);
                }
                push_all(&mut out, &g.ext);
                out.push(SPACE);
                out.push(LPAREN);
                let d1 = u64_to_decimal(nr.start);
                push_all(&mut out, &d1);
                out.push(DOT);
                out.push(DOT);
                let d2 = u64_to_decimal(nr.end - 1);
                push_all(&mut out, &d2);
                out.push(RPAREN);
                proof {
                    assert(out@ =~= g.stem@ + seq![HASH] + g.ext@ + seq![SPACE, LPAREN]
                        + spec_decimal(nr.start as nat) + seq![DOT, DOT] + spec_decimal(
                        (nr.end - 1) as nat,
                    ) + seq![RPAREN]);
                }
            }
        },
    }
    out
}

/// The aggregated size a group contributes to the widest-column reckoning:
/// its size, or 0 when unknown.
pub open spec fn size_or_zero(g: GroupModel) -> u64 {
    match g.meta {
        Some(m) => m.size,
        None => 0,
    }
}

/// The largest aggregated size across the result set; 0 when the set is
/// empty or no size is known.
pub fn max_size(groups: &Vec<FileGroup>) -> (r: u64)
    ensures
        forall|i: int| 0 <= i < groups@.len() ==> size_or_zero(groups@[i]@) <= r,
        r == 0 || exists|i: int|
            0 <= i < groups@.len() && size_or_zero(#[trigger] groups@[i]@) == r,
{
    let mut r: u64 = 0;
    let mut i: usize = 0;
    while i < groups.len()
        invariant
            i <= groups@.len(),
            forall|k: int| 0 <= k < i ==> size_or_zero(groups@[k]@) <= r,
            r == 0 || exists|k: int|
                0 <= k < i && size_or_zero(#[trigger] groups@[k]@) == r,
        decreases groups@.len() - i,
    {
        let s = match &groups[i].meta {
            Some(m) => m.size,
            None => 0,
        };
        proof {
            assert(s == size_or_zero(groups@[i as int]@));
        }
        if s > r {
            r = s;
        }
        i += 1;
    }
    r
}

} // verus!
