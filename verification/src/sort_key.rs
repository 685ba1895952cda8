//! The incremental multi-level comparator and the sort-key materialization.
//!
//! Comparison walks both collation-element arrays level by level — all
//! primary weights first, then secondary, tertiary, and, under shifting,
//! quaternary — skipping zero weights, which carry no ordering information;
//! the first level at which the filtered weight sequences differ decides. A
//! sort key lays the same level sequences out in one array, a zero separator
//! between levels, so that plain lexicographic comparison of two keys
//! reproduces the comparator's order.

use vstd::prelude::*;
use core::cmp::Ordering;
use crate::order::{lex3, cmp_u32};
use crate::weights::{spec_level_weight, level_weight};

verus! {

/// The non-zero weights a collation-element array contributes at one level,
/// in order.
pub open spec fn level_seq(cea: Seq<u32>, level: int, shifting: bool) -> Seq<u32>
    decreases cea.len(),
{
    if cea.len() == 0 {
        Seq::empty()
    } else {
        let h = spec_level_weight(cea[0], level, shifting);
        let rest = level_seq(cea.drop_first(), level, shifting);
        if h == 0 {
            rest
        } else {
            seq![h] + rest
        }
    }
}

/// What the incremental comparator decides: the first level at which the
/// two arrays' weight sequences differ, quaternary counting only under
/// shifting.
pub open spec fn spec_compare_incremental(ca: Seq<u32>, cb: Seq<u32>, shifting: bool) -> Ordering {
    let l1 = lex3(level_seq(ca, 1, shifting), level_seq(cb, 1, shifting));
    if l1 != Ordering::Equal {
        l1
    } else {
        let l2 = lex3(level_seq(ca, 2, shifting), level_seq(cb, 2, shifting));
        if l2 != Ordering::Equal {
            l2
        } else {
            let l3 = lex3(level_seq(ca, 3, shifting), level_seq(cb, 3, shifting));
            if l3 != Ordering::Equal {
                l3
            } else if shifting {
                lex3(level_seq(ca, 4, shifting), level_seq(cb, 4, shifting))
            } else {
                Ordering::Equal
            }
        }
    }
}

/// Compares one level of two arrays: the filtered weight sequences,
/// lexicographically.
fn compare_level(a: &Vec<u32>, b: &Vec<u32>, level: u8, shifting: bool) -> (r: Ordering)
    requires
        1 <= level <= 4,
    ensures
        r == lex3(
            level_seq(a@, level as int, shifting),
            level_seq(b@, level as int, shifting),
        ),
{
    let mut i: usize = 0;
    let mut j: usize = 0;
    proof {
        assert(a@.skip(0) =~= a@);
        assert(b@.skip(0) =~= b@);
    }
    loop
        invariant
            i <= a@.len(),
            j <= b@.len(),
            1 <= level <= 4,
            lex3(level_seq(a@, level as int, shifting), level_seq(b@, level as int, shifting))
                == lex3(
                level_seq(a@.skip(i as int), level as int, shifting),
                level_seq(b@.skip(j as int), level as int, shifting),
            ),
        decreases a@.len() - i + b@.len() - j,
    {
        proof {
            if i < a@.len() {
                assert(a@.skip(i as int).drop_first() =~= a@.skip(i as int + 1));
            }
            if j < b@.len() {
                assert(b@.skip(j as int).drop_first() =~= b@.skip(j as int + 1));
            }
        }
        if i < a.len() {
            let wa = level_weight(a[i], level, shifting);
            if wa == 0 {
                i = i + 1;
                continue ;
            }
            if j < b.len() {
                let wb = level_weight(b[j], level, shifting);
                if wb == 0 {
                    j = j + 1;
                    continue ;
                }
                if wa != wb {
                    return cmp_u32(wa, wb);
                }
                proof {
                    let la = level_seq(a@.skip(i as int + 1), level as int, shifting);
                    let lb = level_seq(b@.skip(j as int + 1), level as int, shifting);
                    assert((seq![wa] + la).drop_first() =~= la);
                    assert((seq![wb] + lb).drop_first() =~= lb);
                }
                i = i + 1;
                j = j + 1;
            } else {
                // b is exhausted at this level while a still has a weight
                return Ordering::Greater;
            }
        } else {
            if j < b.len() {
                let wb = level_weight(b[j], level, shifting);
                if wb == 0 {
                    j = j + 1;
                    continue ;
                }
                return Ordering::Less;
            }
            return Ordering::Equal;
        }
    }
}

/// The incremental multi-level comparison of two collation-element arrays.
pub fn compare_incremental(a_cea: &Vec<u32>, b_cea: &Vec<u32>, shifting: bool) -> (r: Ordering)
    ensures
        r == spec_compare_incremental(a_cea@, b_cea@, shifting),
{
    let l1 = compare_level(a_cea, b_cea, 1, shifting);
    if !matches!(l1, Ordering::Equal) {
        return l1;
    }
    let l2 = compare_level(a_cea, b_cea, 2, shifting);
    if !matches!(l2, Ordering::Equal) {
        return l2;
    }
    let l3 = compare_level(a_cea, b_cea, 3, shifting);
    if !matches!(l3, Ordering::Equal) {
        return l3;
    }
    if shifting {
        return compare_level(a_cea, b_cea, 4, shifting);
    }
    Ordering::Equal
}

/// A sequence with its trailing zeros dropped.
pub open spec fn trim_zeros(s: Seq<u32>) -> Seq<u32>
    decreases s.len(),
{
    if s.len() == 0 {
        s
    } else if s.last() != 0 {
        s
    } else {
        trim_zeros(s.drop_last())
    }
}

/// The sort key of a collation-element array: the level sequences laid out
/// in order with a zero separator between them (the quaternary level only
/// under shifting), trailing zeros dropped.
pub open spec fn spec_sort_key(cea: Seq<u32>, shifting: bool) -> Seq<u32> {
    trim_zeros(
        if shifting {
            level_seq(cea, 1, shifting) + seq![0u32] + level_seq(cea, 2, shifting) + seq![0u32]
                + level_seq(cea, 3, shifting) + seq![0u32] + level_seq(cea, 4, shifting)
        } else {
            level_seq(cea, 1, shifting) + seq![0u32] + level_seq(cea, 2, shifting) + seq![0u32]
                + level_seq(cea, 3, shifting)
        },
    )
}

/// Appends one level's non-zero weights to the key buffer.
fn push_level(out: &mut Vec<u32>, cea: &Vec<u32>, level: u8, shifting: bool)
    requires
        1 <= level <= 4,
    ensures
        final(out)@ == old(out)@ + level_seq(cea@, level as int, shifting),
{
    let mut i: usize = 0;
    proof {
        assert(cea@.skip(0) =~= cea@);
        assert(old(out)@ + Seq::<u32>::empty() =~= old(out)@);
    }
    while i < cea.len()
        invariant
            i <= cea@.len(),
            1 <= level <= 4,
            old(out)@ + level_seq(cea@, level as int, shifting) == out@ + level_seq(
                cea@.skip(i as int),
                level as int,
                shifting,
            ),
        decreases cea@.len() - i,
    {
        proof {
            assert(cea@.skip(i as int).drop_first() =~= cea@.skip(i as int + 1));
        }
        let w = level_weight(cea[i], level, shifting);
        if w != 0 {
            out.push(w);
            proof {
                assert(out@ + level_seq(cea@.skip(i as int + 1), level as int, shifting) =~= out@
                    .drop_last() + (seq![w] + level_seq(
                    cea@.skip(i as int + 1),
                    level as int,
                    shifting,
                )));
            }
        }
        i = i + 1;
    }
    proof {
        assert(level_seq(cea@.skip(i as int), level as int, shifting) =~= Seq::<u32>::empty());
        assert(out@ + Seq::<u32>::empty() =~= out@);
    }
}

/// Builds the sort key of a collation-element array.
pub fn build_sort_key(cea: &Vec<u32>, shifting: bool) -> (key: Vec<u32>)
    ensures
        key@ == spec_sort_key(cea@, shifting),
{
    let mut out: Vec<u32> = Vec::new();
    push_level(&mut out, cea, 1, shifting);
    out.push(0);
    push_level(&mut out, cea, 2, shifting);
    out.push(0);
    push_level(&mut out, cea, 3, shifting);
    if shifting {
        out.push(0);
        push_level(&mut out, cea, 4, shifting);
    }
    let ghost full = out@;
    proof {
        if shifting {
            assert(full =~= level_seq(cea@, 1, shifting) + seq![0u32] + level_seq(cea@, 2, shifting)
                + seq![0u32] + level_seq(cea@, 3, shifting) + seq![0u32] + level_seq(
                cea@,
                4,
                shifting,
            ));
        } else {
            assert(full =~= level_seq(cea@, 1, shifting) + seq![0u32] + level_seq(cea@, 2, shifting)
                + seq![0u32] + level_seq(cea@, 3, shifting));
        }
    }
    // drop the trailing zeros
    loop
        invariant
            trim_zeros(full) == trim_zeros(out@),
        ensures
            trim_zeros(full) == trim_zeros(out@),
            out@.len() == 0 || out@.last() != 0,
        decreases out@.len(),
    {
        let n = out.len();
        if n == 0 {
            break ;
        }
        if out[n - 1] != 0 {
            break ;
        }
        proof {
            assert(out@.drop_last() =~= out@.take(n as int - 1));
        }
        out.pop();
        proof {
            assert(out@ =~= out@);
        }
    }
    proof {
        assert(trim_zeros(out@) == out@);
    }
    out
}

} // verus!
