//! The common-prefix finder: the length of the longest shared prefix of two
//! normalized sequences that the comparison may skip entirely. Codepoints
//! that could start a contraction stop the scan, and the scan backs off
//! before a trailing variable-weight codepoint (or gives the prefix up
//! entirely when two adjacent variable-weight codepoints end it) so that the
//! shifting policy still sees them.

use vstd::prelude::*;
use crate::tables::WeightTables;

verus! {

broadcast use vstd::std_specs::hash::group_hash_axioms;

/// The raw matching-prefix length from position `i`: codepoints match while
/// they are identical and cannot start a two- or three-codepoint
/// contraction.
pub open spec fn pref_len(a: Seq<u32>, b: Seq<u32>, t: WeightTables, i: int) -> int
    decreases a.len() - i,
{
    if i < 0 || i >= a.len() || i >= b.len() {
        i
    } else if a[i] == b[i] && !t.need_two@.contains(a[i]) && !t.need_three@.contains(a[i]) {
        pref_len(a, b, t, i + 1)
    } else {
        i
    }
}

/// The safe skippable prefix length: the raw matching prefix, backed off by
/// one position when it ends in a variable-weight codepoint under shifting,
/// and given up entirely when two adjacent variable-weight codepoints end it
/// or the single matched codepoint is variable.
pub open spec fn spec_find_prefix(a: Seq<u32>, b: Seq<u32>, t: WeightTables, shifting: bool) -> int {
    let n = pref_len(a, b, t, 0);
    if n > 0 {
        if shifting && t.variable@.contains(a[n - 1]) {
            if n > 1 {
                if t.variable@.contains(a[n - 2]) {
                    0
                } else {
                    n - 1
                }
            } else {
                0
            }
        } else {
            n
        }
    } else {
        0
    }
}

/// The raw prefix length lies between `i` and both sequence lengths.
pub proof fn lemma_pref_len_bounds(a: Seq<u32>, b: Seq<u32>, t: WeightTables, i: int)
    requires
        0 <= i <= a.len(),
        i <= b.len(),
    ensures
        i <= pref_len(a, b, t, i),
        pref_len(a, b, t, i) <= a.len(),
        pref_len(a, b, t, i) <= b.len(),
    decreases a.len() - i,
{
    if i < a.len() && i < b.len() && a[i] == b[i] && !t.need_two@.contains(a[i])
        && !t.need_three@.contains(a[i]) {
        lemma_pref_len_bounds(a, b, t, i + 1);
    }
}

pub fn find_prefix(a: &Vec<u32>, b: &Vec<u32>, shifting: bool, t: &WeightTables) -> (r: usize)
    ensures
        r == spec_find_prefix(a@, b@, *t, shifting),
        r <= a@.len(),
        r <= b@.len(),
{
    let mut n: usize = 0;
    loop
        invariant
            n <= a@.len(),
            n <= b@.len(),
            pref_len(a@, b@, *t, 0) == pref_len(a@, b@, *t, n as int),
        ensures
            pref_len(a@, b@, *t, 0) == n as int,
        decreases a@.len() - n,
    {
        if n >= a.len() || n >= b.len() {
            break ;
        }
        let c = a[n];
        if c != b[n] {
            break ;
        }
        if t.need_two.contains(&c) || t.need_three.contains(&c) {
            break ;
        }
        n = n + 1;
    }
    proof {
        lemma_pref_len_bounds(a@, b@, *t, 0);
    }
    if n > 0 {
        if shifting && t.variable.contains(&a[n - 1]) {
            if n > 1 {
                if t.variable.contains(&a[n - 2]) {
                    return 0;
                }
                return n - 1;
            }
            return 0;
        }
        return n;
    }
    0
}

} // verus!
