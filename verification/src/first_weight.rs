//! The first-weight shortcut: before generating full collation-element
//! arrays, tries to decide the ordering from only the first derivable weight
//! record of each remaining suffix — one table lookup per side, no array
//! build. It reports no decision when the first primaries tie or are zero,
//! when either side could start a contraction, or when shifting could demote
//! either first record.

use vstd::prelude::*;
use core::cmp::Ordering;
use crate::order::{cmp3, cmp_u32};
use crate::tables::WeightTables;
use crate::weights::{spec_primary, spec_variable, primary_of, variable_of, implied_first};

verus! {

broadcast use vstd::std_specs::hash::group_hash_axioms;

/// The first weight record derivable for a codepoint from the singles table
/// or the implied weights, `None` when its table entry is empty.
pub open spec fn first_record(t: WeightTables, c: u32) -> Option<u32> {
    if t.spec_single(c).len() == 0 {
        None
    } else {
        Some(t.spec_single(c)[0])
    }
}

/// What the shortcut decides for a pair of non-empty suffixes.
pub open spec fn spec_try_initial(t: WeightTables, a: Seq<u32>, b: Seq<u32>, shifting: bool) -> Option<
    Ordering,
> {
    if a.len() == 0 || b.len() == 0 {
        None
    } else if t.need_two@.contains(a[0]) || t.need_three@.contains(a[0]) || t.need_two@.contains(
        b[0],
    ) || t.need_three@.contains(b[0]) {
        None
    } else {
        let ra = first_record(t, a[0]);
        let rb = first_record(t, b[0]);
        if ra is None || rb is None {
            None
        } else {
            let wa = ra->Some_0;
            let wb = rb->Some_0;
            if shifting && (spec_variable(wa) || spec_variable(wb)) {
                None
            } else if spec_primary(wa) == 0 || spec_primary(wb) == 0 {
                None
            } else if spec_primary(wa) != spec_primary(wb) {
                Some(cmp3(spec_primary(wa) as int, spec_primary(wb) as int))
            } else {
                None
            }
        }
    }
}

/// Looks up the first weight record of one codepoint.
fn first_record_exec(t: &WeightTables, c: u32) -> (r: Option<u32>)
    ensures
        r == first_record(*t, c),
{
    match t.singles.get(&c) {
        Some(ws) => {
            if ws.len() == 0 {
                None
            } else {
                Some(ws[0])
            }
        },
        None => Some(implied_first(c)),
    }
}

/// The shortcut itself: `a` and `b` are the two post-prefix suffixes, taken
/// as the elements of `a_chars` and `b_chars` from `offset` on.
pub fn try_initial(
    t: &WeightTables,
    a_chars: &Vec<u32>,
    b_chars: &Vec<u32>,
    offset: usize,
    shifting: bool,
) -> (r: Option<Ordering>)
    requires
        offset < a_chars@.len(),
        offset < b_chars@.len(),
    ensures
        r == spec_try_initial(
            *t,
            a_chars@.skip(offset as int),
            b_chars@.skip(offset as int),
            shifting,
        ),
{
    let ghost sa = a_chars@.skip(offset as int);
    let ghost sb = b_chars@.skip(offset as int);
    let ca = a_chars[offset];
    let cb = b_chars[offset];
    proof {
        assert(sa[0] == a_chars@[offset as int]);
        assert(sb[0] == b_chars@[offset as int]);
    }
    if t.need_two.contains(&ca) || t.need_three.contains(&ca) || t.need_two.contains(&cb)
        || t.need_three.contains(&cb) {
        return None;
    }
    let ra = first_record_exec(t, ca);
    let rb = first_record_exec(t, cb);
    match (ra, rb) {
        (Some(wa), Some(wb)) => {
            if shifting && (variable_of(wa) || variable_of(wb)) {
                return None;
            }
            let pa = primary_of(wa);
            let pb = primary_of(wb);
            if pa == 0 || pb == 0 {
                return None;
            }
            if pa != pb {
                return Some(cmp_u32(pa, pb));
            }
            None
        },
        _ => None,
    }
}

} // verus!
