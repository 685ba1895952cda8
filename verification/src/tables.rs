//! Tailoring tables: per-locale weight lookup data.
//!
//! A table pair maps a single codepoint, or a composite two- or
//! three-codepoint key, to a sequence of packed weight records. Tables are
//! built once from a root entry set, optionally merged with an extension
//! entry set whose entries override or add to the root's, and are read-only
//! thereafter. The loading of raw table data into entry lists happens
//! outside the engine; the engine consumes already-decoded entries.

use vstd::prelude::*;
use std::collections::HashMap;
use std::collections::HashSet;
use crate::weights::spec_implied;

verus! {

broadcast use vstd::std_specs::hash::group_hash_axioms;

/// A composite key for a two-codepoint contraction: two 21-bit codepoint
/// fields. Only codepoints below 0x20_0000 can take part in a contraction.
pub open spec fn spec_key2(c1: u32, c2: u32) -> u64 {
    ((c1 as u64) << 21) | (c2 as u64)
}

/// A composite key for a three-codepoint contraction: three 21-bit fields.
pub open spec fn spec_key3(c1: u32, c2: u32, c3: u32) -> u64 {
    ((c1 as u64) << 42) | ((c2 as u64) << 21) | (c3 as u64)
}

/// Whether a codepoint fits a 21-bit composite-key field.
pub open spec fn fits_key(c: u32) -> bool {
    c < 0x20_0000
}

pub fn key2(c1: u32, c2: u32) -> (k: u64)
    ensures
        k == spec_key2(c1, c2),
{
    ((c1 as u64) << 21) | (c2 as u64)
}

pub fn key3(c1: u32, c2: u32, c3: u32) -> (k: u64)
    ensures
        k == spec_key3(c1, c2, c3),
{
    ((c1 as u64) << 42) | ((c2 as u64) << 21) | (c3 as u64)
}

/// The weight lookup data for one tailoring: single-codepoint entries,
/// multi-codepoint (contraction) entries, and the codepoint sets consulted
/// by the prefix finder — variable-weight codepoints and the possible first
/// codepoints of two- and three-codepoint contractions.
pub struct WeightTables {
    pub singles: HashMap<u32, Vec<u32>>,
    pub multis: HashMap<u64, Vec<u32>>,
    pub variable: HashSet<u32>,
    pub need_two: HashSet<u32>,
    pub need_three: HashSet<u32>,
}

impl WeightTables {
    /// The weight-record sequence of a single codepoint: its table entry,
    /// or the algorithmic implied weights when it has none.
    pub open spec fn spec_single(self, c: u32) -> Seq<u32> {
        if self.singles@.contains_key(c) {
            self.singles@[c]@
        } else {
            spec_implied(c)
        }
    }

    /// An empty table set.
    pub fn new() -> (t: Self)
        ensures
            t.singles@ == Map::<u32, Vec<u32>>::empty(),
            t.multis@ == Map::<u64, Vec<u32>>::empty(),
            t.variable@ == Set::<u32>::empty(),
            t.need_two@ == Set::<u32>::empty(),
            t.need_three@ == Set::<u32>::empty(),
    {
        WeightTables {
            singles: HashMap::new(),
            multis: HashMap::new(),
            variable: HashSet::new(),
            need_two: HashSet::new(),
            need_three: HashSet::new(),
        }
    }

    /// Adds or overrides one single-codepoint entry.
    pub fn insert_single(&mut self, c: u32, ws: Vec<u32>)
        ensures
            final(self).singles@ == old(self).singles@.insert(c, ws),
            final(self).multis == old(self).multis,
            final(self).variable == old(self).variable,
            final(self).need_two == old(self).need_two,
            final(self).need_three == old(self).need_three,
    {
        self.singles.insert(c, ws);
    }

    /// Adds or overrides one contraction entry under its composite key.
    pub fn insert_multi(&mut self, k: u64, ws: Vec<u32>)
        ensures
            final(self).multis@ == old(self).multis@.insert(k, ws),
            final(self).singles == old(self).singles,
            final(self).variable == old(self).variable,
            final(self).need_two == old(self).need_two,
            final(self).need_three == old(self).need_three,
    {
        self.multis.insert(k, ws);
    }

    /// Marks a codepoint as carrying variable weights.
    pub fn mark_variable(&mut self, c: u32)
        ensures
            final(self).variable@ == old(self).variable@.insert(c),
            final(self).singles == old(self).singles,
            final(self).multis == old(self).multis,
            final(self).need_two == old(self).need_two,
            final(self).need_three == old(self).need_three,
    {
        self.variable.insert(c);
    }

    /// Marks a codepoint as a possible start of a two-codepoint contraction.
    pub fn mark_need_two(&mut self, c: u32)
        ensures
            final(self).need_two@ == old(self).need_two@.insert(c),
            final(self).singles == old(self).singles,
            final(self).multis == old(self).multis,
            final(self).variable == old(self).variable,
            final(self).need_three == old(self).need_three,
    {
        self.need_two.insert(c);
    }

    /// Marks a codepoint as a possible start of a three-codepoint
    /// contraction.
    pub fn mark_need_three(&mut self, c: u32)
        ensures
            final(self).need_three@ == old(self).need_three@.insert(c),
            final(self).singles == old(self).singles,
            final(self).multis == old(self).multis,
            final(self).variable == old(self).variable,
            final(self).need_two == old(self).need_two,
    {
        self.need_three.insert(c);
    }

    /// Merges an extension entry set over this table: extension entries
    /// override or add to the existing ones, later entries in each list
    /// winning over earlier ones.
    pub fn merge_singles(&mut self, entries: Vec<(u32, Vec<u32>)>)
        ensures
            final(self).singles@ == spec_extend_singles(old(self).singles@, entries@),
            final(self).multis == old(self).multis,
            final(self).variable == old(self).variable,
            final(self).need_two == old(self).need_two,
            final(self).need_three == old(self).need_three,
    {
        let ghost all = entries@;
        let mut entries = entries;
        let n0 = entries.len();
        proof {
            assert(all.len() == n0);
        }
        let mut k: usize = 0;
        while entries.len() > 0
            invariant
                k + entries@.len() == all.len(),
                all.len() <= usize::MAX,
                entries@ == all.skip(k as int),
                self.singles@ == spec_extend_singles(old(self).singles@, all.take(k as int)),
                self.multis == old(self).multis,
                self.variable == old(self).variable,
                self.need_two == old(self).need_two,
                self.need_three == old(self).need_three,
            decreases entries@.len(),
        {
            let e = entries.remove(0);
            proof {
                assert(all.take(k as int + 1).drop_last() =~= all.take(k as int));
                assert(all.take(k as int + 1).last() == all[k as int]);
                assert(all.skip(k as int).remove(0) =~= all.skip(k as int + 1));
            }
            self.singles.insert(e.0, e.1);
            k = k + 1;
        }
        proof {
            assert(all.take(all.len() as int) =~= all);
        }
    }

    /// Merges an extension contraction entry set over this table, the same
    /// way as `merge_singles`.
    pub fn merge_multis(&mut self, entries: Vec<(u64, Vec<u32>)>)
        ensures
            final(self).multis@ == spec_extend_multis(old(self).multis@, entries@),
            final(self).singles == old(self).singles,
            final(self).variable == old(self).variable,
            final(self).need_two == old(self).need_two,
            final(self).need_three == old(self).need_three,
    {
        let ghost all = entries@;
        let mut entries = entries;
        let n0 = entries.len();
        proof {
            assert(all.len() == n0);
        }
        let mut k: usize = 0;
        while entries.len() > 0
            invariant
                k + entries@.len() == all.len(),
                all.len() <= usize::MAX,
                entries@ == all.skip(k as int),
                self.multis@ == spec_extend_multis(old(self).multis@, all.take(k as int)),
                self.singles == old(self).singles,
                self.variable == old(self).variable,
                self.need_two == old(self).need_two,
                self.need_three == old(self).need_three,
            decreases entries@.len(),
        {
            let e = entries.remove(0);
            proof {
                assert(all.take(k as int + 1).drop_last() =~= all.take(k as int));
                assert(all.take(k as int + 1).last() == all[k as int]);
                assert(all.skip(k as int).remove(0) =~= all.skip(k as int + 1));
            }
            self.multis.insert(e.0, e.1);
            k = k + 1;
        }
        proof {
            assert(all.take(all.len() as int) =~= all);
        }
    }
}

/// A map extended by an entry list, later entries winning.
pub open spec fn spec_extend_singles(m: Map<u32, Vec<u32>>, entries: Seq<(u32, Vec<u32>)>) -> Map<
    u32,
    Vec<u32>,
>
    decreases entries.len(),
{
    if entries.len() == 0 {
        m
    } else {
        spec_extend_singles(m, entries.drop_last()).insert(entries.last().0, entries.last().1)
    }
}

/// A contraction map extended by an entry list, later entries winning.
pub open spec fn spec_extend_multis(m: Map<u64, Vec<u32>>, entries: Seq<(u64, Vec<u32>)>) -> Map<
    u64,
    Vec<u32>,
>
    decreases entries.len(),
{
    if entries.len() == 0 {
        m
    } else {
        spec_extend_multis(m, entries.drop_last()).insert(entries.last().0, entries.last().1)
    }
}

/// The canonical normalization data: the canonical-decomposition table and
/// the packed lead/trail combining-class pairs used by the FCD check (lead
/// class in the high byte, trail class in the low byte).
pub struct NormData {
    pub decomp: HashMap<u32, Vec<u32>>,
    pub fcd: HashMap<u32, u16>,
}

impl NormData {
    /// An empty normalization data set.
    pub fn new() -> (d: Self)
        ensures
            d.decomp@ == Map::<u32, Vec<u32>>::empty(),
            d.fcd@ == Map::<u32, u16>::empty(),
    {
        NormData { decomp: HashMap::new(), fcd: HashMap::new() }
    }

    /// Adds or overrides one canonical-decomposition entry.
    pub fn insert_decomp(&mut self, c: u32, rep: Vec<u32>)
        ensures
            final(self).decomp@ == old(self).decomp@.insert(c, rep),
            final(self).fcd == old(self).fcd,
    {
        self.decomp.insert(c, rep);
    }

    /// Adds or overrides one packed lead/trail combining-class pair.
    pub fn insert_fcd(&mut self, c: u32, pair: u16)
        ensures
            final(self).fcd@ == old(self).fcd@.insert(c, pair),
            final(self).decomp == old(self).decomp,
    {
        self.fcd.insert(c, pair);
    }
}

} // verus!
