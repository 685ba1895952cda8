//! The collator: orchestrates one comparison call as a chain of states —
//! identity check, fast-path scan, normalization, canonical-equality
//! shortcut (with an optional raw-codepoint tie-break), common-prefix skip,
//! empty-suffix shortcut, first-weight shortcut, and finally full
//! collation-element generation with incremental multi-level comparison.

use vstd::prelude::*;
use core::cmp::Ordering;
use crate::ascii::{fill_and_check, spec_fastpath};
use crate::cea::{cea_from, generate_cea};
use crate::decode::{utf8_chars_of, utf8_to_codepoints};
use crate::first_weight::{spec_try_initial, try_initial};
use crate::normalize::make_nfd;
use crate::order::{cmp3, cmp_usize, lex3, lex_compare_u32, seq_equal_u32, seq_equal_u8};
use crate::prefix::{find_prefix, spec_find_prefix};
use crate::sort_key::{compare_incremental, spec_compare_incremental};
use crate::tables::{NormData, WeightTables};
use crate::types::Tailoring;

verus! {

/// What one comparison returns, after the identity check: the fast-path
/// decision if there is one; equality of the normalized forms, resolved by
/// the raw-codepoint tie-break when enabled; the total-length order when the
/// common prefix swallows either side whole; the first-weight decision if
/// there is one; else the incremental comparison of the two
/// collation-element arrays, a tie again falling to the raw-codepoint
/// tie-break when enabled.
pub open spec fn spec_collate_distinct(
    norm: NormData,
    t: WeightTables,
    shifting: bool,
    tiebreak: bool,
    a: Seq<u32>,
    b: Seq<u32>,
) -> Ordering {
    if spec_fastpath(a, b) is Some {
        spec_fastpath(a, b)->Some_0
    } else {
        let na = norm.spec_nfd(a);
        let nb = norm.spec_nfd(b);
        if na == nb {
            if tiebreak {
                lex3(a, b)
            } else {
                Ordering::Equal
            }
        } else {
            let off = spec_find_prefix(na, nb, t, shifting);
            if na.len() == off || nb.len() == off {
                cmp3(na.len() as int, nb.len() as int)
            } else if spec_try_initial(t, na.skip(off), nb.skip(off), shifting) is Some {
                spec_try_initial(t, na.skip(off), nb.skip(off), shifting)->Some_0
            } else {
                let r = spec_compare_incremental(
                    cea_from(t, na, off),
                    cea_from(t, nb, off),
                    shifting,
                );
                if r == Ordering::Equal && tiebreak {
                    lex3(a, b)
                } else {
                    r
                }
            }
        }
    }
}

/// What one comparison returns: byte-identical inputs are equal without any
/// further work.
pub open spec fn spec_collate(
    norm: NormData,
    t: WeightTables,
    shifting: bool,
    tiebreak: bool,
    a: Seq<u32>,
    b: Seq<u32>,
) -> Ordering {
    if a == b {
        Ordering::Equal
    } else {
        spec_collate_distinct(norm, t, shifting, tiebreak, a, b)
    }
}

/// A collator: the configuration fixed at construction — tailoring selector,
/// shifting policy, tie-break policy, and the tables resolved for that
/// tailoring — plus reusable scratch buffers. The scratch buffers are
/// overwritten by every call, so one instance must not serve two concurrent
/// comparisons.
pub struct Collator {
    pub tailoring: Tailoring,
    pub shifting: bool,
    pub tiebreak: bool,
    pub norm: NormData,
    pub tables: WeightTables,
    pub a_chars: Vec<u32>,
    pub b_chars: Vec<u32>,
    pub a_cea: Vec<u32>,
    pub b_cea: Vec<u32>,
}

impl Collator {
    /// Whether two collator states carry the same configuration and tables.
    pub open spec fn same_config(self, other: Collator) -> bool {
        &&& self.tailoring == other.tailoring
        &&& self.shifting == other.shifting
        &&& self.tiebreak == other.tiebreak
        &&& self.norm == other.norm
        &&& self.tables == other.tables
    }

    /// A collator for the given configuration and its resolved tables.
    pub fn new(
        tailoring: Tailoring,
        shifting: bool,
        tiebreak: bool,
        norm: NormData,
        tables: WeightTables,
    ) -> (c: Self)
        ensures
            c.tailoring == tailoring,
            c.shifting == shifting,
            c.tiebreak == tiebreak,
            c.norm == norm,
            c.tables == tables,
    {
        Collator {
            tailoring,
            shifting,
            tiebreak,
            norm,
            tables,
            a_chars: Vec::new(),
            b_chars: Vec::new(),
            a_cea: Vec::new(),
            b_cea: Vec::new(),
        }
    }

    /// One comparison of two distinct sequences.
    fn collate_inner(&mut self, a: &[u32], b: &[u32]) -> (r: Ordering)
        ensures
            r == spec_collate_distinct(
                old(self).norm,
                old(self).tables,
                old(self).shifting,
                old(self).tiebreak,
                a@,
                b@,
            ),
            final(self).same_config(*old(self)),
    {
        self.a_chars.clear();
        self.b_chars.clear();
        let fp = fill_and_check(a, b, &mut self.a_chars, &mut self.b_chars);
        if let Some(o) = fp {
            return o;
        }
        proof {
            assert(self.a_chars@ =~= a@);
            assert(self.b_chars@ =~= b@);
        }
        make_nfd(&mut self.a_chars, &self.norm);
        make_nfd(&mut self.b_chars, &self.norm);
        if seq_equal_u32(self.a_chars.as_slice(), self.b_chars.as_slice()) {
            if self.tiebreak {
                return lex_compare_u32(a, b);
            }
            return Ordering::Equal;
        }
        let offset = find_prefix(&self.a_chars, &self.b_chars, self.shifting, &self.tables);
        if self.a_chars.len() == offset || self.b_chars.len() == offset {
            return cmp_usize(self.a_chars.len(), self.b_chars.len());
        }
        if let Some(o) = try_initial(
            &self.tables,
            &self.a_chars,
            &self.b_chars,
            offset,
            self.shifting,
        ) {
            return o;
        }
        generate_cea(&mut self.a_cea, &self.a_chars, &self.tables, offset);
        generate_cea(&mut self.b_cea, &self.b_chars, &self.tables, offset);
        let comparison = compare_incremental(&self.a_cea, &self.b_cea, self.shifting);
        if matches!(comparison, Ordering::Equal) && self.tiebreak {
            return lex_compare_u32(a, b);
        }
        comparison
    }

    /// Compares two codepoint sequences under this collator's configuration.
    pub fn collate_u32(&mut self, a: &[u32], b: &[u32]) -> (r: Ordering)
        ensures
            r == spec_collate(
                old(self).norm,
                old(self).tables,
                old(self).shifting,
                old(self).tiebreak,
                a@,
                b@,
            ),
            a@ == b@ ==> r == Ordering::Equal,
            final(self).same_config(*old(self)),
    {
        if seq_equal_u32(a, b) {
            return Ordering::Equal;
        }
        self.collate_inner(a, b)
    }

    /// Compares two byte buffers, decoded as UTF-8, under this collator's
    /// configuration.
    pub fn collate_u8(&mut self, a: &[u8], b: &[u8]) -> (r: Ordering)
        ensures
            r == (if a@ == b@ {
                Ordering::Equal
            } else {
                spec_collate(
                    old(self).norm,
                    old(self).tables,
                    old(self).shifting,
                    old(self).tiebreak,
                    utf8_chars_of(a@),
                    utf8_chars_of(b@),
                )
            }),
            final(self).same_config(*old(self)),
    {
        if seq_equal_u8(a, b) {
            return Ordering::Equal;
        }
        let ac = utf8_to_codepoints(a);
        let bc = utf8_to_codepoints(b);
        self.collate_u32(ac.as_slice(), bc.as_slice())
    }
}

} // verus!
