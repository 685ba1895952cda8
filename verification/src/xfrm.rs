//! The sort-key builder: produces for one sequence a materialized weight
//! array whose plain lexicographic comparison reproduces the collator's
//! ordering for the same configuration. The byte-keyed entry point lays each
//! weight unit out as two big-endian bytes, which keeps that order.

use vstd::prelude::*;
use crate::ascii::fill;
use crate::cea::{cea_from, generate_cea};
use crate::decode::{utf8_chars_of, utf8_to_codepoints};
use crate::normalize::make_nfd;
use crate::sort_key::{build_sort_key, spec_sort_key};
use crate::tables::{NormData, WeightTables};
use crate::types::Tailoring;

verus! {

/// The sort key of a codepoint sequence under a configuration: the level
/// key of the collation-element array of its normalized form.
pub open spec fn spec_sortkey_u32(
    norm: NormData,
    t: WeightTables,
    shifting: bool,
    s: Seq<u32>,
) -> Seq<u32> {
    spec_sort_key(cea_from(t, norm.spec_nfd(s), 0), shifting)
}

/// A key unit as its two big-endian bytes; every unit fits sixteen bits.
pub open spec fn unit_bytes(u: u32) -> Seq<u8> {
    seq![((u >> 8) & 0xFF) as u8, (u & 0xFF) as u8]
}

/// A key laid out as bytes, two per unit, big-endian.
pub open spec fn key_bytes(s: Seq<u32>) -> Seq<u8>
    decreases s.len(),
{
    if s.len() == 0 {
        Seq::empty()
    } else {
        unit_bytes(s[0]) + key_bytes(s.drop_first())
    }
}

/// A sort-key builder: the same configuration as a collator, plus reusable
/// scratch buffers, which every call overwrites.
pub struct SortKey {
    pub tailoring: Tailoring,
    pub shifting: bool,
    pub tiebreak: bool,
    pub norm: NormData,
    pub tables: WeightTables,
    pub s_chars: Vec<u32>,
    pub s_cea: Vec<u32>,
}

impl SortKey {
    /// Whether two builder states carry the same configuration and tables.
    pub open spec fn same_config(self, other: SortKey) -> bool {
        &&& self.tailoring == other.tailoring
        &&& self.shifting == other.shifting
        &&& self.tiebreak == other.tiebreak
        &&& self.norm == other.norm
        &&& self.tables == other.tables
    }

    /// A sort-key builder for the given configuration and its resolved
    /// tables.
    pub fn new(
        tailoring: Tailoring,
        shifting: bool,
        tiebreak: bool,
        norm: NormData,
        tables: WeightTables,
    ) -> (x: Self)
        ensures
            x.tailoring == tailoring,
            x.shifting == shifting,
            x.tiebreak == tiebreak,
            x.norm == norm,
            x.tables == tables,
    {
        SortKey { tailoring, shifting, tiebreak, norm, tables, s_chars: Vec::new(), s_cea: Vec::new() }
    }

    /// The sort key of one codepoint sequence. An empty input has the empty
    /// key, so the required length reported for it is zero.
    pub fn get_sortkey_u32(&mut self, s: &[u32]) -> (key: Vec<u32>)
        ensures
            key@ == spec_sortkey_u32(old(self).norm, old(self).tables, old(self).shifting, s@),
            final(self).same_config(*old(self)),
    {
        self.s_chars.clear();
        fill(s, &mut self.s_chars);
        proof {
            assert(self.s_chars@ =~= s@);
        }
        make_nfd(&mut self.s_chars, &self.norm);
        generate_cea(&mut self.s_cea, &self.s_chars, &self.tables, 0);
        build_sort_key(&self.s_cea, self.shifting)
    }

    /// The sort key of one byte buffer, decoded as UTF-8, laid out as two
    /// big-endian bytes per weight unit.
    pub fn get_sortkey_u8(&mut self, s: &[u8]) -> (key: Vec<u8>)
        ensures
            key@ == key_bytes(
                spec_sortkey_u32(
                    old(self).norm,
                    old(self).tables,
                    old(self).shifting,
                    utf8_chars_of(s@),
                ),
            ),
            final(self).same_config(*old(self)),
    {
        let cs = utf8_to_codepoints(s);
        let units = self.get_sortkey_u32(cs.as_slice());
        units_to_bytes(&units)
    }
}

/// Lays key units out as bytes, two per unit, big-endian.
pub fn units_to_bytes(units: &Vec<u32>) -> (r: Vec<u8>)
    ensures
        r@ == key_bytes(units@),
{
    let mut out: Vec<u8> = Vec::new();
    let mut i: usize = 0;
    proof {
        assert(units@.skip(0) =~= units@);
        assert(Seq::<u8>::empty() + key_bytes(units@) =~= key_bytes(units@));
    }
    while i < units.len()
        invariant
            i <= units@.len(),
            key_bytes(units@) == out@ + key_bytes(units@.skip(i as int)),
        decreases units@.len() - i,
    {
        proof {
            assert(units@.skip(i as int).drop_first() =~= units@.skip(i as int + 1));
        }
        let u = units[i];
        let ghost prev = out@;
        out.push(((u >> 8) & 0xFF) as u8);
        out.push((u & 0xFF) as u8);
        proof {
            assert(out@ =~= prev + unit_bytes(units@[i as int]));
            assert(prev + (unit_bytes(units@[i as int]) + key_bytes(units@.skip(i as int + 1)))
                =~= (prev + unit_bytes(units@[i as int])) + key_bytes(units@.skip(i as int + 1)));
        }
        i = i + 1;
    }
    proof {
        assert(key_bytes(units@.skip(i as int)) =~= Seq::<u8>::empty());
        assert(out@ + Seq::<u8>::empty() =~= out@);
    }
    out
}

} // verus!
