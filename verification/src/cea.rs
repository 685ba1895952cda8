//! The collation-element generator: walks a normalized codepoint sequence
//! from a starting offset, consulting the tailoring tables — preferring the
//! longest matching contraction anchored at each position — and produces the
//! weight-record array, falling back to the algorithmic implied weights for
//! codepoints absent from the tables.

use vstd::prelude::*;
use crate::tables::{WeightTables, spec_key2, spec_key3, fits_key, key2, key3};
use crate::weights::{spec_implied, implied_first, implied_second};

verus! {

broadcast use vstd::std_specs::hash::group_hash_axioms;

/// Whether a three-codepoint contraction is matched at position `i`.
pub open spec fn match3_at(t: WeightTables, s: Seq<u32>, i: int) -> bool {
    &&& i + 2 < s.len()
    &&& t.need_three@.contains(s[i])
    &&& fits_key(s[i])
    &&& fits_key(s[i + 1])
    &&& fits_key(s[i + 2])
    &&& t.multis@.contains_key(spec_key3(s[i], s[i + 1], s[i + 2]))
}

/// Whether a two-codepoint contraction is matched at position `i` (tried
/// only after the three-codepoint match fails).
pub open spec fn match2_at(t: WeightTables, s: Seq<u32>, i: int) -> bool {
    &&& i + 1 < s.len()
    &&& t.need_two@.contains(s[i])
    &&& fits_key(s[i])
    &&& fits_key(s[i + 1])
    &&& t.multis@.contains_key(spec_key2(s[i], s[i + 1]))
}

/// The collation-element array generated from position `i` on: at each
/// position the longest matching contraction wins, then the single-codepoint
/// entry, then the implied weights.
pub open spec fn cea_from(t: WeightTables, s: Seq<u32>, i: int) -> Seq<u32>
    decreases s.len() - i,
{
    if i < 0 || i >= s.len() {
        Seq::empty()
    } else if match3_at(t, s, i) {
        t.multis@[spec_key3(s[i], s[i + 1], s[i + 2])]@ + cea_from(t, s, i + 3)
    } else if match2_at(t, s, i) {
        t.multis@[spec_key2(s[i], s[i + 1])]@ + cea_from(t, s, i + 2)
    } else {
        t.spec_single(s[i]) + cea_from(t, s, i + 1)
    }
}

/// Fills the weight-record buffer with the collation-element array of the
/// sequence from `offset` on, overwriting the buffer's previous contents.
pub fn generate_cea(cea: &mut Vec<u32>, chars: &Vec<u32>, t: &WeightTables, offset: usize)
    requires
        offset <= chars@.len(),
    ensures
        final(cea)@ == cea_from(*t, chars@, offset as int),
{
    cea.clear();
    let mut i: usize = offset;
    let n = chars.len();
    while i < n
        invariant
            offset <= i <= n,
            n == chars@.len(),
            cea_from(*t, chars@, offset as int) == cea@ + cea_from(*t, chars@, i as int),
        decreases n - i,
    {
        let c = chars[i];
        let ghost prev = cea@;
        let ghost i0 = i as int;
        let mut matched: bool = false;
        if n - i > 2 && c < 0x20_0000 && chars[i + 1] < 0x20_0000 && chars[i + 2] < 0x20_0000
            && t.need_three.contains(&c) {
            let k = key3(c, chars[i + 1], chars[i + 2]);
            match t.multis.get(&k) {
                Some(ws) => {
                    cea.extend_from_slice(ws.as_slice());
                    proof {
                        assert(match3_at(*t, chars@, i0));
                        assert(ws@ == t.multis@[spec_key3(
                            chars@[i0],
                            chars@[i0 + 1],
                            chars@[i0 + 2],
                        )]@);
                        assert(prev + (ws@ + cea_from(*t, chars@, i0 + 3)) =~= (prev + ws@)
                            + cea_from(*t, chars@, i0 + 3));
                    }
                    i = i + 3;
                    matched = true;
                },
                None => {
                },
            }
        }
        if !matched && n - i > 1 && c < 0x20_0000 && chars[i + 1] < 0x20_0000 && t.need_two.contains(
            &c,
        ) {
            let k = key2(c, chars[i + 1]);
            match t.multis.get(&k) {
                Some(ws) => {
                    cea.extend_from_slice(ws.as_slice());
                    proof {
                        assert(!match3_at(*t, chars@, i0));
                        assert(match2_at(*t, chars@, i0));
                        assert(ws@ == t.multis@[spec_key2(chars@[i0], chars@[i0 + 1])]@);
                        assert(prev + (ws@ + cea_from(*t, chars@, i0 + 2)) =~= (prev + ws@)
                            + cea_from(*t, chars@, i0 + 2));
                    }
                    i = i + 2;
                    matched = true;
                },
                None => {
                },
            }
        }
        if !matched {
            proof {
                assert(!match3_at(*t, chars@, i0));
                assert(!match2_at(*t, chars@, i0));
            }
            match t.singles.get(&c) {
                Some(ws) => {
                    cea.extend_from_slice(ws.as_slice());
                    proof {
                        assert(ws@ == t.spec_single(chars@[i0]));
                        assert(prev + (ws@ + cea_from(*t, chars@, i0 + 1)) =~= (prev + ws@)
                            + cea_from(*t, chars@, i0 + 1));
                    }
                },
                None => {
                    cea.push(implied_first(c));
                    cea.push(implied_second(c));
                    proof {
                        assert(cea@ =~= prev + spec_implied(c));
                        assert(spec_implied(c) == t.spec_single(chars@[i0]));
                        assert(prev + (spec_implied(c) + cea_from(*t, chars@, i0 + 1)) =~= (prev
                            + spec_implied(c)) + cea_from(*t, chars@, i0 + 1));
                    }
                },
            }
            i = i + 1;
        }
        proof {
            assert(cea_from(*t, chars@, offset as int) == cea@ + cea_from(*t, chars@, i as int));
        }
    }
    proof {
        assert(cea_from(*t, chars@, i as int) =~= Seq::<u32>::empty());
        assert(cea@ + Seq::<u32>::empty() =~= cea@);
    }
}

} // verus!
