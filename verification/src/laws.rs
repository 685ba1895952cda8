//! The properties the engine is accountable for, stated over the spec
//! functions its contracts use and proved here once and for all.

use vstd::prelude::*;
use core::cmp::Ordering;
use crate::ascii::{spec_alnum, spec_fold, fastpath_from, spec_fastpath};
use crate::cea::{cea_from, match2_at, match3_at};
use crate::first_weight::spec_try_initial;
use crate::normalize::{bubble, bubble_pass, ccc, decomp_seq, decomp_unit, lemma_bubble_len,
    lemma_bubble_pass_frame, lemma_decomp_seq_concat, is_hangul_syllable, spec_fcd,
    swap_adj, spec_reorder};
use crate::collate::spec_collate;
use crate::xfrm::spec_sortkey_u32;
use crate::order::{cmp3, lex3, rev3, lemma_lex3_antisymmetric, lemma_lex3_equal,
    lemma_lex3_transitive};
use crate::sort_key::{level_seq, spec_compare_incremental, spec_sort_key, trim_zeros};
use crate::tables::{NormData, WeightTables, spec_key2, fits_key};
use crate::weights::{spec_level_weight, spec_primary, spec_variable};

verus! {

/// The comparator reports `Equal` on identical inputs without consulting
/// anything else: the identity check is the first state of a comparison.
pub proof fn lemma_collate_reflexive(
    norm: NormData,
    t: WeightTables,
    shifting: bool,
    tiebreak: bool,
    a: Seq<u32>,
)
    ensures
        spec_collate(norm, t, shifting, tiebreak, a, a) == Ordering::Equal,
{
}

/// A defined contraction produces exactly its one table entry for the
/// matched pair, not two independent single-codepoint entries.
pub proof fn lemma_contraction_single_record(t: WeightTables, c1: u32, c2: u32)
    requires
        t.need_two@.contains(c1),
        fits_key(c1),
        fits_key(c2),
        t.multis@.contains_key(spec_key2(c1, c2)),
        !t.need_three@.contains(c1),
    ensures
        cea_from(t, seq![c1, c2], 0) == t.multis@[spec_key2(c1, c2)]@,
{
    let s = seq![c1, c2];
    assert(s[0] == c1 && s[1] == c2);
    assert(match2_at(t, s, 0));
    assert(cea_from(t, s, 2) =~= Seq::<u32>::empty());
    assert(t.multis@[spec_key2(c1, c2)]@ + Seq::<u32>::empty() =~= t.multis@[spec_key2(c1, c2)]@);
}

// ---------------------------------------------------------------------------
// The incremental comparator orders collation-element arrays like a total
// order: it is reflexive, antisymmetric and transitive.
// ---------------------------------------------------------------------------

/// The incremental comparator reports `Equal` of an array and itself.
pub proof fn lemma_incremental_reflexive(ca: Seq<u32>, shifting: bool)
    ensures
        spec_compare_incremental(ca, ca, shifting) == Ordering::Equal,
{
    lemma_lex3_equal(level_seq(ca, 1, shifting), level_seq(ca, 1, shifting));
    lemma_lex3_equal(level_seq(ca, 2, shifting), level_seq(ca, 2, shifting));
    lemma_lex3_equal(level_seq(ca, 3, shifting), level_seq(ca, 3, shifting));
    lemma_lex3_equal(level_seq(ca, 4, shifting), level_seq(ca, 4, shifting));
}

/// Swapping the two arrays reverses the incremental comparison.
pub proof fn lemma_incremental_antisymmetric(ca: Seq<u32>, cb: Seq<u32>, shifting: bool)
    ensures
        spec_compare_incremental(cb, ca, shifting) == rev3(
            spec_compare_incremental(ca, cb, shifting),
        ),
{
    lemma_lex3_antisymmetric(level_seq(ca, 1, shifting), level_seq(cb, 1, shifting));
    lemma_lex3_antisymmetric(level_seq(ca, 2, shifting), level_seq(cb, 2, shifting));
    lemma_lex3_antisymmetric(level_seq(ca, 3, shifting), level_seq(cb, 3, shifting));
    lemma_lex3_antisymmetric(level_seq(ca, 4, shifting), level_seq(cb, 4, shifting));
}

/// The incremental comparison is transitive.
pub proof fn lemma_incremental_transitive(ca: Seq<u32>, cb: Seq<u32>, cc: Seq<u32>, shifting: bool)
    requires
        spec_compare_incremental(ca, cb, shifting) != Ordering::Greater,
        spec_compare_incremental(cb, cc, shifting) != Ordering::Greater,
    ensures
        spec_compare_incremental(ca, cc, shifting) != Ordering::Greater,
        spec_compare_incremental(ca, cb, shifting) == Ordering::Less || spec_compare_incremental(
            cb,
            cc,
            shifting,
        ) == Ordering::Less ==> spec_compare_incremental(ca, cc, shifting) == Ordering::Less,
{
    lemma_sortkey_consistent(ca, cb, shifting);
    lemma_sortkey_consistent(cb, cc, shifting);
    lemma_sortkey_consistent(ca, cc, shifting);
    let ka = spec_sort_key(ca, shifting);
    let kb = spec_sort_key(cb, shifting);
    let kc = spec_sort_key(cc, shifting);
    lemma_lex3_antisymmetric(ka, kb);
    lemma_lex3_antisymmetric(kb, kc);
    lemma_lex3_antisymmetric(ka, kc);
    lemma_lex3_transitive(ka, kb, kc);
}

// ---------------------------------------------------------------------------
// Sort-key/comparator consistency: comparing two sort keys built under one
// configuration lexicographically gives exactly what the incremental
// comparator decides for the two collation-element arrays.
// ---------------------------------------------------------------------------

/// How many zeros a sequence holds.
pub open spec fn count0(s: Seq<u32>) -> int
    decreases s.len(),
{
    if s.len() == 0 {
        0
    } else {
        (if s.last() == 0 {
            1int
        } else {
            0int
        }) + count0(s.drop_last())
    }
}

/// Whether a sequence holds no zeros.
pub open spec fn all_nonzero(s: Seq<u32>) -> bool {
    forall|j: int| 0 <= j < s.len() ==> s[j] != 0
}

/// Whether a sequence holds only zeros.
pub open spec fn all_zero(s: Seq<u32>) -> bool {
    forall|j: int| 0 <= j < s.len() ==> s[j] == 0
}

/// The level sequences a sort key is made of hold no zeros.
pub proof fn lemma_level_seq_nonzero(cea: Seq<u32>, level: int, shifting: bool)
    ensures
        all_nonzero(level_seq(cea, level, shifting)),
    decreases cea.len(),
{
    if cea.len() != 0 {
        lemma_level_seq_nonzero(cea.drop_first(), level, shifting);
        let h = spec_level_weight(cea[0], level, shifting);
        if h != 0 {
            let rest = level_seq(cea.drop_first(), level, shifting);
            assert forall|j: int|
                0 <= j < level_seq(cea, level, shifting).len() implies level_seq(
                cea,
                level,
                shifting,
            )[j] != 0 by {
                if j > 0 {
                    assert(level_seq(cea, level, shifting)[j] == rest[j - 1]);
                }
            }
        }
    }
}

/// Counting zeros distributes over concatenation.
pub proof fn lemma_count0_concat(a: Seq<u32>, b: Seq<u32>)
    ensures
        count0(a + b) == count0(a) + count0(b),
    decreases b.len(),
{
    if b.len() == 0 {
        assert(a + b =~= a);
    } else {
        assert((a + b).drop_last() =~= a + b.drop_last());
        assert((a + b).last() == b.last());
        lemma_count0_concat(a, b.drop_last());
    }
}

/// A sequence without zeros counts none.
pub proof fn lemma_count0_nonzero(s: Seq<u32>)
    requires
        all_nonzero(s),
    ensures
        count0(s) == 0,
    decreases s.len(),
{
    if s.len() != 0 {
        lemma_count0_nonzero(s.drop_last());
    }
}

/// What trimming leaves: a prefix of the sequence, everything beyond it
/// zero, and the prefix empty or ending in a non-zero.
pub proof fn lemma_trim_shape(s: Seq<u32>)
    ensures
        trim_zeros(s).len() <= s.len(),
        trim_zeros(s) == s.take(trim_zeros(s).len() as int),
        forall|j: int| trim_zeros(s).len() <= j < s.len() ==> s[j] == 0,
        trim_zeros(s).len() == 0 || trim_zeros(s).last() != 0,
        count0(s) == count0(trim_zeros(s)) + s.len() - trim_zeros(s).len(),
    decreases s.len(),
{
    if s.len() != 0 && s.last() == 0 {
        lemma_trim_shape(s.drop_last());
        assert(s.drop_last() =~= s.take(s.len() - 1));
        assert(s.take(trim_zeros(s).len() as int) =~= s.drop_last().take(
            trim_zeros(s).len() as int,
        ));
        assert forall|j: int| trim_zeros(s).len() <= j < s.len() implies s[j] == 0 by {
            if j < s.len() - 1 {
                assert(s.drop_last()[j] == s[j]);
                assert(s.drop_last()[j] == 0);
            }
        }
    }
}

/// Equal prefixes can be skipped in a lexicographic comparison.
pub proof fn lemma_lex3_skip(x: Seq<u32>, y: Seq<u32>, i: int)
    requires
        0 <= i <= x.len(),
        i <= y.len(),
        x.take(i) == y.take(i),
    ensures
        lex3(x, y) == lex3(x.skip(i), y.skip(i)),
    decreases i,
{
    if i == 0 {
        assert(x.skip(0) =~= x);
        assert(y.skip(0) =~= y);
    } else {
        assert(x.take(i)[0] == x[0] && y.take(i)[0] == y[0]);
        assert(x[0] == y[0]);
        if x.len() == 0 {
        } else {
            let tx = x.drop_first().take(i - 1);
            let ty = y.drop_first().take(i - 1);
            assert(tx =~= ty) by {
                assert forall|j: int| 0 <= j < tx.len() implies #[trigger] tx[j] == ty[j] by {
                    assert(tx[j] == x.drop_first()[j]);
                    assert(x.drop_first()[j] == x[j + 1]);
                    assert(ty[j] == y.drop_first()[j]);
                    assert(y.drop_first()[j] == y[j + 1]);
                    assert(x.take(i)[j + 1] == x[j + 1]);
                    assert(y.take(i)[j + 1] == y[j + 1]);
                }
            }
            lemma_lex3_skip(x.drop_first(), y.drop_first(), i - 1);
            assert(x.drop_first().skip(i - 1) =~= x.skip(i));
            assert(y.drop_first().skip(i - 1) =~= y.skip(i));
        }
    }
}

/// The first position where two distinct sequences part: both agree before
/// it, and at it they differ or one of them ends.
pub proof fn lemma_first_diff(x: Seq<u32>, y: Seq<u32>) -> (i: int)
    requires
        x != y,
    ensures
        0 <= i <= x.len(),
        i <= y.len(),
        x.take(i) == y.take(i),
        (i < x.len() && i < y.len() && x[i] != y[i]) || (i == x.len() && i < y.len()) || (i
            == y.len() && i < x.len()),
    decreases x.len(),
{
    if x.len() == 0 || y.len() == 0 {
        assert(x.len() != y.len()) by {
            if x.len() == y.len() {
                assert(x =~= y);
            }
        }
        assert(x.take(0) =~= y.take(0));
        0
    } else if x[0] != y[0] {
        assert(x.take(0) =~= y.take(0));
        0
    } else {
        assert(x.drop_first() != y.drop_first()) by {
            if x.drop_first() == y.drop_first() {
                assert(x =~= seq![x[0]] + x.drop_first());
                assert(y =~= seq![y[0]] + y.drop_first());
            }
        }
        let j = lemma_first_diff(x.drop_first(), y.drop_first());
        let tx = x.take(j + 1);
        let ty = y.take(j + 1);
        assert(tx =~= ty) by {
            assert forall|k: int| 0 <= k < tx.len() implies #[trigger] tx[k] == ty[k] by {
                if k > 0 {
                    assert(x.drop_first().take(j)[k - 1] == y.drop_first().take(j)[k - 1]);
                }
            }
        }
        assert(j < x.drop_first().len() && j < y.drop_first().len() ==> (x[j + 1]
            == x.drop_first()[j] && y[j + 1] == y.drop_first()[j]));
        j + 1
    }
}

/// A sequence of zeros orders strictly before any strictly longer sequence.
pub proof fn lemma_zeros_before_longer(z: Seq<u32>, w: Seq<u32>)
    requires
        all_zero(z),
        w.len() > z.len(),
    ensures
        lex3(z, w) == Ordering::Less,
    decreases z.len(),
{
    if z.len() != 0 {
        if w[0] == 0 {
            lemma_zeros_before_longer(z.drop_first(), w.drop_first());
        }
    }
}

/// Trimming trailing zeros from two sequences holding equally many zeros
/// leaves their lexicographic order unchanged.
pub proof fn lemma_trim_lex(u: Seq<u32>, v: Seq<u32>)
    requires
        count0(u) == count0(v),
    ensures
        lex3(trim_zeros(u), trim_zeros(v)) == lex3(u, v),
{
    let tu = trim_zeros(u);
    let tv = trim_zeros(v);
    lemma_trim_shape(u);
    lemma_trim_shape(v);
    if tu == tv {
        // equal zero counts force equal padding, so the sequences are equal
        assert(u.len() == v.len());
        assert(u =~= v) by {
            assert forall|j: int| 0 <= j < u.len() implies u[j] == v[j] by {
                if j < tu.len() {
                    assert(u[j] == tu[j] && v[j] == tv[j]);
                }
            }
        }
        lemma_lex3_equal(tu, tv);
        lemma_lex3_equal(u, v);
    } else {
        let i = lemma_first_diff(tu, tv);
        if i < tu.len() && i < tv.len() {
            // a genuine difference inside both trimmed prefixes decides both
            // comparisons identically
            assert(u.take(i) =~= v.take(i)) by {
                assert forall|j: int| 0 <= j < i implies u[j] == v[j] by {
                    assert(tu.take(i)[j] == tv.take(i)[j]);
                    assert(u[j] == tu[j] && v[j] == tv[j]);
                }
            }
            lemma_lex3_skip(u, v, i);
            lemma_lex3_skip(tu, tv, i);
            assert(u[i] == tu[i] && v[i] == tv[i]);
            assert(lex3(u.skip(i), v.skip(i)) == cmp3(u[i] as int, v[i] as int));
            assert(lex3(tu.skip(i), tv.skip(i)) == cmp3(tu[i] as int, tv[i] as int));
        } else if i == tu.len() {
            // tu is a strict prefix of tv: the left side runs out of
            // non-zero content first on both sides
            lemma_trim_prefix_case(u, v, i);
        } else {
            lemma_trim_prefix_case(v, u, i);
            lemma_lex3_antisymmetric(u, v);
            lemma_lex3_antisymmetric(tu, tv);
        }
    }
}

/// The prefix case of `lemma_trim_lex`: the first sequence's trimmed form is
/// a strict prefix of the second's, so both the raw and the trimmed
/// comparisons report `Less`.
proof fn lemma_trim_prefix_case(u: Seq<u32>, v: Seq<u32>, i: int)
    requires
        count0(u) == count0(v),
        i == trim_zeros(u).len(),
        i < trim_zeros(v).len(),
        trim_zeros(u).take(i) == trim_zeros(v).take(i),
    ensures
        lex3(u, v) == Ordering::Less,
        lex3(trim_zeros(u), trim_zeros(v)) == Ordering::Less,
{
    let tu = trim_zeros(u);
    let tv = trim_zeros(v);
    lemma_trim_shape(u);
    lemma_trim_shape(v);
    // trimmed comparison: tu is a strict prefix of tv
    assert(tu.take(i) =~= tu);
    lemma_lex3_skip(tu, tv, i);
    assert(tu.skip(i) =~= Seq::<u32>::empty());
    assert(tv.skip(i).len() > 0);
    // raw comparison: after the shared prefix, u holds only zeros while v
    // still holds more content than u has left
    assert(u.take(i) =~= v.take(i)) by {
        assert forall|j: int| 0 <= j < i implies u[j] == v[j] by {
            assert(tu.take(i)[j] == tv.take(i)[j]);
            assert(u[j] == tu[j] && v[j] == tv[j]);
        }
    }
    lemma_lex3_skip(u, v, i);
    let zu = u.skip(i);
    let wv = v.skip(i);
    assert(all_zero(zu));
    // count the zeros on each side beyond the shared prefix
    assert(u =~= u.take(i) + zu);
    assert(v =~= v.take(i) + wv);
    lemma_count0_concat(u.take(i), zu);
    lemma_count0_concat(v.take(i), wv);
    assert(count0(zu) == count0(wv));
    lemma_count0_all_zero(zu);
    lemma_count0_le_len(wv);
    // wv ends where v's trimmed form still has non-zero content, so it holds
    // a non-zero and is strictly longer than u's zero tail
    assert(wv.len() >= tv.len() - i);
    assert(v[tv.len() - 1] == tv.last());
    assert(tv.last() != 0);
    assert(wv[tv.len() - 1 - i] != 0);
    lemma_count0_split_nonzero(wv, tv.len() - 1 - i);
    assert(wv.len() > zu.len());
    lemma_zeros_before_longer(zu, wv);
}

/// An all-zero sequence counts its own length in zeros.
pub proof fn lemma_count0_all_zero(s: Seq<u32>)
    requires
        all_zero(s),
    ensures
        count0(s) == s.len(),
    decreases s.len(),
{
    if s.len() != 0 {
        lemma_count0_all_zero(s.drop_last());
    }
}

/// No sequence counts more zeros than its length.
pub proof fn lemma_count0_le_len(s: Seq<u32>)
    ensures
        0 <= count0(s) <= s.len(),
    decreases s.len(),
{
    if s.len() != 0 {
        lemma_count0_le_len(s.drop_last());
    }
}

/// A sequence with a non-zero element counts strictly fewer zeros than its
/// length.
pub proof fn lemma_count0_split_nonzero(s: Seq<u32>, k: int)
    requires
        0 <= k < s.len(),
        s[k] != 0,
    ensures
        count0(s) < s.len(),
    decreases s.len(),
{
    lemma_count0_le_len(s.drop_last());
    if k < s.len() - 1 {
        lemma_count0_split_nonzero(s.drop_last(), k);
    }
}

/// Comparing two sequences around one zero separator, when the parts before
/// the separators hold no zeros: the first parts decide, the second parts
/// break their tie.
pub proof fn lemma_lex3_separated(x1: Seq<u32>, y1: Seq<u32>, x2: Seq<u32>, y2: Seq<u32>)
    requires
        all_nonzero(x1),
        all_nonzero(y1),
    ensures
        lex3(x1 + seq![0u32] + x2, y1 + seq![0u32] + y2) == (if lex3(x1, y1) != Ordering::Equal {
            lex3(x1, y1)
        } else {
            lex3(x2, y2)
        }),
    decreases x1.len(),
{
    let kx = x1 + seq![0u32] + x2;
    let ky = y1 + seq![0u32] + y2;
    if x1.len() == 0 && y1.len() == 0 {
        assert(kx[0] == 0 && ky[0] == 0);
        assert(kx.drop_first() =~= x2);
        assert(ky.drop_first() =~= y2);
        lemma_lex3_equal(x1, y1);
        assert(x1 =~= y1);
    } else if x1.len() == 0 {
        assert(kx[0] == 0);
        assert(ky[0] == y1[0]);
        assert(y1[0] != 0);
        assert(cmp3(kx[0] as int, ky[0] as int) == Ordering::Less);
    } else if y1.len() == 0 {
        assert(ky[0] == 0);
        assert(kx[0] == x1[0]);
        assert(x1[0] != 0);
        assert(cmp3(kx[0] as int, ky[0] as int) == Ordering::Greater);
    } else {
        assert(kx[0] == x1[0] && ky[0] == y1[0]);
        if x1[0] == y1[0] {
            assert(kx.drop_first() =~= x1.drop_first() + seq![0u32] + x2);
            assert(ky.drop_first() =~= y1.drop_first() + seq![0u32] + y2);
            lemma_lex3_separated(x1.drop_first(), y1.drop_first(), x2, y2);
        }
    }
}

/// The untrimmed sort key of a collation-element array, with its level
/// layout exposed for the consistency proof.
pub open spec fn untrimmed_key(cea: Seq<u32>, shifting: bool) -> Seq<u32> {
    if shifting {
        level_seq(cea, 1, shifting) + seq![0u32] + (level_seq(cea, 2, shifting) + seq![0u32] + (
        level_seq(cea, 3, shifting) + seq![0u32] + level_seq(cea, 4, shifting)))
    } else {
        level_seq(cea, 1, shifting) + seq![0u32] + (level_seq(cea, 2, shifting) + seq![0u32]
            + level_seq(cea, 3, shifting))
    }
}

/// Comparing untrimmed sort keys is the incremental multi-level comparison.
proof fn lemma_untrimmed_consistent(ca: Seq<u32>, cb: Seq<u32>, shifting: bool)
    ensures
        lex3(untrimmed_key(ca, shifting), untrimmed_key(cb, shifting))
            == spec_compare_incremental(ca, cb, shifting),
{
    lemma_level_seq_nonzero(ca, 1, shifting);
    lemma_level_seq_nonzero(cb, 1, shifting);
    lemma_level_seq_nonzero(ca, 2, shifting);
    lemma_level_seq_nonzero(cb, 2, shifting);
    lemma_level_seq_nonzero(ca, 3, shifting);
    lemma_level_seq_nonzero(cb, 3, shifting);
    if shifting {
        lemma_lex3_separated(
            level_seq(ca, 1, shifting),
            level_seq(cb, 1, shifting),
            level_seq(ca, 2, shifting) + seq![0u32] + (level_seq(ca, 3, shifting) + seq![0u32]
                + level_seq(ca, 4, shifting)),
            level_seq(cb, 2, shifting) + seq![0u32] + (level_seq(cb, 3, shifting) + seq![0u32]
                + level_seq(cb, 4, shifting)),
        );
        lemma_lex3_separated(
            level_seq(ca, 2, shifting),
            level_seq(cb, 2, shifting),
            level_seq(ca, 3, shifting) + seq![0u32] + level_seq(ca, 4, shifting),
            level_seq(cb, 3, shifting) + seq![0u32] + level_seq(cb, 4, shifting),
        );
        lemma_lex3_separated(
            level_seq(ca, 3, shifting),
            level_seq(cb, 3, shifting),
            level_seq(ca, 4, shifting),
            level_seq(cb, 4, shifting),
        );
    } else {
        lemma_lex3_separated(
            level_seq(ca, 1, shifting),
            level_seq(cb, 1, shifting),
            level_seq(ca, 2, shifting) + seq![0u32] + level_seq(ca, 3, shifting),
            level_seq(cb, 2, shifting) + seq![0u32] + level_seq(cb, 3, shifting),
        );
        lemma_lex3_separated(
            level_seq(ca, 2, shifting),
            level_seq(cb, 2, shifting),
            level_seq(ca, 3, shifting),
            level_seq(cb, 3, shifting),
        );
    }
}

/// An untrimmed key holds exactly its separators as zeros.
proof fn lemma_untrimmed_count0(cea: Seq<u32>, shifting: bool)
    ensures
        count0(untrimmed_key(cea, shifting)) == (if shifting {
            3int
        } else {
            2int
        }),
{
    let l1 = level_seq(cea, 1, shifting);
    let l2 = level_seq(cea, 2, shifting);
    let l3 = level_seq(cea, 3, shifting);
    let l4 = level_seq(cea, 4, shifting);
    lemma_level_seq_nonzero(cea, 1, shifting);
    lemma_level_seq_nonzero(cea, 2, shifting);
    lemma_level_seq_nonzero(cea, 3, shifting);
    lemma_level_seq_nonzero(cea, 4, shifting);
    lemma_count0_nonzero(l1);
    lemma_count0_nonzero(l2);
    lemma_count0_nonzero(l3);
    lemma_count0_nonzero(l4);
    assert(count0(seq![0u32]) == 1) by {
        assert(seq![0u32].len() == 1 && seq![0u32].last() == 0u32);
        assert(seq![0u32].drop_last() =~= Seq::<u32>::empty());
        assert(count0(Seq::<u32>::empty()) == 0);
    }
    if shifting {
        lemma_count0_concat(l3 + seq![0u32], l4);
        lemma_count0_concat(l3, seq![0u32]);
        lemma_count0_concat(l2 + seq![0u32], l3 + seq![0u32] + l4);
        lemma_count0_concat(l2, seq![0u32]);
        lemma_count0_concat(l1 + seq![0u32], l2 + seq![0u32] + (l3 + seq![0u32] + l4));
        lemma_count0_concat(l1, seq![0u32]);
        assert(l2 + seq![0u32] + (l3 + seq![0u32] + l4) =~= (l2 + seq![0u32]) + (l3 + seq![0u32]
            + l4));
        assert(l3 + seq![0u32] + l4 =~= (l3 + seq![0u32]) + l4);
    } else {
        lemma_count0_concat(l2 + seq![0u32], l3);
        lemma_count0_concat(l2, seq![0u32]);
        lemma_count0_concat(l1 + seq![0u32], l2 + seq![0u32] + l3);
        lemma_count0_concat(l1, seq![0u32]);
        assert(l2 + seq![0u32] + l3 =~= (l2 + seq![0u32]) + l3);
    }
}

/// Sort-key/comparator consistency: the lexicographic comparison of two
/// sort keys built under one configuration equals the incremental
/// multi-level comparison of the two collation-element arrays they were
/// built from.
#[verifier::rlimit(50)]
pub proof fn lemma_sortkey_consistent(ca: Seq<u32>, cb: Seq<u32>, shifting: bool)
    ensures
        lex3(spec_sort_key(ca, shifting), spec_sort_key(cb, shifting)) == spec_compare_incremental(
            ca,
            cb,
            shifting,
        ),
{
    let ua = untrimmed_key(ca, shifting);
    let ub = untrimmed_key(cb, shifting);
    assert(spec_sort_key(ca, shifting) == trim_zeros(ua)) by {
        if shifting {
            assert(level_seq(ca, 1, shifting) + seq![0u32] + level_seq(ca, 2, shifting) + seq![0u32]
                + level_seq(ca, 3, shifting) + seq![0u32] + level_seq(ca, 4, shifting) =~= ua);
        } else {
            assert(level_seq(ca, 1, shifting) + seq![0u32] + level_seq(ca, 2, shifting) + seq![0u32]
                + level_seq(ca, 3, shifting) =~= ua);
        }
    }
    assert(spec_sort_key(cb, shifting) == trim_zeros(ub)) by {
        if shifting {
            assert(level_seq(cb, 1, shifting) + seq![0u32] + level_seq(cb, 2, shifting) + seq![0u32]
                + level_seq(cb, 3, shifting) + seq![0u32] + level_seq(cb, 4, shifting) =~= ub);
        } else {
            assert(level_seq(cb, 1, shifting) + seq![0u32] + level_seq(cb, 2, shifting) + seq![0u32]
                + level_seq(cb, 3, shifting) =~= ub);
        }
    }
    lemma_untrimmed_count0(ca, shifting);
    lemma_untrimmed_count0(cb, shifting);
    lemma_trim_lex(ua, ub);
    lemma_untrimmed_consistent(ca, cb, shifting);
}

// ---------------------------------------------------------------------------
// Idempotence of normalization: a sequence that is already fully decomposed
// and canonically ordered is left alone.
// ---------------------------------------------------------------------------

/// Whether the adjacent pair ending at `j` needs no reordering.
pub open spec fn pair_ok(s: Seq<u32>, j: int) -> bool {
    ccc(s[j]) == 0 || ccc(s[j - 1]) == 0 || ccc(s[j - 1]) <= ccc(s[j])
}

/// Whether a sequence is canonically ordered: no adjacent pair of non-zero
/// combining classes descends.
pub open spec fn canonically_ordered(s: Seq<u32>) -> bool {
    forall|j: int| 1 <= j < s.len() ==> #[trigger] pair_ok(s, j)
}

/// A bubble pass over a canonically ordered sequence swaps nothing.
proof fn lemma_pass_noop(s: Seq<u32>, i: int, n: int, last: int)
    requires
        canonically_ordered(s),
        1 <= i,
        n <= s.len(),
    ensures
        bubble_pass(s, i, n, last) == (s, last),
    decreases (if n - i >= 0 { n - i } else { 0 }),
{
    if 1 <= i < n {
        assert(pair_ok(s, i));
        if ccc(s[i]) == 0 {
            lemma_pass_noop(s, i + 2, n, last);
        } else {
            lemma_pass_noop(s, i + 1, n, last);
        }
    }
}

/// The bubble leaves a canonically ordered sequence alone.
pub proof fn lemma_bubble_noop(s: Seq<u32>, n: int)
    requires
        canonically_ordered(s),
        n <= s.len(),
    ensures
        bubble(s, n) == s,
{
    if n > 1 {
        lemma_pass_noop(s, 1, n, 0);
        assert(bubble(s, n) == bubble(s, 0));
    }
}

/// Whether every codepoint of a sequence is left alone by decomposition.
pub open spec fn all_terminal(d: NormData, s: Seq<u32>) -> bool {
    forall|j: int| 0 <= j < s.len() ==> d.is_terminal(#[trigger] s[j])
}

/// Decomposition leaves a fully decomposed sequence alone.
pub proof fn lemma_decomp_noop(d: NormData, s: Seq<u32>)
    requires
        all_terminal(d, s),
    ensures
        decomp_seq(d.decomp@, s) == s,
    decreases s.len(),
{
    if s.len() != 0 {
        assert(d.is_terminal(s[0]));
        assert(decomp_unit(d.decomp@, s[0]) == seq![s[0]]);
        lemma_decomp_noop(d, s.drop_first());
        assert(seq![s[0]] + s.drop_first() =~= s);
    }
}

/// Idempotence of normalization: normalizing a sequence that is already in
/// canonical decomposed form — fully decomposed and canonically ordered — is
/// a no-op.
pub proof fn lemma_normalize_noop(d: NormData, t: Seq<u32>)
    requires
        all_terminal(d, t),
        canonically_ordered(t),
    ensures
        d.spec_nfd(t) == t,
{
    if !spec_fcd(d.fcd@, t) {
        lemma_decomp_noop(d, t);
        lemma_bubble_noop(t, t.len() as int);
    }
}

// ---------------------------------------------------------------------------
// Canonical equivalence and tie-break determinism: how a comparison treats
// two sequences whose normalized forms are identical.
// ---------------------------------------------------------------------------

/// Under well-formed data, decomposition never shortens a sequence.
proof fn lemma_decomp_len(d: NormData, s: Seq<u32>)
    requires
        d.wf(),
    ensures
        decomp_seq(d.decomp@, s).len() >= s.len(),
    decreases s.len(),
{
    if s.len() != 0 {
        lemma_decomp_len(d, s.drop_first());
        assert(decomp_unit(d.decomp@, s[0]).len() >= 1);
    }
}

/// Under well-formed data, normalization never shortens a sequence.
proof fn lemma_nfd_len(d: NormData, s: Seq<u32>)
    requires
        d.wf(),
    ensures
        d.spec_nfd(s).len() >= s.len(),
{
    if !spec_fcd(d.fcd@, s) {
        lemma_decomp_len(d, s);
        lemma_bubble_len(decomp_seq(d.decomp@, s), decomp_seq(d.decomp@, s).len() as int);
    }
}

/// A bubble pass never touches a leading run of combining-class-zero
/// codepoints: a swap needs two non-zero classes.
proof fn lemma_pass_keeps_zero_prefix(s: Seq<u32>, i: int, n: int, last: int, k: int)
    requires
        1 <= i,
        n <= s.len(),
        0 <= k <= s.len(),
        forall|j: int| 0 <= j < k ==> ccc(#[trigger] s[j]) == 0,
    ensures
        bubble_pass(s, i, n, last).0.take(k) == s.take(k),
        forall|j: int|
            0 <= j < k ==> ccc(#[trigger] bubble_pass(s, i, n, last).0[j]) == 0,
    decreases (if n - i >= 0 { n - i } else { 0 }),
{
    if 1 <= i < n {
        if ccc(s[i]) == 0 {
            lemma_pass_keeps_zero_prefix(s, i + 2, n, last, k);
        } else if ccc(s[i - 1]) == 0 || ccc(s[i - 1]) <= ccc(s[i]) {
            lemma_pass_keeps_zero_prefix(s, i + 1, n, last, k);
        } else {
            // the swapped pair lies beyond the zero-class prefix
            assert(i - 1 >= k);
            let s2 = swap_adj(s, i);
            assert(s2.take(k) =~= s.take(k));
            assert forall|j: int| 0 <= j < k implies ccc(#[trigger] s2[j]) == 0 by {
                assert(s2[j] == s[j]);
            }
            lemma_pass_keeps_zero_prefix(s2, i + 1, n, i, k);
            assert(bubble_pass(s2, i + 1, n, i).0.take(k) =~= s.take(k));
        }
    } else {
        assert(bubble_pass(s, i, n, last).0.take(k) =~= s.take(k));
    }
}

/// The bubble never touches a leading run of combining-class-zero
/// codepoints.
proof fn lemma_bubble_keeps_zero_prefix(s: Seq<u32>, n: int, k: int)
    requires
        n <= s.len(),
        0 <= k <= s.len(),
        forall|j: int| 0 <= j < k ==> ccc(#[trigger] s[j]) == 0,
    ensures
        bubble(s, n).take(k) == s.take(k),
    decreases (if n >= 0 { n } else { 0 }),
{
    if n <= 1 {
        assert(bubble(s, n).take(k) =~= s.take(k));
    } else {
        lemma_bubble_pass_frame(s, 1, n, 0);
        lemma_pass_keeps_zero_prefix(s, 1, n, 0, k);
        let s2 = bubble_pass(s, 1, n, 0).0;
        let l2 = bubble_pass(s, 1, n, 0).1;
        lemma_bubble_keeps_zero_prefix(s2, l2, k);
        assert(bubble(s2, l2).take(k) =~= s.take(k));
    }
}

/// Decomposition splits around a prefix of codepoints below 0xC0, which
/// decompose to themselves.
proof fn lemma_decomp_low_prefix(d: NormData, s: Seq<u32>, k: int)
    requires
        0 <= k <= s.len(),
        forall|j: int| 0 <= j < k ==> #[trigger] s[j] < 0xC0,
    ensures
        decomp_seq(d.decomp@, s) == s.take(k) + decomp_seq(d.decomp@, s.skip(k)),
{
    assert(s =~= s.take(k) + s.skip(k));
    lemma_decomp_seq_concat(d.decomp@, s.take(k), s.skip(k));
    assert(decomp_seq(d.decomp@, s.take(k)) == s.take(k)) by {
        assert forall|j: int| 0 <= j < s.take(k).len() implies d.is_terminal(
            #[trigger] s.take(k)[j],
        ) by {
            assert(s.take(k)[j] == s[j]);
        }
        lemma_decomp_noop(d, s.take(k));
    }
    assert(decomp_seq(d.decomp@, s.take(k) + s.skip(k)) == decomp_seq(d.decomp@, s));
}

/// Normalization preserves a leading run of ASCII alphanumerics in place.
proof fn lemma_nfd_keeps_alnum_prefix(d: NormData, s: Seq<u32>, k: int)
    requires
        0 <= k <= s.len(),
        forall|j: int| 0 <= j < k ==> spec_alnum(#[trigger] s[j]),
    ensures
        d.spec_nfd(s).take(k) == s.take(k),
{
    if spec_fcd(d.fcd@, s) {
        assert(d.spec_nfd(s).take(k) =~= s.take(k));
    } else {
        assert(forall|j: int| 0 <= j < k ==> #[trigger] s[j] < 0xC0);
        lemma_decomp_low_prefix(d, s, k);
        let dec = decomp_seq(d.decomp@, s);
        assert(dec.take(k) =~= s.take(k));
        assert forall|j: int| 0 <= j < k implies ccc(#[trigger] dec[j]) == 0 by {
            assert(dec[j] == s.take(k)[j]);
            assert(dec[j] == s[j]);
        }
        lemma_bubble_keeps_zero_prefix(dec, dec.len() as int, k);
    }
}

/// An all-alphanumeric sequence is its own normalized form.
proof fn lemma_nfd_alnum_id(d: NormData, s: Seq<u32>)
    requires
        forall|j: int| 0 <= j < s.len() ==> spec_alnum(#[trigger] s[j]),
    ensures
        d.spec_nfd(s) == s,
{
    assert forall|j: int| 0 <= j < s.len() implies d.is_terminal(#[trigger] s[j]) by {
        assert(spec_alnum(s[j]));
    }
    assert forall|j: int| 1 <= j < s.len() implies #[trigger] pair_ok(s, j) by {
        assert(spec_alnum(s[j]));
        assert(ccc(s[j]) == 0);
    }
    lemma_normalize_noop(d, s);
}

/// If the fast-path scan reaches a decision for two sequences, their
/// normalized forms differ: the scan decides only inside an ASCII
/// alphanumeric run, which normalization preserves verbatim.
proof fn lemma_fastpath_decides_nfd_differ(
    d: NormData,
    a: Seq<u32>,
    b: Seq<u32>,
    i: int,
    backup: Option<Ordering>,
)
    requires
        d.wf(),
        0 <= i <= a.len(),
        i <= b.len(),
        forall|j: int| 0 <= j < i ==> spec_alnum(#[trigger] a[j]),
        forall|j: int| 0 <= j < i ==> spec_alnum(#[trigger] b[j]),
        backup is Some ==> exists|j: int| 0 <= j < i && a[j] != b[j],
        fastpath_from(a, b, i, backup) is Some,
    ensures
        d.spec_nfd(a) != d.spec_nfd(b),
    decreases a.len() - i,
{
    let na = d.spec_nfd(a);
    let nb = d.spec_nfd(b);
    if i >= a.len() {
        // a is exhausted: a is all-alphanumeric, so its normalized form is a
        lemma_nfd_alnum_id(d, a);
        if a.len() != b.len() {
            assert(b.len() > a.len());
            lemma_nfd_len(d, b);
        } else {
            let j = choose|j: int| 0 <= j < i && a[j] != b[j];
            lemma_nfd_keeps_alnum_prefix(d, b, j + 1);
            lemma_nfd_len(d, b);
            assert(na[j] == a[j]);
            assert(nb[j] == b.take(j + 1)[j]);
        }
    } else if !spec_alnum(a[i]) {
        assert(false);
    } else if i >= b.len() {
        // b is exhausted and all-alphanumeric while a continues
        lemma_nfd_alnum_id(d, b);
        lemma_nfd_len(d, a);
        if a.len() == b.len() {
            let j = choose|j: int| 0 <= j < i && a[j] != b[j];
            lemma_nfd_keeps_alnum_prefix(d, a, j + 1);
            assert(nb[j] == b[j]);
            assert(na[j] == a.take(j + 1)[j]);
        }
    } else if !spec_alnum(b[i]) {
        assert(false);
    } else if a[i] == b[i] {
        lemma_fastpath_decides_nfd_differ(d, a, b, i + 1, backup);
    } else if spec_fold(a[i]) == spec_fold(b[i]) {
        let backup2 = if backup is None {
            Some(cmp3(b[i] as int, a[i] as int))
        } else {
            backup
        };
        assert(backup2 is Some ==> exists|j: int| 0 <= j < i + 1 && a[j] != b[j]) by {
            if backup is None {
                assert(0 <= i < i + 1 && a[i] != b[i]);
            } else {
                let j = choose|j: int| 0 <= j < i && a[j] != b[j];
                assert(0 <= j < i + 1 && a[j] != b[j]);
            }
        }
        lemma_fastpath_decides_nfd_differ(d, a, b, i + 1, backup2);
    } else {
        // a genuine folded difference at an aligned alphanumeric position:
        // normalization keeps both prefixes, so the normalized forms differ
        // at this very position
        lemma_nfd_keeps_alnum_prefix(d, a, i + 1);
        lemma_nfd_keeps_alnum_prefix(d, b, i + 1);
        lemma_nfd_len(d, a);
        lemma_nfd_len(d, b);
        assert(na[i] == a.take(i + 1)[i]);
        assert(nb[i] == b.take(i + 1)[i]);
    }
}

/// Canonical equivalence: two sequences whose normalized forms are identical
/// compare as equal when the tie-break is disabled, byte-identical or not.
pub proof fn lemma_canonical_equivalence(
    d: NormData,
    t: WeightTables,
    shifting: bool,
    a: Seq<u32>,
    b: Seq<u32>,
)
    requires
        d.wf(),
        d.spec_nfd(a) == d.spec_nfd(b),
    ensures
        spec_collate(d, t, shifting, false, a, b) == Ordering::Equal,
{
    if a != b {
        if spec_fastpath(a, b) is Some {
            lemma_fastpath_decides_nfd_differ(d, a, b, 0, None);
        }
    }
}

/// Tie-break determinism: with the tie-break enabled, two distinct but
/// canonically equivalent sequences compare exactly as their raw codepoint
/// sequences do lexicographically — the order their first diverging raw
/// codepoint gives.
pub proof fn lemma_tiebreak_determinism(
    d: NormData,
    t: WeightTables,
    shifting: bool,
    a: Seq<u32>,
    b: Seq<u32>,
)
    requires
        d.wf(),
        d.spec_nfd(a) == d.spec_nfd(b),
        a != b,
    ensures
        spec_collate(d, t, shifting, true, a, b) == lex3(a, b),
{
    if spec_fastpath(a, b) is Some {
        lemma_fastpath_decides_nfd_differ(d, a, b, 0, None);
    }
}

/// Empty input: two empty sequences compare as equal, and the sort key of
/// the empty sequence is the empty key, so its reported required length is
/// zero.
pub proof fn lemma_empty_input(d: NormData, t: WeightTables, shifting: bool, tiebreak: bool)
    ensures
        spec_collate(d, t, shifting, tiebreak, Seq::<u32>::empty(), Seq::<u32>::empty())
            == Ordering::Equal,
        spec_sortkey_u32(d, t, shifting, Seq::<u32>::empty()) == Seq::<u32>::empty(),
{
    let e = Seq::<u32>::empty();
    assert(d.spec_nfd(e) == e);
    let cea = cea_from(t, e, 0);
    assert(cea =~= Seq::<u32>::empty());
    assert(level_seq(cea, 1, shifting) =~= Seq::<u32>::empty());
    assert(level_seq(cea, 2, shifting) =~= Seq::<u32>::empty());
    assert(level_seq(cea, 3, shifting) =~= Seq::<u32>::empty());
    assert(level_seq(cea, 4, shifting) =~= Seq::<u32>::empty());
    if shifting {
        let u = level_seq(cea, 1, shifting) + seq![0u32] + level_seq(cea, 2, shifting) + seq![0u32]
            + level_seq(cea, 3, shifting) + seq![0u32] + level_seq(cea, 4, shifting);
        assert(u =~= seq![0u32, 0u32, 0u32]);
        assert(trim_zeros(seq![0u32, 0u32, 0u32]) == trim_zeros(seq![0u32, 0u32])) by {
            assert(seq![0u32, 0u32, 0u32].drop_last() =~= seq![0u32, 0u32]);
        }
        assert(trim_zeros(seq![0u32, 0u32]) == trim_zeros(seq![0u32])) by {
            assert(seq![0u32, 0u32].drop_last() =~= seq![0u32]);
        }
        assert(trim_zeros(seq![0u32]) =~= Seq::<u32>::empty()) by {
            assert(seq![0u32].len() == 1 && seq![0u32].last() == 0u32);
            assert(seq![0u32].drop_last() =~= Seq::<u32>::empty());
            assert(trim_zeros(Seq::<u32>::empty()) == Seq::<u32>::empty());
        }
    } else {
        let u = level_seq(cea, 1, shifting) + seq![0u32] + level_seq(cea, 2, shifting) + seq![0u32]
            + level_seq(cea, 3, shifting);
        assert(u =~= seq![0u32, 0u32]);
        assert(trim_zeros(seq![0u32, 0u32]) == trim_zeros(seq![0u32])) by {
            assert(seq![0u32, 0u32].drop_last() =~= seq![0u32]);
        }
        assert(trim_zeros(seq![0u32]) =~= Seq::<u32>::empty()) by {
            assert(seq![0u32].len() == 1 && seq![0u32].last() == 0u32);
            assert(seq![0u32].drop_last() =~= Seq::<u32>::empty());
            assert(trim_zeros(Seq::<u32>::empty()) == Seq::<u32>::empty());
        }
    }
}

// ---------------------------------------------------------------------------
// The bubble actually sorts: after the passes, every adjacent pair is in
// canonical order. The key invariant is run dominance — within each
// contiguous run of non-zero combining classes, every element at or beyond
// the settled window bound is at least as high as everything before it in
// its run.
// ---------------------------------------------------------------------------

/// Whether every combining class on the span `k..=j` is non-zero.
pub open spec fn run_nonzero(s: Seq<u32>, k: int, j: int) -> bool {
    forall|m: int| k <= m <= j ==> ccc(#[trigger] s[m]) != 0
}

/// Whether the element at `j` is at least as high as every element before
/// it in its run of non-zero combining classes.
pub open spec fn dominates(s: Seq<u32>, j: int) -> bool {
    forall|k: int| 0 <= k < j && #[trigger] run_nonzero(s, k, j) ==> ccc(s[k]) <= ccc(s[j])
}

/// Whether every position from `n` on dominates its run.
pub open spec fn run_dominated_from(s: Seq<u32>, n: int) -> bool {
    forall|j: int| n <= j < s.len() ==> #[trigger] dominates(s, j)
}

/// A dominated position makes its pair ordered.
proof fn lemma_dominates_pair_ok(s: Seq<u32>, j: int)
    requires
        1 <= j < s.len(),
        dominates(s, j),
    ensures
        pair_ok(s, j),
{
    if ccc(s[j]) != 0 && ccc(s[j - 1]) != 0 {
        assert(run_nonzero(s, j - 1, j)) by {
            assert forall|m: int| j - 1 <= m <= j implies ccc(#[trigger] s[m]) != 0 by {}
        }
    }
}

/// Dominance propagates along a chain of ordered pairs.
proof fn lemma_dominance_chain(s: Seq<u32>, lo: int, j: int)
    requires
        0 <= lo <= j < s.len(),
        dominates(s, lo),
        forall|p: int| lo < p <= j && p >= 1 ==> #[trigger] pair_ok(s, p),
    ensures
        dominates(s, j),
    decreases j - lo,
{
    if j > lo {
        lemma_dominance_chain(s, lo, j - 1);
        assert(pair_ok(s, j));
        assert forall|k: int| 0 <= k < j && #[trigger] run_nonzero(s, k, j) implies ccc(s[k]) <= ccc(
            s[j],
        ) by {
            assert(ccc(s[j]) != 0);
            assert(ccc(s[j - 1]) != 0);
            assert(ccc(s[j - 1]) <= ccc(s[j]));
            if k < j - 1 {
                assert(run_nonzero(s, k, j - 1)) by {
                    assert forall|m: int| k <= m <= j - 1 implies ccc(#[trigger] s[m]) != 0 by {
                        assert(ccc(s[m]) != 0);
                    }
                }
                assert(ccc(s[k]) <= ccc(s[j - 1]));
            }
        }
    }
}

/// One bubble pass settles its window: afterwards every position from the
/// last swap on dominates its run, so the next, smaller window may stop
/// there.
proof fn lemma_pass_sorts(s: Seq<u32>, i: int, n: int, last: int)
    requires
        1 <= i,
        0 <= last < n,
        last < i,
        n <= s.len(),
        run_dominated_from(s, n),
        forall|j: int| last < j < i && j < n ==> #[trigger] pair_ok(s, j),
        dominates(s, last),
        dominates(s, i - 1),
    ensures
        bubble_pass(s, i, n, last).0.len() == s.len(),
        last <= bubble_pass(s, i, n, last).1 < n,
        run_dominated_from(bubble_pass(s, i, n, last).0, bubble_pass(s, i, n, last).1),
    decreases (if n - i >= 0 { n - i } else { 0 }),
{
    if i >= n {
        // the pass is over: dominance from the last swap position follows by
        // chaining the ordered pairs it left behind
        assert forall|j: int|
            last <= j < s.len() implies #[trigger] dominates(s, j) by {
            if j < n {
                lemma_dominance_chain(s, last, j);
            }
        }
    } else if ccc(s[i]) == 0 {
        // a zero class at i: both pairs i and i + 1 are trivially ordered,
        // and no run reaches across position i
        assert(dominates(s, i + 1)) by {
            assert forall|k: int|
                0 <= k < i + 1 && #[trigger] run_nonzero(s, k, i + 1) implies ccc(s[k]) <= ccc(
                s[i + 1],
            ) by {
                assert(ccc(s[i]) != 0);
            }
        }
        assert(pair_ok(s, i));
        if i + 1 < n {
            assert(pair_ok(s, i + 1));
        }
        lemma_pass_sorts(s, i + 2, n, last);
    } else if ccc(s[i - 1]) == 0 || ccc(s[i - 1]) <= ccc(s[i]) {
        assert(pair_ok(s, i));
        assert(dominates(s, i)) by {
            assert forall|k: int| 0 <= k < i && #[trigger] run_nonzero(s, k, i) implies ccc(s[k])
                <= ccc(s[i]) by {
                assert(ccc(s[i - 1]) != 0);
                assert(ccc(s[i - 1]) <= ccc(s[i]));
                if k < i - 1 {
                    assert(run_nonzero(s, k, i - 1)) by {
                        assert forall|m: int| k <= m <= i - 1 implies ccc(#[trigger] s[m]) != 0 by {
                            assert(ccc(s[m]) != 0);
                        }
                    }
                }
            }
        }
        lemma_pass_sorts(s, i + 1, n, last);
    } else {
        // out of order: both classes are non-zero and the left is higher, so
        // the pair swaps and the scan point carries the run's maximum so far
        let s2 = swap_adj(s, i);
        assert(s2.len() == s.len());
        assert(forall|m: int| 0 <= m < s.len() && m != i - 1 && m != i ==> s2[m] == s[m]);
        assert(s2[i - 1] == s[i] && s2[i] == s[i - 1]);
        // the zero pattern is unchanged: both swapped classes are non-zero
        assert(ccc(s2[i - 1]) != 0 && ccc(s2[i]) != 0);
        assert forall|m: int| 0 <= m < s.len() implies (ccc(#[trigger] s2[m]) != 0 <==> ccc(s[m])
            != 0) by {}
        // dominance beyond the window survives the swap
        assert forall|j: int| n <= j < s2.len() implies #[trigger] dominates(s2, j) by {
            assert(dominates(s, j));
            assert(s2[j] == s[j]);
            assert forall|k: int|
                0 <= k < j && #[trigger] run_nonzero(s2, k, j) implies ccc(s2[k]) <= ccc(
                s2[j],
            ) by {
                assert(run_nonzero(s, k, j)) by {
                    assert forall|m: int| k <= m <= j implies ccc(#[trigger] s[m]) != 0 by {
                        assert(ccc(s2[m]) != 0);
                    }
                }
                if k == i - 1 {
                    assert(run_nonzero(s, i, j)) by {
                        assert forall|m: int| i <= m <= j implies ccc(#[trigger] s[m]) != 0 by {
                            assert(ccc(s2[m]) != 0 || m == i);
                        }
                    }
                    assert(ccc(s[i]) <= ccc(s[j]));
                } else if k == i {
                    assert(run_nonzero(s, i - 1, j)) by {
                        assert forall|m: int| i - 1 <= m <= j implies ccc(#[trigger] s[m]) != 0 by {
                            assert(ccc(s2[m]) != 0 || m == i - 1 || m == i);
                        }
                    }
                    assert(ccc(s[i - 1]) <= ccc(s[j]));
                } else {
                    assert(ccc(s[k]) <= ccc(s[j]));
                }
            }
        }
        // the element swapped into position i dominates its run: it was
        // carried along as the run's maximum
        assert(dominates(s2, i)) by {
            assert forall|k: int|
                0 <= k < i && #[trigger] run_nonzero(s2, k, i) implies ccc(s2[k]) <= ccc(
                s2[i],
            ) by {
                if k < i - 1 {
                    assert(run_nonzero(s, k, i - 1)) by {
                        assert forall|m: int| k <= m <= i - 1 implies ccc(#[trigger] s[m]) != 0 by {
                            assert(ccc(s2[m]) != 0 || m == i - 1);
                        }
                    }
                    assert(ccc(s[k]) <= ccc(s[i - 1]));
                    assert(s2[k] == s[k]);
                }
            }
        }
        lemma_pass_sorts(s2, i + 1, n, i);
    }
}

/// The bubble leaves every adjacent pair in canonical order.
proof fn lemma_bubble_sorts(s: Seq<u32>, n: int)
    requires
        0 <= n <= s.len(),
        run_dominated_from(s, n),
    ensures
        canonically_ordered(bubble(s, n)),
    decreases (if n >= 0 { n } else { 0 }),
{
    if n <= 1 {
        assert forall|j: int| 1 <= j < s.len() implies #[trigger] pair_ok(s, j) by {
            assert(dominates(s, j));
            lemma_dominates_pair_ok(s, j);
        }
    } else {
        lemma_bubble_pass_frame(s, 1, n, 0);
        assert(dominates(s, 0)) by {
            assert forall|k: int| 0 <= k < 0 && #[trigger] run_nonzero(s, k, 0) implies ccc(s[k])
                <= ccc(s[0]) by {}
        }
        lemma_pass_sorts(s, 1, n, 0);
        lemma_bubble_sorts(bubble_pass(s, 1, n, 0).0, bubble_pass(s, 1, n, 0).1);
    }
}

/// The canonical reordering leaves every adjacent pair in canonical order.
pub proof fn lemma_reorder_sorts(s: Seq<u32>)
    ensures
        canonically_ordered(spec_reorder(s)),
{
    lemma_bubble_sorts(s, s.len() as int);
}

/// A bubble pass keeps every element's membership in the sequence: it only
/// exchanges adjacent elements.
proof fn lemma_pass_terminal(d: NormData, s: Seq<u32>, i: int, n: int, last: int)
    requires
        1 <= i,
        0 <= last < n,
        n <= s.len(),
        all_terminal(d, s),
    ensures
        all_terminal(d, bubble_pass(s, i, n, last).0),
    decreases (if n - i >= 0 { n - i } else { 0 }),
{
    if 1 <= i < n {
        if ccc(s[i]) == 0 {
            lemma_pass_terminal(d, s, i + 2, n, last);
        } else if ccc(s[i - 1]) == 0 || ccc(s[i - 1]) <= ccc(s[i]) {
            lemma_pass_terminal(d, s, i + 1, n, last);
        } else {
            let s2 = swap_adj(s, i);
            assert forall|j: int| 0 <= j < s2.len() implies d.is_terminal(#[trigger] s2[j]) by {
                assert(s2[j] == s[j] || s2[j] == s[i - 1] || s2[j] == s[i]);
            }
            lemma_pass_terminal(d, s2, i + 1, n, i);
        }
    }
}

/// The bubble keeps every element's membership in the sequence.
proof fn lemma_bubble_terminal(d: NormData, s: Seq<u32>, n: int)
    requires
        0 <= n <= s.len(),
        all_terminal(d, s),
    ensures
        all_terminal(d, bubble(s, n)),
    decreases (if n >= 0 { n } else { 0 }),
{
    if n > 1 {
        lemma_bubble_pass_frame(s, 1, n, 0);
        lemma_pass_terminal(d, s, 1, n, 0);
        lemma_bubble_terminal(d, bubble_pass(s, 1, n, 0).0, bubble_pass(s, 1, n, 0).1);
    }
}

/// Under well-formed data, everything decomposition emits is itself fully
/// decomposed.
proof fn lemma_decomp_terminal(d: NormData, s: Seq<u32>)
    requires
        d.wf(),
    ensures
        all_terminal(d, decomp_seq(d.decomp@, s)),
    decreases s.len(),
{
    if s.len() != 0 {
        lemma_decomp_terminal(d, s.drop_first());
        let u = decomp_unit(d.decomp@, s[0]);
        let rest = decomp_seq(d.decomp@, s.drop_first());
        assert forall|j: int| 0 <= j < u.len() implies d.is_terminal(#[trigger] u[j]) by {
            let c = s[0];
            if c < 0xC0 {
            } else if is_hangul_syllable(c) {
                assert(0x1100 <= u[j] <= 0x11C2);
                assert(!d.decomp@.contains_key(u[j] as u32));
            } else if d.decomp@.contains_key(c) {
                assert(d.is_terminal(d.decomp@[c]@[j]));
            }
        }
        assert forall|j: int|
            0 <= j < decomp_seq(d.decomp@, s).len() implies d.is_terminal(
            #[trigger] decomp_seq(d.decomp@, s)[j],
        ) by {
            if j < u.len() {
                assert(decomp_seq(d.decomp@, s)[j] == u[j]);
            } else {
                assert(decomp_seq(d.decomp@, s)[j] == rest[j - u.len()]);
            }
        }
    }
}

/// Idempotence of normalization, in full: under well-formed data, what
/// normalization produces, normalization leaves alone.
pub proof fn lemma_nfd_idempotent(d: NormData, s: Seq<u32>)
    requires
        d.wf(),
    ensures
        d.spec_nfd(d.spec_nfd(s)) == d.spec_nfd(s),
{
    if !spec_fcd(d.fcd@, s) {
        let dec = decomp_seq(d.decomp@, s);
        let t = d.spec_nfd(s);
        lemma_decomp_terminal(d, s);
        lemma_bubble_terminal(d, dec, dec.len() as int);
        lemma_reorder_sorts(dec);
        lemma_normalize_noop(d, t);
    }
}

// ---------------------------------------------------------------------------
// The first-weight shortcut is safe: whenever it reaches a decision, full
// collation-element generation and incremental comparison would have reached
// the same one.
// ---------------------------------------------------------------------------

/// A decided shortcut fixes the head of the primary level sequence.
proof fn lemma_first_weight_head(t: WeightTables, s: Seq<u32>, shifting: bool)
    requires
        s.len() > 0,
        !t.need_two@.contains(s[0]),
        !t.need_three@.contains(s[0]),
        t.spec_single(s[0]).len() > 0,
        !(shifting && spec_variable(t.spec_single(s[0])[0])),
        spec_primary(t.spec_single(s[0])[0]) != 0,
    ensures
        level_seq(cea_from(t, s, 0), 1, shifting).len() > 0,
        level_seq(cea_from(t, s, 0), 1, shifting)[0] == spec_primary(t.spec_single(s[0])[0]),
{
    let cea = cea_from(t, s, 0);
    let rec = t.spec_single(s[0]);
    assert(!match3_at(t, s, 0));
    assert(!match2_at(t, s, 0));
    assert(cea == rec + cea_from(t, s, 1));
    assert(cea[0] == rec[0]);
    assert(cea.len() > 0);
    assert(spec_level_weight(cea[0], 1, shifting) == spec_primary(rec[0]));
    let l1 = level_seq(cea, 1, shifting);
    assert(l1 == seq![spec_primary(rec[0])] + level_seq(cea.drop_first(), 1, shifting));
    assert(l1[0] == spec_primary(rec[0]));
}

/// First-weight shortcut soundness: a decision it reaches for the two
/// suffixes equals what the incremental comparison of their full
/// collation-element arrays returns.
pub proof fn lemma_try_initial_sound(t: WeightTables, a: Seq<u32>, b: Seq<u32>, shifting: bool)
    requires
        spec_try_initial(t, a, b, shifting) is Some,
    ensures
        spec_compare_incremental(cea_from(t, a, 0), cea_from(t, b, 0), shifting)
            == spec_try_initial(t, a, b, shifting)->Some_0,
{
    let ra = t.spec_single(a[0]);
    let rb = t.spec_single(b[0]);
    let pa = spec_primary(ra[0]);
    let pb = spec_primary(rb[0]);
    lemma_first_weight_head(t, a, shifting);
    lemma_first_weight_head(t, b, shifting);
    let la = level_seq(cea_from(t, a, 0), 1, shifting);
    let lb = level_seq(cea_from(t, b, 0), 1, shifting);
    assert(la[0] == pa && lb[0] == pb && pa != pb);
    assert(lex3(la, lb) == cmp3(pa as int, pb as int));
}

} // verus!
