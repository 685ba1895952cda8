//! The normalizer: converts a codepoint sequence to canonical decomposed
//! form. A sequence already in "fast canonical decomposition" (FCD) order is
//! accepted as it stands; otherwise the sequence is fully decomposed
//! (including algorithmic Hangul syllable decomposition) and then reordered
//! by stable bubble passes that sort contiguous runs of non-zero
//! combining-class codepoints by combining class.

use vstd::prelude::*;
use crate::tables::NormData;
use unicode_canonical_combining_class::get_canonical_combining_class_u32;

verus! {

broadcast use vstd::std_specs::hash::group_hash_axioms;

/// The canonical combining class of a codepoint, as the Unicode character
/// database defines it.
pub uninterp spec fn ccc_of(c: u32) -> u8;

/// The canonical combining class, with the character database's class of
/// zero for the Latin-1 range below 0xC0 made explicit.
pub open spec fn ccc(c: u32) -> u8 {
    if c < 0xC0 {
        0
    } else {
        ccc_of(c)
    }
}

/// Relies on unicode_canonical_combining_class::get_canonical_combining_class_u32:
/// the canonical combining class of a codepoint, determined by the codepoint
/// alone; its table assigns class 0 to every codepoint below 0x300.
#[verifier::external_body]
pub(crate) fn ccc_exec(c: u32) -> (r: u8)
    ensures
        r == ccc_of(c),
        r == ccc(c),
{
    get_canonical_combining_class_u32(c) as u8
}

/// Whether a codepoint is a precomposed Hangul syllable.
pub open spec fn is_hangul_syllable(c: u32) -> bool {
    0xAC00 <= c <= 0xD7A3
}

/// The algorithmic Jamo decomposition of a Hangul syllable: a leading and a
/// vowel Jamo, plus a trailing Jamo when the syllable has one.
pub open spec fn spec_jamo(s: u32) -> Seq<u32> {
    let si = s - 0xAC00;
    let l = (0x1100 + si / 588) as u32;
    let v = (0x1161 + (si % 588) / 28) as u32;
    let t = (0x11A7 + si % 28) as u32;
    if si % 28 == 0 {
        seq![l, v]
    } else {
        seq![l, v, t]
    }
}

/// The canonical decomposition of one codepoint: codepoints below 0xC0 are
/// never touched, Hangul syllables decompose algorithmically, codepoints in
/// the decomposition table are replaced by their (already fully decomposed)
/// replacement sequence, and everything else stands.
pub open spec fn decomp_unit(dm: Map<u32, Vec<u32>>, c: u32) -> Seq<u32> {
    if c < 0xC0 {
        seq![c]
    } else if is_hangul_syllable(c) {
        spec_jamo(c)
    } else if dm.contains_key(c) {
        dm[c]@
    } else {
        seq![c]
    }
}

/// The canonical decomposition of a sequence: each codepoint replaced by its
/// decomposition, in place.
pub open spec fn decomp_seq(dm: Map<u32, Vec<u32>>, s: Seq<u32>) -> Seq<u32>
    decreases s.len(),
{
    if s.len() == 0 {
        Seq::empty()
    } else {
        decomp_unit(dm, s[0]) + decomp_seq(dm, s.drop_first())
    }
}

/// Decomposition distributes over concatenation.
pub proof fn lemma_decomp_seq_concat(dm: Map<u32, Vec<u32>>, s1: Seq<u32>, s2: Seq<u32>)
    ensures
        decomp_seq(dm, s1 + s2) == decomp_seq(dm, s1) + decomp_seq(dm, s2),
    decreases s1.len(),
{
    if s1.len() == 0 {
        assert(s1 + s2 =~= s2);
        assert(decomp_seq(dm, s1) + decomp_seq(dm, s2) =~= decomp_seq(dm, s2));
    } else {
        assert((s1 + s2).drop_first() =~= s1.drop_first() + s2);
        assert((s1 + s2)[0] == s1[0]);
        lemma_decomp_seq_concat(dm, s1.drop_first(), s2);
        assert(decomp_unit(dm, s1[0]) + (decomp_seq(dm, s1.drop_first()) + decomp_seq(dm, s2)) =~= (
        decomp_unit(dm, s1[0]) + decomp_seq(dm, s1.drop_first())) + decomp_seq(dm, s2));
    }
}

/// Appending one codepoint to the input appends its decomposition to the
/// output.
pub proof fn lemma_decomp_seq_snoc(dm: Map<u32, Vec<u32>>, s: Seq<u32>, i: int)
    requires
        0 <= i < s.len(),
    ensures
        decomp_seq(dm, s.take(i + 1)) == decomp_seq(dm, s.take(i)) + decomp_unit(dm, s[i]),
{
    assert(s.take(i + 1) =~= s.take(i) + seq![s[i]]);
    lemma_decomp_seq_concat(dm, s.take(i), seq![s[i]]);
    assert(seq![s[i]].drop_first() =~= Seq::<u32>::empty());
    assert(decomp_seq(dm, seq![s[i]]) == decomp_unit(dm, s[i]) + decomp_seq(
        dm,
        seq![s[i]].drop_first(),
    ));
    assert(decomp_unit(dm, s[i]) + Seq::<u32>::empty() =~= decomp_unit(dm, s[i]));
}

/// The packed lead and trail combining classes the FCD check uses for a
/// codepoint: the table's pair where present, else the codepoint's own class
/// for both.
pub open spec fn fcd_pair(fm: Map<u32, u16>, c: u32) -> (u8, u8) {
    if fm.contains_key(c) {
        (((fm[c] >> 8) as u8), ((fm[c] & 0xFF) as u8))
    } else {
        (ccc(c), ccc(c))
    }
}

/// The FCD scan from position `i`, carrying the previous trail class:
/// codepoints below 0xC0 reset the class; Hangul syllables and the one
/// decomposition-excluded codepoint fail; otherwise a non-zero lead class
/// smaller than the previous trail class fails.
pub open spec fn fcd_from(fm: Map<u32, u16>, s: Seq<u32>, i: int, prev: u8) -> bool
    decreases s.len() - i,
{
    if i < 0 || i >= s.len() {
        true
    } else {
        let c = s[i];
        if c < 0xC0 {
            fcd_from(fm, s, i + 1, 0)
        } else if c == 0x0F81 || is_hangul_syllable(c) {
            false
        } else if fcd_pair(fm, c).0 != 0 && fcd_pair(fm, c).0 < prev {
            false
        } else {
            fcd_from(fm, s, i + 1, fcd_pair(fm, c).1)
        }
    }
}

/// Whether a sequence passes the FCD check, meaning it is already in
/// canonical order and full decomposition can be skipped.
pub open spec fn spec_fcd(fm: Map<u32, u16>, s: Seq<u32>) -> bool {
    fcd_from(fm, s, 0, 0)
}

/// A sequence with the adjacent elements at `i - 1` and `i` exchanged.
pub open spec fn swap_adj(s: Seq<u32>, i: int) -> Seq<u32> {
    s.update(i - 1, s[i]).update(i, s[i - 1])
}

/// One bubble pass over the window of pairs `(i - 1, i)` for `i` below `n`:
/// pairs whose right element has combining class zero are skipped two at a
/// time, pairs already in order advance by one, and an out-of-order pair of
/// non-zero classes is swapped, recording the swap position. Returns the
/// passed sequence and the last swap position (zero when none happened).
pub open spec fn bubble_pass(s: Seq<u32>, i: int, n: int, last: int) -> (Seq<u32>, int)
    decreases (if n - i >= 0 { n - i } else { 0 }),
{
    if i < 1 || i >= n {
        (s, last)
    } else if ccc(s[i]) == 0 {
        bubble_pass(s, i + 2, n, last)
    } else if ccc(s[i - 1]) == 0 || ccc(s[i - 1]) <= ccc(s[i]) {
        bubble_pass(s, i + 1, n, last)
    } else {
        bubble_pass(swap_adj(s, i), i + 1, n, i)
    }
}

/// Repeated bubble passes over a shrinking window: each pass scans up to the
/// previous pass's last swap position, and the loop ends when a pass swaps
/// nothing.
pub open spec fn bubble(s: Seq<u32>, n: int) -> Seq<u32>
    decreases (if n >= 0 { n } else { 0 }),
    when n <= s.len()
    via bubble_decreases
{
    if n <= 1 {
        s
    } else {
        bubble(bubble_pass(s, 1, n, 0).0, bubble_pass(s, 1, n, 0).1)
    }
}

/// A pass's last swap position stays within the window, and the pass keeps
/// the sequence's length.
pub proof fn lemma_bubble_pass_frame(s: Seq<u32>, i: int, n: int, last: int)
    requires
        0 <= last < n,
        1 <= i,
        n <= s.len(),
    ensures
        0 <= bubble_pass(s, i, n, last).1 < n,
        bubble_pass(s, i, n, last).0.len() == s.len(),
    decreases (if n - i >= 0 { n - i } else { 0 }),
{
    if 1 <= i < n {
        if ccc(s[i]) == 0 {
            lemma_bubble_pass_frame(s, i + 2, n, last);
        } else if ccc(s[i - 1]) == 0 || ccc(s[i - 1]) <= ccc(s[i]) {
            lemma_bubble_pass_frame(s, i + 1, n, last);
        } else {
            assert(swap_adj(s, i).len() == s.len());
            lemma_bubble_pass_frame(swap_adj(s, i), i + 1, n, i);
        }
    }
}

#[via_fn]
proof fn bubble_decreases(s: Seq<u32>, n: int) {
    if n > 1 {
        lemma_bubble_pass_frame(s, 1, n, 0);
    }
}

/// The canonical reordering of a sequence.
pub open spec fn spec_reorder(s: Seq<u32>) -> Seq<u32> {
    bubble(s, s.len() as int)
}

/// Reordering keeps the sequence's length.
pub proof fn lemma_bubble_len(s: Seq<u32>, n: int)
    requires
        n <= s.len(),
    ensures
        bubble(s, n).len() == s.len(),
    decreases (if n >= 0 { n } else { 0 }),
{
    if n > 1 {
        lemma_bubble_pass_frame(s, 1, n, 0);
        lemma_bubble_len(bubble_pass(s, 1, n, 0).0, bubble_pass(s, 1, n, 0).1);
    }
}

/// What normalization produces and when the FCD fast-accept applies.
impl NormData {
    /// The canonical decomposed form of a sequence under this data set: the
    /// sequence itself when the FCD check accepts it, else its full
    /// decomposition, canonically reordered.
    pub open spec fn spec_nfd(self, s: Seq<u32>) -> Seq<u32> {
        if spec_fcd(self.fcd@, s) {
            s
        } else {
            spec_reorder(decomp_seq(self.decomp@, s))
        }
    }

    /// A codepoint that decomposition leaves alone.
    pub open spec fn is_terminal(self, c: u32) -> bool {
        c < 0xC0 || (!is_hangul_syllable(c) && !self.decomp@.contains_key(c))
    }

    /// Well-formed normalization data: every replacement sequence is
    /// non-empty and already fully decomposed, and no conjoining Jamo has an
    /// entry of its own.
    pub open spec fn wf(self) -> bool {
        forall|k: u32| #[trigger]
            self.decomp@.contains_key(k) ==> {
                &&& self.decomp@[k]@.len() >= 1
                &&& !(0x1100 <= k <= 0x11C2)
                &&& forall|j: int|
                    0 <= j < self.decomp@[k]@.len() ==> self.is_terminal(
                        #[trigger] self.decomp@[k]@[j],
                    )
            }
    }
}

/// The Hangul decomposition of one syllable, as the count of Jamo produced
/// and a buffer holding them.
pub fn decompose_jamo(s: u32) -> (r: (usize, [u32; 3]))
    requires
        is_hangul_syllable(s),
    ensures
        r.0 == spec_jamo(s).len(),
        r.1@.take(r.0 as int) == spec_jamo(s),
{
    let s_index = s - 0xAC00;
    let l_part = 0x1100 + s_index / 588;
    let v_part = 0x1161 + (s_index % 588) / 28;
    if s_index % 28 == 0 {
        let arr = [l_part, v_part, 0];
        proof {
            assert(arr@.take(2) =~= spec_jamo(s));
        }
        (2, arr)
    } else {
        let t_part = 0x11A7 + s_index % 28;
        let arr = [l_part, v_part, t_part];
        proof {
            assert(arr@.take(3) =~= spec_jamo(s));
        }
        (3, arr)
    }
}

/// Full canonical decomposition, in place.
pub fn decompose(input: &mut Vec<u32>, d: &NormData)
    ensures
        final(input)@ == decomp_seq(d.decomp@, old(input)@),
{
    let mut out: Vec<u32> = Vec::new();
    let n = input.len();
    let mut i: usize = 0;
    proof {
        assert(input@.take(0) =~= Seq::<u32>::empty());
    }
    while i < n
        invariant
            i <= n,
            n == input@.len(),
            input@ == old(input)@,
            out@ == decomp_seq(d.decomp@, input@.take(i as int)),
        decreases n - i,
    {
        let c = input[i];
        proof {
            lemma_decomp_seq_snoc(d.decomp@, input@, i as int);
        }
        if c < 0xC0 {
            out.push(c);
            proof {
                assert(decomp_unit(d.decomp@, c) =~= seq![c]);
            }
        } else if 0xAC00 <= c && c <= 0xD7A3 {
            let (len, arr) = decompose_jamo(c);
            out.push(arr[0]);
            out.push(arr[1]);
            if len == 3 {
                out.push(arr[2]);
                proof {
                    assert(arr@.take(3) =~= seq![arr@[0], arr@[1], arr@[2]]);
                }
            } else {
                proof {
                    assert(arr@.take(2) =~= seq![arr@[0], arr@[1]]);
                }
            }
        } else {
            let rep = d.decomp.get(&c);
            match rep {
                Some(rep) => {
                    out.extend_from_slice(rep.as_slice());
                },
                None => {
                    out.push(c);
                    proof {
                        assert(decomp_unit(d.decomp@, c) =~= seq![c]);
                    }
                },
            }
        }
        i = i + 1;
        proof {
            assert(out@ == decomp_seq(d.decomp@, input@.take(i as int)));
        }
    }
    proof {
        assert(input@.take(n as int) =~= input@);
    }
    *input = out;
}

/// The FCD check.
pub fn fcd(input: &Vec<u32>, d: &NormData) -> (r: bool)
    ensures
        r == spec_fcd(d.fcd@, input@),
{
    let mut prev_trail_cc: u8 = 0;
    let mut i: usize = 0;
    while i < input.len()
        invariant
            i <= input@.len(),
            spec_fcd(d.fcd@, input@) == fcd_from(d.fcd@, input@, i as int, prev_trail_cc),
        decreases input@.len() - i,
    {
        let c = input[i];
        if c < 0xC0 {
            prev_trail_cc = 0;
            i = i + 1;
            continue ;
        }
        if c == 0x0F81 || (0xAC00 <= c && c <= 0xD7A3) {
            return false;
        }
        let (lead_cc, trail_cc) = match d.fcd.get(&c) {
            Some(pair) => (((*pair >> 8) as u8), ((*pair & 0xFF) as u8)),
            None => {
                let cc = ccc_exec(c);
                (cc, cc)
            },
        };
        if lead_cc != 0 && lead_cc < prev_trail_cc {
            return false;
        }
        prev_trail_cc = trail_cc;
        i = i + 1;
    }
    true
}

/// Canonical reordering by bubble passes over a shrinking window. The
/// window-shrinking bubble is kept deliberately: combining-mark runs are
/// short, and the pass order realizes the stable reordering the spec
/// functions describe.
pub fn reorder(input: &mut Vec<u32>)
    ensures
        final(input)@ == spec_reorder(old(input)@),
        final(input)@.len() == old(input)@.len(),
{
    let ghost orig = input@;
    let mut n: usize = input.len();
    while n > 1
        invariant
            n <= input@.len(),
            input@.len() == orig.len(),
            spec_reorder(orig) == bubble(input@, n as int),
        decreases n,
    {
        let ghost s0 = input@;
        let mut new_n: usize = 0;
        let mut i: usize = 1;
        while i < n
            invariant
                1 <= i,
                new_n < n,
                n <= input@.len(),
                input@.len() == s0.len(),
                bubble_pass(s0, 1, n as int, 0) == bubble_pass(
                    input@,
                    i as int,
                    n as int,
                    new_n as int,
                ),
            decreases n - i,
        {
            let ccc_b = ccc_exec(input[i]);
            if ccc_b == 0 {
                proof {
                    assert(bubble_pass(input@, i as int, n as int, new_n as int) == bubble_pass(
                        input@,
                        i as int + 2,
                        n as int,
                        new_n as int,
                    ));
                    if i + 1 >= n {
                        assert(bubble_pass(input@, i as int + 2, n as int, new_n as int) == (
                        input@,
                        new_n as int,
                        ));
                        assert(bubble_pass(input@, n as int, n as int, new_n as int) == (
                        input@,
                        new_n as int,
                        ));
                    }
                }
                i = if i + 1 < n {
                    i + 2
                } else {
                    n
                };
                continue ;
            }
            let ccc_a = ccc_exec(input[i - 1]);
            if ccc_a == 0 || ccc_a <= ccc_b {
                proof {
                    assert(bubble_pass(input@, i as int, n as int, new_n as int) == bubble_pass(
                        input@,
                        i as int + 1,
                        n as int,
                        new_n as int,
                    ));
                }
                i = i + 1;
                continue ;
            }
            let ghost before = input@;
            let va = input[i - 1];
            let vb = input[i];
            input[i - 1] = vb;
            input[i] = va;
            proof {
                assert(input@ =~= swap_adj(before, i as int));
                assert(bubble_pass(before, i as int, n as int, new_n as int) == bubble_pass(
                    swap_adj(before, i as int),
                    i as int + 1,
                    n as int,
                    i as int,
                ));
            }
            new_n = i;
            i = i + 1;
        }
        proof {
            assert(bubble_pass(input@, i as int, n as int, new_n as int) == (
            input@,
            new_n as int,
            ));
            assert(bubble(s0, n as int) == bubble(input@, new_n as int));
        }
        n = new_n;
    }
    proof {
        assert(bubble(input@, n as int) == input@);
    }
}

/// Canonical normalization: FCD fast-accept, else full decomposition and
/// canonical reordering.
pub fn make_nfd(input: &mut Vec<u32>, d: &NormData)
    ensures
        final(input)@ == d.spec_nfd(old(input)@),
{
    if fcd(input, d) {
        return ;
    }
    decompose(input, d);
    reorder(input);
}

} // verus!
