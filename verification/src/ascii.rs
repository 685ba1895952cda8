//! The fast-path scanner: resolves the ordering of a pair of sequences that
//! stay within the ASCII alphanumeric range by case-folded comparison with a
//! length and reversed-case tie-break, bypassing the rest of the engine.

use vstd::prelude::*;
use core::cmp::Ordering;
use crate::order::{cmp3, cmp_u32, cmp_usize};

verus! {

/// Whether a codepoint is an ASCII digit or letter: within 0x30..=0x7A,
/// excluding the punctuation ranges 0x3A..=0x40 and 0x5B..=0x60.
pub open spec fn spec_alnum(c: u32) -> bool {
    0x30 <= c <= 0x7A && !(0x3A <= c <= 0x40) && !(0x5B <= c <= 0x60)
}

/// Case folding within the scanned range: codepoints above 0x5A (the ASCII
/// lowercase letters) are mapped to their uppercase form 0x20 below.
pub open spec fn spec_fold(c: u32) -> int {
    if c > 0x5A {
        c - 0x20
    } else {
        c as int
    }
}

/// The scan outcome once one side is exhausted without either side leaving
/// the alphanumeric run: length comparison, then the recorded reversed-case
/// tie-break.
pub open spec fn fastpath_end(a: Seq<u32>, b: Seq<u32>, backup: Option<Ordering>) -> Option<
    Ordering,
> {
    if a.len() != b.len() {
        Some(cmp3(a.len() as int, b.len() as int))
    } else {
        backup
    }
}

/// The pairwise fast-path scan from position `i` on: both sides are
/// consumed in lock-step while they remain ASCII alphanumeric. Leaving the
/// run on either side yields no decision (`None`). Equal codepoints
/// continue; case-fold-equivalent codepoints continue after recording a
/// tentative reversed-order tie-break; a genuine folded difference decides
/// immediately by folded value. Exhaustion of either side decides by length
/// and then by the recorded tie-break.
pub open spec fn fastpath_from(a: Seq<u32>, b: Seq<u32>, i: int, backup: Option<Ordering>) -> Option<
    Ordering,
>
    decreases a.len() - i,
{
    if i < 0 || i >= a.len() {
        fastpath_end(a, b, backup)
    } else if !spec_alnum(a[i]) {
        None
    } else if i >= b.len() {
        fastpath_end(a, b, backup)
    } else if !spec_alnum(b[i]) {
        None
    } else if a[i] == b[i] {
        fastpath_from(a, b, i + 1, backup)
    } else if spec_fold(a[i]) == spec_fold(b[i]) {
        fastpath_from(
            a,
            b,
            i + 1,
            if backup is None {
                Some(cmp3(b[i] as int, a[i] as int))
            } else {
                backup
            },
        )
    } else {
        Some(cmp3(spec_fold(a[i]), spec_fold(b[i])))
    }
}

/// What the fast-path scanner decides for a pair of sequences.
pub open spec fn spec_fastpath(a: Seq<u32>, b: Seq<u32>) -> Option<Ordering> {
    fastpath_from(a, b, 0, None)
}

pub fn ascii_alphanumeric(c: u32) -> (r: bool)
    ensures
        r == spec_alnum(c),
{
    (0x30 <= c && c <= 0x7A) && !(0x3A <= c && c <= 0x40) && !(0x5B <= c && c <= 0x60)
}

/// The scan itself, without the copying.
fn fastpath_scan(a: &[u32], b: &[u32]) -> (r: Option<Ordering>)
    ensures
        r == spec_fastpath(a@, b@),
{
    let mut i: usize = 0;
    let mut backup: Option<Ordering> = None;
    loop
        invariant
            i <= a.len(),
            i <= b.len(),
            spec_fastpath(a@, b@) == fastpath_from(a@, b@, i as int, backup),
        decreases a.len() - i,
    {
        if i >= a.len() {
            if a.len() != b.len() {
                return Some(cmp_usize(a.len(), b.len()));
            }
            return backup;
        }
        let x = a[i];
        if !ascii_alphanumeric(x) {
            return None;
        }
        if i >= b.len() {
            if a.len() != b.len() {
                return Some(cmp_usize(a.len(), b.len()));
            }
            return backup;
        }
        let y = b[i];
        if !ascii_alphanumeric(y) {
            return None;
        }
        if x != y {
            let xf = if x > 0x5A {
                x - 0x20
            } else {
                x
            };
            let yf = if y > 0x5A {
                y - 0x20
            } else {
                y
            };
            if xf != yf {
                return Some(cmp_u32(xf, yf));
            }
            if backup.is_none() {
                backup = Some(cmp_u32(y, x));
            }
        }
        i = i + 1;
    }
}

/// Single-sequence fast-path fill: copies the whole sequence into the
/// scratch buffer ahead of normalization.
pub fn fill(s: &[u32], s_chars: &mut Vec<u32>)
    ensures
        final(s_chars)@ == old(s_chars)@ + s@,
{
    s_chars.extend_from_slice(s);
}

/// Pairwise fast-path scan and fill: copies both sequences into the scratch
/// buffers and reports the scanner's decision, `None` meaning the engine
/// must continue to normalization and weight generation.
pub fn fill_and_check(a: &[u32], b: &[u32], a_chars: &mut Vec<u32>, b_chars: &mut Vec<u32>) -> (r:
    Option<Ordering>)
    ensures
        r == spec_fastpath(a@, b@),
        final(a_chars)@ == old(a_chars)@ + a@,
        final(b_chars)@ == old(b_chars)@ + b@,
{
    let r = fastpath_scan(a, b);
    a_chars.extend_from_slice(a);
    b_chars.extend_from_slice(b);
    r
}

} // verus!
