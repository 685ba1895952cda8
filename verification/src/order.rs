//! Three-way comparison helpers: integer comparison and lexicographic
//! comparison of codepoint or weight sequences.

use vstd::prelude::*;
use core::cmp::Ordering;

verus! {

/// The three-way comparison of two integers.
pub open spec fn cmp3(x: int, y: int) -> Ordering {
    if x < y {
        Ordering::Less
    } else if x == y {
        Ordering::Equal
    } else {
        Ordering::Greater
    }
}

/// The reversed ordering.
pub open spec fn rev3(o: Ordering) -> Ordering {
    match o {
        Ordering::Less => Ordering::Greater,
        Ordering::Equal => Ordering::Equal,
        Ordering::Greater => Ordering::Less,
    }
}

/// Lexicographic three-way comparison of two sequences: the first position
/// where they differ decides; a strict prefix orders before its extension.
pub open spec fn lex3(x: Seq<u32>, y: Seq<u32>) -> Ordering
    decreases x.len(),
{
    if x.len() == 0 && y.len() == 0 {
        Ordering::Equal
    } else if x.len() == 0 {
        Ordering::Less
    } else if y.len() == 0 {
        Ordering::Greater
    } else if x[0] != y[0] {
        cmp3(x[0] as int, y[0] as int)
    } else {
        lex3(x.drop_first(), y.drop_first())
    }
}

pub fn cmp_u32(x: u32, y: u32) -> (r: Ordering)
    ensures
        r == cmp3(x as int, y as int),
{
    if x < y {
        Ordering::Less
    } else if x == y {
        Ordering::Equal
    } else {
        Ordering::Greater
    }
}

pub fn cmp_usize(x: usize, y: usize) -> (r: Ordering)
    ensures
        r == cmp3(x as int, y as int),
{
    if x < y {
        Ordering::Less
    } else if x == y {
        Ordering::Equal
    } else {
        Ordering::Greater
    }
}

/// Lexicographic three-way comparison of two sequences.
pub fn lex_compare_u32(a: &[u32], b: &[u32]) -> (r: Ordering)
    ensures
        r == lex3(a@, b@),
{
    let mut i: usize = 0;
    proof {
        assert(a@.skip(0) =~= a@);
        assert(b@.skip(0) =~= b@);
    }
    loop
        invariant
            i <= a.len(),
            i <= b.len(),
            lex3(a@, b@) == lex3(a@.skip(i as int), b@.skip(i as int)),
        decreases a.len() - i,
    {
        proof {
            if i < a.len() {
                assert(a@.skip(i as int).drop_first() =~= a@.skip(i as int + 1));
            }
            if i < b.len() {
                assert(b@.skip(i as int).drop_first() =~= b@.skip(i as int + 1));
            }
        }
        if i >= a.len() || i >= b.len() {
            return cmp_usize(a.len(), b.len());
        }
        if a[i] != b[i] {
            return cmp_u32(a[i], b[i]);
        }
        i = i + 1;
    }
}

/// Whether two sequences are equal, element by element.
pub fn seq_equal_u32(a: &[u32], b: &[u32]) -> (r: bool)
    ensures
        r == (a@ == b@),
{
    if a.len() != b.len() {
        proof {
            assert(a@.len() != b@.len());
        }
        return false;
    }
    let mut i: usize = 0;
    while i < a.len()
        invariant
            i <= a.len(),
            a@.len() == b@.len(),
            forall|j: int| 0 <= j < i ==> a@[j] == b@[j],
        decreases a.len() - i,
    {
        if a[i] != b[i] {
            return false;
        }
        i = i + 1;
    }
    proof {
        assert(a@ =~= b@);
    }
    true
}

/// Whether two byte sequences are equal, element by element.
pub fn seq_equal_u8(a: &[u8], b: &[u8]) -> (r: bool)
    ensures
        r == (a@ == b@),
{
    if a.len() != b.len() {
        proof {
            assert(a@.len() != b@.len());
        }
        return false;
    }
    let mut i: usize = 0;
    while i < a.len()
        invariant
            i <= a.len(),
            a@.len() == b@.len(),
            forall|j: int| 0 <= j < i ==> a@[j] == b@[j],
        decreases a.len() - i,
    {
        if a[i] != b[i] {
            return false;
        }
        i = i + 1;
    }
    proof {
        assert(a@ =~= b@);
    }
    true
}

/// Reversing the arguments of a lexicographic comparison reverses its
/// result.
pub proof fn lemma_lex3_antisymmetric(x: Seq<u32>, y: Seq<u32>)
    ensures
        lex3(y, x) == rev3(lex3(x, y)),
    decreases x.len(),
{
    if x.len() != 0 && y.len() != 0 && x[0] == y[0] {
        lemma_lex3_antisymmetric(x.drop_first(), y.drop_first());
    }
}

/// A lexicographic comparison reports `Equal` exactly on equal sequences.
pub proof fn lemma_lex3_equal(x: Seq<u32>, y: Seq<u32>)
    ensures
        lex3(x, y) == Ordering::Equal <==> x == y,
    decreases x.len(),
{
    if x.len() == 0 && y.len() == 0 {
        assert(x =~= y);
    }
    if x.len() != 0 && y.len() != 0 && x[0] == y[0] {
        lemma_lex3_equal(x.drop_first(), y.drop_first());
        if x.drop_first() == y.drop_first() {
            assert forall|j: int| 0 <= j < x.len() implies x[j] == y[j] by {
                if j > 0 {
                    assert(x[j] == x.drop_first()[j - 1]);
                    assert(y[j] == y.drop_first()[j - 1]);
                }
            }
            assert(x =~= y);
        }
        if x == y {
            assert(x.drop_first() =~= y.drop_first());
        }
    }
    if x == y && x.len() != 0 {
        assert(x[0] == y[0]);
    }
}

/// Lexicographic comparison is transitive.
pub proof fn lemma_lex3_transitive(x: Seq<u32>, y: Seq<u32>, z: Seq<u32>)
    requires
        lex3(x, y) != Ordering::Greater,
        lex3(y, z) != Ordering::Greater,
    ensures
        lex3(x, z) != Ordering::Greater,
        lex3(x, y) == Ordering::Less || lex3(y, z) == Ordering::Less ==> lex3(x, z)
            == Ordering::Less,
    decreases x.len() + y.len() + z.len(),
{
    if x.len() == 0 {
        if z.len() != 0 {
            // x is empty and z is not: x orders strictly before z
            if y.len() != 0 {
            }
        }
    } else {
        // x nonempty; lex3(x, y) != Greater forces y nonempty
        if x[0] == y[0] && y[0] == z[0] {
            lemma_lex3_transitive(x.drop_first(), y.drop_first(), z.drop_first());
        }
    }
}

} // verus!
