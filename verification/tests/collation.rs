use core::cmp::Ordering;

use uca_collate::ascii::{fill, fill_and_check};
use uca_collate::cea::generate_cea;
use uca_collate::collate::Collator;
use uca_collate::normalize::make_nfd;
use uca_collate::weights::{implied_first, implied_second, primary_of, secondary_of, tertiary_of,
    variable_of};
use uca_collate::prefix::find_prefix;
use uca_collate::tables::{NormData, WeightTables, key2, key3};
use uca_collate::types::{Locale, Tailoring};
use uca_collate::weights::pack_weights;
use uca_collate::xfrm::SortKey;

fn cps(s: &str) -> Vec<u32> {
    s.chars().map(|c| c as u32).collect()
}

fn empty_collator(shifting: bool, tiebreak: bool) -> Collator {
    Collator::new(
        Tailoring::default(),
        shifting,
        tiebreak,
        NormData::new(),
        WeightTables::new(),
    )
}

/// A small tailoring for ASCII letters and the space, with case carried at
/// the tertiary level (lowercase below uppercase) and the space variable.
fn letter_tables() -> WeightTables {
    let mut t = WeightTables::new();
    for (i, c) in (b'a'..=b'z').enumerate() {
        let p = 0x1000 + 0x10 * i as u16;
        t.insert_single(c as u32, vec![pack_weights(false, p, 0x20, 0x02)]);
        let upper = (c - 0x20) as u32;
        t.insert_single(upper, vec![pack_weights(false, p, 0x20, 0x08)]);
    }
    t.insert_single(0x20, vec![pack_weights(true, 0x0209, 0x20, 0x02)]);
    t.mark_variable(0x20);
    t
}

/// Normalization data with one canonical decomposition: a letter with a
/// combining mark above, plus its packed lead/trail class pair so the FCD
/// check knows the mark hidden at its end.
fn dot_above_norm() -> NormData {
    let mut d = NormData::new();
    // 0x1E0A decomposes to D (0x44) followed by combining dot above (0x307,
    // combining class 230); its FCD pair is lead 0, trail 230.
    d.insert_decomp(0x1E0A, vec![0x44, 0x307]);
    d.insert_fcd(0x1E0A, 230);
    d
}

#[test]
fn empty_inputs_equal() {
    let mut c = empty_collator(true, true);
    assert_eq!(c.collate_u32(&[], &[]), Ordering::Equal);
    let mut x = SortKey::new(
        Tailoring::default(),
        true,
        true,
        NormData::new(),
        WeightTables::new(),
    );
    let key = x.get_sortkey_u32(&[]);
    assert_eq!(key.len(), 0);
    let bkey = x.get_sortkey_u8(b"");
    assert_eq!(bkey.len(), 0);
}

#[test]
fn identity_fast_path() {
    // equal inputs are resolved by the identity check alone: even with no
    // tables at all, and with codepoints the fast path rejects, the answer
    // is Equal
    let mut c = empty_collator(true, true);
    let mut big: Vec<u32> = Vec::new();
    for i in 0..50_000u32 {
        big.push(0xAC00 + (i % 11_172));
        big.push(0x0301);
    }
    let copy = big.clone();
    assert_eq!(c.collate_u32(&big, &copy), Ordering::Equal);
}

#[test]
fn ascii_case_fastpath() {
    // resolved by the fast-path scanner's tentative reversed-case tie-break:
    // the tables are empty, so nothing else could order them
    let mut c = empty_collator(true, true);
    assert_eq!(c.collate_u32(&cps("file"), &cps("FILE")), Ordering::Less);
    assert_eq!(c.collate_u32(&cps("FILE"), &cps("file")), Ordering::Greater);
    assert_eq!(c.collate_u8(b"file", b"FILE"), Ordering::Less);
}

#[test]
fn ascii_fold_and_length_fastpath() {
    let mut c = empty_collator(true, true);
    assert_eq!(c.collate_u32(&cps("abc"), &cps("abd")), Ordering::Less);
    assert_eq!(c.collate_u32(&cps("abcd"), &cps("abc")), Ordering::Greater);
    assert_eq!(c.collate_u32(&cps("ab"), &cps("abc")), Ordering::Less);
    // case-fold equivalence defers to the folded comparison of a later
    // genuine difference
    assert_eq!(c.collate_u32(&cps("aBc"), &cps("Abd")), Ordering::Less);
}

#[test]
fn canonical_equivalence_without_tiebreak() {
    // 0x1E0A followed by a low mark fails the FCD check, decomposes and
    // reorders to the same normalized form as its spelled-out version
    let mut c = Collator::new(
        Tailoring::Ducet,
        true,
        false,
        dot_above_norm(),
        letter_tables(),
    );
    let a = vec![0x1E0A, 0x316];
    let b = vec![0x44, 0x307, 0x316];
    assert_eq!(c.collate_u32(&a, &b), Ordering::Equal);
}

#[test]
fn tiebreak_orders_by_first_raw_divergence() {
    let mut c = Collator::new(
        Tailoring::Ducet,
        true,
        true,
        dot_above_norm(),
        letter_tables(),
    );
    let a = vec![0x1E0A, 0x316];
    let b = vec![0x44, 0x307, 0x316];
    // canonically equivalent but distinct: the first diverging raw
    // codepoints are 0x1E0A and 0x44
    assert_eq!(c.collate_u32(&a, &b), Ordering::Greater);
    assert_eq!(c.collate_u32(&b, &a), Ordering::Less);
}

#[test]
fn normalization_is_idempotent() {
    let d = dot_above_norm();
    let mut v = vec![0x1E0A, 0x316];
    make_nfd(&mut v, &d);
    // decomposed, then the marks reordered by combining class (220 before 230)
    assert_eq!(v, vec![0x44, 0x316, 0x307]);
    let once = v.clone();
    make_nfd(&mut v, &d);
    assert_eq!(v, once);
}

#[test]
fn hangul_syllables_decompose() {
    let d = NormData::new();
    let mut lv = vec![0xAC00];
    make_nfd(&mut lv, &d);
    assert_eq!(lv, vec![0x1100, 0x1161]);
    let mut lvt = vec![0xAC01];
    make_nfd(&mut lvt, &d);
    assert_eq!(lvt, vec![0x1100, 0x1161, 0x11A8]);
}

#[test]
fn variable_weight_shifting() {
    // with shifting, the space is demoted to the quaternary level: the pair
    // differs only there, so the sequence with the space orders after
    let mut shifted = Collator::new(
        Tailoring::default(),
        true,
        true,
        NormData::new(),
        letter_tables(),
    );
    assert_eq!(
        shifted.collate_u32(&cps("ab"), &cps("a b")),
        Ordering::Less
    );
    // without shifting the space counts at the primary level, where its
    // weight is below every letter's
    let mut unshifted = Collator::new(
        Tailoring::default(),
        false,
        true,
        NormData::new(),
        letter_tables(),
    );
    assert_eq!(
        unshifted.collate_u32(&cps("ab"), &cps("a b")),
        Ordering::Greater
    );
    // the shifted sort keys agree at the primary, secondary and tertiary
    // levels: the shorter key is a strict prefix of the longer
    let mut x = SortKey::new(
        Tailoring::default(),
        true,
        true,
        NormData::new(),
        letter_tables(),
    );
    let key_ab = x.get_sortkey_u32(&cps("ab"));
    let key_a_b = x.get_sortkey_u32(&cps("a b"));
    assert!(key_ab.len() < key_a_b.len());
    assert_eq!(key_ab[..], key_a_b[..key_ab.len()]);
}

#[test]
fn contraction_produces_one_record() {
    let mut with = letter_tables();
    with.insert_multi(
        key2(0x63, 0x68),
        vec![pack_weights(false, 0x2000, 0x20, 0x02)],
    );
    with.mark_need_two(0x63);
    let chars = vec![0x63u32, 0x68];
    let mut cea: Vec<u32> = Vec::new();
    generate_cea(&mut cea, &chars, &with, 0);
    assert_eq!(cea.len(), 1);
    // the same pair through single-codepoint lookups yields two records
    let without = letter_tables();
    generate_cea(&mut cea, &chars, &without, 0);
    assert_eq!(cea.len(), 2);
}

#[test]
fn contraction_orders_as_tailored() {
    // a contraction anchored at a non-ASCII letter (the ASCII fast path
    // never sees one): the pair's tailored weight outranks the letter's own
    let mut t = letter_tables();
    t.insert_single(0xE7, vec![pack_weights(false, 0x1195, 0x20, 0x02)]);
    t.insert_multi(
        key2(0xE7, 0x68),
        vec![pack_weights(false, 0x2000, 0x20, 0x02)],
    );
    t.mark_need_two(0xE7);
    let mut c = Collator::new(Tailoring::default(), true, true, NormData::new(), t);
    // the contraction's single record, not the two letters' records
    assert_eq!(
        c.collate_u32(&[0xE7, 0x68], &[0xE7, 0x61]),
        Ordering::Greater
    );
    // an unmatched pair still goes through the single-codepoint entries
    assert_eq!(
        c.collate_u32(&[0xE7, 0x61], &[0xE7, 0x7A]),
        Ordering::Less
    );
    assert_eq!(c.collate_u32(&[0xE7], &[0x7A]), Ordering::Greater);
}

fn sign(o: Ordering) -> i32 {
    match o {
        Ordering::Less => -1,
        Ordering::Equal => 0,
        Ordering::Greater => 1,
    }
}

#[test]
fn sort_keys_reproduce_comparison() {
    // sort-key/comparator consistency on concrete pairs, under a
    // case-tertiary tailoring and with the tie-break disabled (canonically
    // equivalent inputs have identical keys)
    let samples = [
        "file", "FILE", "ab", "a b", "abc", "abd", "a", "", "zz", "z z z", "Ab", "aB",
    ];
    for shifting in [true, false] {
        let mut c = Collator::new(
            Tailoring::default(),
            shifting,
            false,
            NormData::new(),
            letter_tables(),
        );
        let mut x = SortKey::new(
            Tailoring::default(),
            shifting,
            false,
            NormData::new(),
            letter_tables(),
        );
        for a in samples {
            for b in samples {
                let cmp = c.collate_u32(&cps(a), &cps(b));
                let ka = x.get_sortkey_u32(&cps(a));
                let kb = x.get_sortkey_u32(&cps(b));
                assert_eq!(
                    sign(cmp),
                    sign(ka.cmp(&kb)),
                    "sort keys disagree on {:?} vs {:?} (shifting {})",
                    a,
                    b,
                    shifting
                );
                let ba = x.get_sortkey_u8(a.as_bytes());
                let bb = x.get_sortkey_u8(b.as_bytes());
                assert_eq!(sign(cmp), sign(ba.cmp(&bb)));
            }
        }
    }
}

#[test]
fn comparator_is_a_total_order_on_samples() {
    let samples = [
        "", "a", "A", "ab", "a b", "AB", "ba", "file", "FILE", "fila", "ch", "z",
    ];
    let mut c = Collator::new(
        Tailoring::default(),
        true,
        true,
        NormData::new(),
        letter_tables(),
    );
    for a in samples {
        assert_eq!(c.collate_u32(&cps(a), &cps(a)), Ordering::Equal);
        for b in samples {
            let ab = c.collate_u32(&cps(a), &cps(b));
            let ba = c.collate_u32(&cps(b), &cps(a));
            assert_eq!(sign(ab), -sign(ba), "{:?} vs {:?}", a, b);
            for z in samples {
                let bz = c.collate_u32(&cps(b), &cps(z));
                let az = c.collate_u32(&cps(a), &cps(z));
                if ab != Ordering::Greater && bz != Ordering::Greater {
                    assert_ne!(az, Ordering::Greater, "{:?} {:?} {:?}", a, b, z);
                }
            }
        }
    }
}

#[test]
fn sort_key_units_and_bytes() {
    let mut x = SortKey::new(
        Tailoring::default(),
        true,
        true,
        NormData::new(),
        letter_tables(),
    );
    // one letter: its primary, secondary and tertiary weights, separated by
    // zeros, trailing zeros trimmed
    let key = x.get_sortkey_u32(&[0x61]);
    assert_eq!(key, vec![0x1000, 0, 0x20, 0, 0x02]);
    let bytes = x.get_sortkey_u8(b"a");
    assert_eq!(bytes, vec![0x10, 0, 0, 0, 0, 0x20, 0, 0, 0, 0x02]);
}

#[test]
fn merge_overrides_entries() {
    let mut t = letter_tables();
    let w = pack_weights(false, 0x7777, 0x21, 0x03);
    t.merge_singles(vec![(0x61, vec![w]), (0x7FFF_0000, vec![w, w])]);
    let mut cea: Vec<u32> = Vec::new();
    generate_cea(&mut cea, &vec![0x61], &t, 0);
    assert_eq!(cea, vec![w]);
    generate_cea(&mut cea, &vec![0x7FFF_0000], &t, 0);
    assert_eq!(cea, vec![w, w]);
}

#[test]
fn packed_weights_round_trip() {
    let w = pack_weights(true, 0xABCD, 0x1FF, 0x3F);
    assert!(variable_of(w));
    assert_eq!(primary_of(w), 0xABCD);
    assert_eq!(secondary_of(w), 0x1FF);
    assert_eq!(tertiary_of(w), 0x3F);
    let v = pack_weights(false, 0, 0, 0);
    assert!(!variable_of(v));
    assert_eq!(primary_of(v), 0);
}

#[test]
fn unassigned_codepoints_get_implied_weights() {
    // two codepoints absent from every table still order deterministically
    // by their implied primaries, which follow the codepoint values
    let mut c = empty_collator(true, false);
    assert_eq!(c.collate_u32(&[0x3B1], &[0x3B2]), Ordering::Less);
    assert_eq!(c.collate_u32(&[0x3B2], &[0x3B1]), Ordering::Greater);
    assert_eq!(c.collate_u32(&[0x1_0000], &[0x3B1]), Ordering::Greater);
}

#[test]
fn collate_u8_decodes_utf8() {
    let mut c = Collator::new(
        Tailoring::default(),
        true,
        false,
        dot_above_norm(),
        letter_tables(),
    );
    // the same canonically equivalent pair, spelled in UTF-8 bytes
    let a = "\u{1E0A}\u{316}".as_bytes();
    let b = "D\u{307}\u{316}".as_bytes();
    assert_eq!(c.collate_u8(a, b), Ordering::Equal);
    assert_eq!(c.collate_u8(b"same", b"same"), Ordering::Equal);
}

#[test]
fn prefix_skip_keeps_shifting_semantics() {
    // a long shared prefix is skipped; the decision still matches the
    // unskipped comparison when the prefix ends in a variable codepoint
    let mut c = Collator::new(
        Tailoring::default(),
        true,
        false,
        NormData::new(),
        letter_tables(),
    );
    let a = cps("alpha beta!a");
    let b = cps("alpha beta!b");
    assert_eq!(c.collate_u32(&a, &b), Ordering::Less);
    let a2 = cps("x a");
    let b2 = cps("x ab");
    assert_eq!(c.collate_u32(&a2, &b2), Ordering::Less);
}

#[test]
fn fill_and_check_copies_everything() {
    let mut sc: Vec<u32> = Vec::new();
    fill(&cps("xyz"), &mut sc);
    assert_eq!(sc, cps("xyz"));
    let mut ac: Vec<u32> = Vec::new();
    let mut bc: Vec<u32> = Vec::new();
    let r = fill_and_check(&cps("a\u{300}z"), &cps("a\u{300}z"), &mut ac, &mut bc);
    assert_eq!(r, None);
    assert_eq!(ac, cps("a\u{300}z"));
    assert_eq!(bc, cps("a\u{300}z"));
}

#[test]
fn default_configuration_types() {
    assert_eq!(Tailoring::default(), Tailoring::Cldr(Locale::Root));
    assert_eq!(Locale::default(), Locale::Root);
}

#[test]
fn prefix_finder_backs_off_before_variables() {
    let t = letter_tables();
    // a fully shared prefix of non-variable letters is skipped whole
    let a = cps("abcx");
    let b = cps("abcy");
    assert_eq!(find_prefix(&a, &b, true, &t), 3);
    // a prefix ending in one variable codepoint keeps that codepoint
    let a = cps("ab x");
    let b = cps("ab y");
    assert_eq!(find_prefix(&a, &b, true, &t), 2);
    // two adjacent variables at the end give the whole prefix up
    let a = cps("a  x");
    let b = cps("a  y");
    assert_eq!(find_prefix(&a, &b, true, &t), 0);
    // without shifting the variable does not matter
    assert_eq!(find_prefix(&a, &b, false, &t), 3);
    // a contraction start stops the raw scan
    let mut t2 = letter_tables();
    t2.mark_need_two(0x62);
    let a = cps("abx");
    let b = cps("aby");
    assert_eq!(find_prefix(&a, &b, true, &t2), 1);
}

#[test]
fn three_codepoint_contraction_wins_over_two() {
    let mut t = letter_tables();
    t.insert_multi(
        key2(0xE7, 0x68),
        vec![pack_weights(false, 0x2000, 0x20, 0x02)],
    );
    t.insert_multi(
        key3(0xE7, 0x68, 0x61),
        vec![pack_weights(false, 0x3000, 0x20, 0x02)],
    );
    t.mark_need_two(0xE7);
    t.mark_need_three(0xE7);
    let mut cea: Vec<u32> = Vec::new();
    // the three-codepoint match folds all three into one record
    generate_cea(&mut cea, &vec![0xE7, 0x68, 0x61], &t, 0);
    assert_eq!(cea.len(), 1);
    assert_eq!(primary_of(cea[0]), 0x3000);
    // with only two codepoints the shorter contraction matches, and the
    // rest goes through the singles
    generate_cea(&mut cea, &vec![0xE7, 0x68, 0x62], &t, 0);
    assert_eq!(cea.len(), 2);
    assert_eq!(primary_of(cea[0]), 0x2000);
}

#[test]
fn merge_multis_overrides_contractions() {
    let mut t = letter_tables();
    t.insert_multi(
        key2(0xE7, 0x68),
        vec![pack_weights(false, 0x2000, 0x20, 0x02)],
    );
    t.mark_need_two(0xE7);
    t.merge_multis(vec![(
        key2(0xE7, 0x68),
        vec![pack_weights(false, 0x2222, 0x20, 0x02)],
    )]);
    let mut cea: Vec<u32> = Vec::new();
    generate_cea(&mut cea, &vec![0xE7, 0x68], &t, 0);
    assert_eq!(cea.len(), 1);
    assert_eq!(primary_of(cea[0]), 0x2222);
}

#[test]
fn implied_weight_formula() {
    // the derived-weight rule: first record 0xFBC0 plus the high bits as
    // primary with secondary 0x20 and tertiary 0x02, second record the low
    // fifteen bits with the high bit set
    let w1 = implied_first(0x3B1);
    assert!(!variable_of(w1));
    assert_eq!(primary_of(w1), 0xFBC0);
    assert_eq!(secondary_of(w1), 0x20);
    assert_eq!(tertiary_of(w1), 0x02);
    let w2 = implied_second(0x3B1);
    assert_eq!(primary_of(w2), 0x83B1);
    assert_eq!(secondary_of(w2), 0);
    assert_eq!(tertiary_of(w2), 0);
    let w1 = implied_first(0x1_0000);
    assert_eq!(primary_of(w1), 0xFBC2);
    let w2 = implied_second(0x1_0000);
    assert_eq!(primary_of(w2), 0x8000);
}
