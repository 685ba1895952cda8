//! Packed multi-level weight records.
//!
//! A collation element is packed into one `u32`:
//! bit 31 is the variable-weight flag, bits 15..31 the 16-bit primary
//! weight, bits 6..15 the 9-bit secondary weight, bits 0..6 the 6-bit
//! tertiary weight.
//!
//! Under the shifting policy a variable record contributes nothing at the
//! primary, secondary and tertiary levels; instead its primary weight
//! reappears as its quaternary weight, while non-variable records carry no
//! quaternary weight at all. Weights of value zero carry no ordering
//! information at any level.

use vstd::prelude::*;

verus! {

/// The variable-weight flag of a packed record.
pub open spec fn spec_variable(w: u32) -> bool {
    w >> 31 == 1u32
}

/// The primary weight of a packed record.
pub open spec fn spec_primary(w: u32) -> u32 {
    (w >> 15) & 0xFFFF
}

/// The secondary weight of a packed record.
pub open spec fn spec_secondary(w: u32) -> u32 {
    (w >> 6) & 0x1FF
}

/// The tertiary weight of a packed record.
pub open spec fn spec_tertiary(w: u32) -> u32 {
    w & 0x3F
}

/// The weight a packed record contributes at a level (1 to 4) under the
/// given shifting policy.
pub open spec fn spec_level_weight(w: u32, level: int, shifting: bool) -> u32 {
    if level == 1 {
        if shifting && spec_variable(w) {
            0
        } else {
            spec_primary(w)
        }
    } else if level == 2 {
        if shifting && spec_variable(w) {
            0
        } else {
            spec_secondary(w)
        }
    } else if level == 3 {
        if shifting && spec_variable(w) {
            0
        } else {
            spec_tertiary(w)
        }
    } else {
        if spec_variable(w) {
            spec_primary(w)
        } else {
            0
        }
    }
}

pub fn variable_of(w: u32) -> (r: bool)
    ensures
        r == spec_variable(w),
{
    w >> 31 == 1
}

pub fn primary_of(w: u32) -> (r: u32)
    ensures
        r == spec_primary(w),
{
    (w >> 15) & 0xFFFF
}

pub fn secondary_of(w: u32) -> (r: u32)
    ensures
        r == spec_secondary(w),
{
    (w >> 6) & 0x1FF
}

pub fn tertiary_of(w: u32) -> (r: u32)
    ensures
        r == spec_tertiary(w),
{
    w & 0x3F
}

pub fn level_weight(w: u32, level: u8, shifting: bool) -> (r: u32)
    requires
        1 <= level <= 4,
    ensures
        r == spec_level_weight(w, level as int, shifting),
{
    if level == 1 {
        if shifting && variable_of(w) {
            0
        } else {
            primary_of(w)
        }
    } else if level == 2 {
        if shifting && variable_of(w) {
            0
        } else {
            secondary_of(w)
        }
    } else if level == 3 {
        if shifting && variable_of(w) {
            0
        } else {
            tertiary_of(w)
        }
    } else {
        if variable_of(w) {
            primary_of(w)
        } else {
            0
        }
    }
}

/// Packs a weight record from its levels. The secondary weight must fit in
/// 9 bits and the tertiary in 6.
pub fn pack_weights(variable: bool, primary: u16, secondary: u16, tertiary: u16) -> (w: u32)
    requires
        secondary < 0x200,
        tertiary < 0x40,
    ensures
        spec_variable(w) == variable,
        spec_primary(w) == primary,
        spec_secondary(w) == secondary,
        spec_tertiary(w) == tertiary,
{
    let v: u32 = if variable {
        0x8000_0000
    } else {
        0
    };
    let w = v | ((primary as u32) << 15) | ((secondary as u32) << 6) | (tertiary as u32);
    proof {
        assert(spec_variable(w) == variable && spec_primary(w) == primary && spec_secondary(w)
            == secondary && spec_tertiary(w) == tertiary) by (bit_vector)
            requires
                secondary < 0x200,
                tertiary < 0x40,
                w == (if variable {
                    0x8000_0000u32
                } else {
                    0u32
                }) | ((primary as u32) << 15) | ((secondary as u32) << 6) | (tertiary as u32),
        ;
    }
    w
}

/// The first implied-weight record for a codepoint absent from the tables,
/// per the standard derived-weight rule: primary 0xFBC0 plus the codepoint's
/// high bits (reduced to the 16-bit field), secondary 0x20, tertiary 0x02.
pub open spec fn spec_implied_first(c: u32) -> u32 {
    ((((0xFBC0 + (c >> 15)) as u32) % 0x10000) << 15) | (0x20u32 << 6) | 0x02
}

/// The second implied-weight record: primary is the codepoint's low 15 bits
/// with the high bit set; no secondary or tertiary weight.
pub open spec fn spec_implied_second(c: u32) -> u32 {
    ((c & 0x7FFF) | 0x8000) << 15
}

/// The two-record implied weight sequence for an unassigned codepoint.
pub open spec fn spec_implied(c: u32) -> Seq<u32> {
    seq![spec_implied_first(c), spec_implied_second(c)]
}

pub fn implied_first(c: u32) -> (w: u32)
    ensures
        w == spec_implied_first(c),
{
    proof {
        assert(c >> 15 <= 0x1FFFF) by (bit_vector);
    }
    (((0xFBC0 + (c >> 15)) % 0x10000) << 15) | (0x20u32 << 6) | 0x02
}

pub fn implied_second(c: u32) -> (w: u32)
    ensures
        w == spec_implied_second(c),
{
    ((c & 0x7FFF) | 0x8000) << 15
}

} // verus!
