//! A locale-aware string collation engine implementing the Unicode Collation
//! Algorithm (UCA): canonical normalization, table-driven collation-element
//! generation with contraction support, multi-level incremental comparison,
//! and sort-key materialization whose lexicographic order reproduces the
//! comparator's order.
//!
//! The engine consumes already-decoded tailoring tables (see [`tables`]) and
//! is total over arbitrary 32-bit codepoint sequences: codepoints absent from
//! the tables fall back to the algorithmic implied weights. The properties
//! the engine maintains are stated and proved in [`laws`].

pub mod ascii;
pub mod cea;
pub mod collate;
pub mod decode;
pub mod first_weight;
pub mod laws;
pub mod normalize;
pub mod order;
pub mod prefix;
pub mod sort_key;
pub mod tables;
pub mod types;
pub mod weights;
pub mod xfrm;
