//! Verified core of a context-document generator.
//!
//! The library scans text for fold regions delimited by the literal
//! markers `<ctxgen:fold>` and `</ctxgen:fold>`, replaces each region
//! with a placeholder describing what was hidden, renders each file as
//! a tagged block, and joins the blocks into one document in a
//! deterministic order.

pub mod folds;
pub mod generate;
pub mod laws;
pub mod numerals;
pub mod render;
pub mod text;
