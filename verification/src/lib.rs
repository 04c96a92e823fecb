//! Unicode-aware, case-insensitive comparison of character streams.
//!
//! The library case-folds streams of code points with the Unicode default
//! case folding, decomposes them into canonical or compatibility
//! decomposition with canonically ordered combining marks, and compares two
//! streams for caseless equality, ordering, or prefix, following the
//! default, canonical and compatibility caseless matching algorithms of the
//! Unicode Standard.
//!
//! Per-code-point case folding, decomposition and combining-class data come
//! from external providers; every transform and comparison built on that
//! data is verified against named models of that data.

pub mod api;
pub mod compare;
pub mod decompose;
pub mod fold;
pub mod laws;
pub mod order;
pub mod provider;
pub mod stream;
pub mod table;

pub use api::Caseless;
pub use api::canonical_caseless_compare_str;
pub use api::canonical_caseless_form;
pub use api::canonical_caseless_match_str;
pub use api::canonical_caseless_starts_with_str;
pub use api::compatibility_caseless_compare_str;
pub use api::compatibility_caseless_form;
pub use api::compatibility_caseless_match_str;
pub use api::compatibility_caseless_starts_with_str;
pub use api::default_case_fold_str;
pub use api::default_caseless_compare_str;
pub use api::default_caseless_match_str;
pub use api::default_caseless_starts_with_str;
pub use compare::iter_cmp;
pub use compare::iter_eq;
pub use compare::iter_starts_with;
pub use compare::lex_cmp;
pub use decompose::Decompose;
pub use decompose::DecompositionKind;
pub use fold::CaseFold;
pub use fold::fold_seq;
pub use laws::default_case_fold_fixpoint_str;
pub use stream::CharSource;
pub use stream::CharStream;
pub use table::FoldTable;
