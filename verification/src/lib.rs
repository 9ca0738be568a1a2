//! Finds duplicate and near-duplicate repositories and plans what to keep.

pub mod cargo_manifest;
pub mod count_laws;
pub mod counts;
pub mod digest;
pub mod file_types;
pub mod fingerprint;
pub mod fingerprint_laws;
pub mod group;
pub mod group_laws;
pub mod hamming;
pub mod manifest;
pub mod manifest_laws;
pub mod names;
pub mod npm_laws;
pub mod npm_manifest;
pub mod order;
pub mod plan;
pub mod plan_laws;
pub mod python_laws;
pub mod python_manifest;
pub mod scanner;
pub mod score_laws;
pub mod text;
pub mod text_laws;
pub mod toml;
pub mod utf8;
pub mod walk;
pub mod walk_laws;
