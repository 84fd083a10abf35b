//! Ranked, ignore-aware file finding: query classification, exact and fuzzy
//! matching of walked entries, and stable ranking with a bounded result list.
pub mod config;
pub mod editor;
pub mod search;
pub mod text;
