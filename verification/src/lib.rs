//! Verified core of an HTML content-distillation engine.
//!
//! The library reduces raw HTML documents to their relevant content and
//! to structured records: a density-based pruning filter, a BM25
//! relevance filter, an LLM-oriented chunker with a retry state machine,
//! and a schema-driven structured extractor with CSS and XPath selector
//! backends plus a pattern-table entity scraper.
//!
//! The selector engines implement documented subsets of their
//! languages (see the `css` and `xpath` modules); a selector outside
//! the subset fails to parse and selects nothing, so lookups fail
//! open rather than raising.

pub mod bm25;
pub mod chunks;
pub mod css;
pub mod dom;
pub mod extract;
pub mod filter;
pub mod fixedpoint;
pub mod json;
pub mod laws;
pub mod llm;
pub mod markdown;
pub mod models;
pub mod parse;
pub mod pruning;
pub mod rex;
pub mod ser;
pub mod strutil;
pub mod text_to_string;
pub mod tree;
pub mod xpath;
