//! The content-filter configuration: one tagged union over the three
//! filters, dispatched by exhaustive match.

use vstd::prelude::*;
use vstd::string::StringSliceAdditionalSpecFns;
use crate::pruning::{PruningContentFilter, prune_output};
use crate::bm25::{BM25ContentFilter, bm25_output, query_view};
use crate::llm::LLMContentFilter;
use crate::parse::parse_dom_of;
use crate::text_to_string::lossy_of;

verus! {

/// A content filter: density pruning, BM25 relevance, or LLM
/// distillation.
pub enum ContentFilter {
    Pruning(PruningContentFilter),
    BM25(BM25ContentFilter),
    LLM(LLMContentFilter),
}

impl Default for PruningContentFilter {
    /// The standard pruning setup: fixed threshold 0.48, no word
    /// filter.
    fn default() -> (r: Self)
        ensures
            r.threshold == 480_000,
            r.min_word_threshold is None,
    {
        PruningContentFilter::new(Option::None, "fixed", 480_000)
    }
}

impl Default for ContentFilter {
    /// A pruning filter with the standard setup.
    fn default() -> (r: Self)
        ensures
            r matches ContentFilter::Pruning(p) && p.threshold == 480_000
                && p.min_word_threshold is None,
    {
        ContentFilter::Pruning(PruningContentFilter::default())
    }
}

/// What the pure filters produce for a document; the LLM filter needs
/// network dispatch and has no pure output.
pub open spec fn filter_output(cf: ContentFilter, html: Seq<u8>) -> Option<Seq<char>> {
    match cf {
        ContentFilter::Pruning(p) => Option::Some(
            lossy_of(prune_output(parse_dom_of(html), p.threshold, p.min_word_threshold)),
        ),
        ContentFilter::BM25(b) => Option::Some(
            lossy_of(
                bm25_output(
                    parse_dom_of(html),
                    query_view(b.user_query),
                    b.bm25_threshold,
                    b.use_stemming,
                    b.min_word_threshold,
                ),
            ),
        ),
        ContentFilter::LLM(_) => Option::None,
    }
}

impl ContentFilter {
    /// Runs the filter on an HTML document. The pruning and BM25
    /// filters compute their fragment here; the LLM filter's work is
    /// network-bound and is driven outside the library, so it yields
    /// nothing.
    pub fn filter_content(&self, html: &str) -> (r: Option<String>)
        ensures
            match r {
                Option::Some(s) => filter_output(*self, html.spec_bytes()) == Option::Some(s@),
                Option::None => filter_output(*self, html.spec_bytes()) is None,
            },
    {
        match self {
            ContentFilter::Pruning(p) => Option::Some(p.filter_content(html)),
            ContentFilter::BM25(b) => Option::Some(b.filter_content(html)),
            ContentFilter::LLM(_) => Option::None,
        }
    }
}

} // verus!
