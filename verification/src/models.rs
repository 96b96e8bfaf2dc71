//! The data model around a crawl: run configuration, results, media
//! and links, and the crawler's error type.

use vstd::prelude::*;
use crate::filter::ContentFilter;
use crate::extract::{JsonCssExtractionStrategy, JsonXPathExtractionStrategy};
use crate::rex::RegexExtractionStrategy;

verus! {

/// What the crawler failed on.
pub enum CrawlerError {
    BrowserError(String),
    NavigationError(String),
    Timeout(String),
    ExtractionError(String),
    Other(String),
}

impl CrawlerError {
    /// The detail text carried by the error.
    pub fn detail(&self) -> (r: &String)
        ensures
            match *self {
                CrawlerError::BrowserError(s) => r == s,
                CrawlerError::NavigationError(s) => r == s,
                CrawlerError::Timeout(s) => r == s,
                CrawlerError::ExtractionError(s) => r == s,
                CrawlerError::Other(s) => r == s,
            },
    {
        match self {
            CrawlerError::BrowserError(s) => s,
            CrawlerError::NavigationError(s) => s,
            CrawlerError::Timeout(s) => s,
            CrawlerError::ExtractionError(s) => s,
            CrawlerError::Other(s) => s,
        }
    }
}

/// How to wait for content before extracting it.
pub enum WaitStrategy {
    /// Wait a fixed number of milliseconds.
    Fixed(u64),
    /// Wait for a CSS selector to appear.
    Selector(String),
    /// Wait for an XPath to appear.
    XPath(String),
    /// Wait for a script condition to become true.
    JsCondition(String),
    /// Wait for the network to go idle for the given milliseconds.
    NetworkIdle { idle_time: Option<u64> },
}

/// Which extraction strategy a run uses.
pub enum ExtractionStrategyConfig {
    JsonCss(JsonCssExtractionStrategy),
    JsonXPath(JsonXPathExtractionStrategy),
    Regex(RegexExtractionStrategy),
}

/// Configuration for one crawler run.
pub struct CrawlerRunConfig {
    pub session_id: Option<String>,
    pub wait_for: Option<WaitStrategy>,
    pub content_filter: Option<ContentFilter>,
    pub extraction_strategy: Option<ExtractionStrategyConfig>,
    pub screenshot: bool,
    pub page_timeout: Option<u64>,
    pub wait_timeout: Option<u64>,
}

impl Default for CrawlerRunConfig {
    /// No session, no waiting, no filter, no extraction, no
    /// screenshot, default timeouts.
    fn default() -> (r: Self)
        ensures
            r.session_id is None,
            r.wait_for is None,
            r.content_filter is None,
            r.extraction_strategy is None,
            r.screenshot == false,
            r.page_timeout is None,
            r.wait_timeout is None,
    {
        CrawlerRunConfig {
            session_id: Option::None,
            wait_for: Option::None,
            content_filter: Option::None,
            extraction_strategy: Option::None,
            screenshot: false,
            page_timeout: Option::None,
            wait_timeout: Option::None,
        }
    }
}

/// A media item found on a page.
pub struct MediaItem {
    pub src: Option<String>,
    pub alt: Option<String>,
    pub desc: Option<String>,
    pub score: Option<i32>,
    pub media_kind: String,
    pub group_id: Option<i32>,
}

/// A hyperlink found on a page.
pub struct Link {
    pub href: Option<String>,
    pub text: Option<String>,
    pub title: Option<String>,
}

/// The markdown outputs of one generation pass.
pub struct MarkdownGenerationResult {
    pub raw_markdown: String,
    pub markdown_with_citations: String,
    pub references_markdown: String,
    pub fit_markdown: Option<String>,
    pub fit_html: Option<String>,
}

/// The result of one crawl.
pub struct CrawlResult {
    pub url: String,
    pub html: String,
    pub success: bool,
    pub cleaned_html: Option<String>,
    pub media: Option<Vec<(String, Vec<MediaItem>)>>,
    pub links: Option<Vec<(String, Vec<Link>)>>,
    pub screenshot: Option<String>,
    pub markdown: Option<MarkdownGenerationResult>,
    pub extracted_content: Option<String>,
    pub error_message: Option<String>,
}

} // verus!
