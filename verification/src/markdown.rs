//! Markdown generation around the content filters.

use vstd::prelude::*;
use vstd::string::StringSliceAdditionalSpecFns;
use crate::filter::{ContentFilter, filter_output};
use crate::models::MarkdownGenerationResult;

verus! {

/// The text that rendering HTML at 80 columns produces: a function of
/// the document alone; an empty string when rendering fails.
pub uninterp spec fn markdown_of(html: Seq<char>) -> Seq<char>;

/// Relies on html2text::from_read at width 80: a pure document-to-text
/// transform.
#[verifier::external_body]
fn html_to_markdown(html: &str) -> (r: String)
    ensures
        r@ == markdown_of(html@),
{
    html2text::from_read(html.as_bytes(), 80).unwrap_or_default()
}

/// Generates markdown from HTML, applying an optional content filter
/// for the fitted variant.
pub struct DefaultMarkdownGenerator {
    pub content_filter: Option<ContentFilter>,
}

/// The fitted fragment a generator's filter yields, when the filter is
/// pure.
pub open spec fn fit_html_of(g: DefaultMarkdownGenerator, html: Seq<u8>) -> Option<Seq<char>> {
    match g.content_filter {
        Option::Some(cf) => filter_output(cf, html),
        Option::None => Option::None,
    }
}

impl Default for DefaultMarkdownGenerator {
    /// A generator with no filter: raw rendering only.
    fn default() -> (r: Self)
        ensures
            r.content_filter is None,
    {
        DefaultMarkdownGenerator { content_filter: Option::None }
    }
}

impl DefaultMarkdownGenerator {
    /// A generator, optionally filtering before rendering.
    pub fn new(content_filter: Option<ContentFilter>) -> (r: Self)
        ensures
            r == (DefaultMarkdownGenerator { content_filter }),
    {
        DefaultMarkdownGenerator { content_filter }
    }

    /// Renders markdown: the raw rendering of the input, and, when a
    /// pure filter is set, the filtered fragment and its rendering;
    /// the main output is then the filtered rendering.
    pub fn generate_markdown(&self, html: &str) -> (r: MarkdownGenerationResult)
        ensures
            match fit_html_of(*self, html.spec_bytes()) {
                Option::Some(fh) => {
                    &&& r.fit_html matches Option::Some(h) && h@ == fh
                    &&& r.fit_markdown matches Option::Some(m) && m@ == markdown_of(fh)
                    &&& r.raw_markdown@ == markdown_of(fh)
                },
                Option::None => {
                    &&& r.fit_html is None
                    &&& r.fit_markdown is None
                    &&& r.raw_markdown@ == markdown_of(html@)
                },
            },
            r.markdown_with_citations@ == markdown_of(html@),
            r.references_markdown@.len() == 0,
    {
        let filtered: Option<String> = match &self.content_filter {
            Option::Some(cf) => cf.filter_content(html),
            Option::None => Option::None,
        };
        let raw_markdown = html_to_markdown(html);
        match filtered {
            Option::Some(fh) => {
                let fm = html_to_markdown(fh.as_str());
                let fm2 = fm.clone();
                MarkdownGenerationResult {
                    raw_markdown: fm,
                    markdown_with_citations: raw_markdown,
                    references_markdown: String::new(),
                    fit_markdown: Option::Some(fm2),
                    fit_html: Option::Some(fh),
                }
            },
            Option::None => {
                let raw2 = raw_markdown.clone();
                MarkdownGenerationResult {
                    raw_markdown,
                    markdown_with_citations: raw2,
                    references_markdown: String::new(),
                    fit_markdown: Option::None,
                    fit_html: Option::None,
                }
            },
        }
    }
}

} // verus!
