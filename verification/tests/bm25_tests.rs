use crawl4ai_core::bm25::BM25ContentFilter;

#[test]
fn test_bm25_content_filter_basic() {
    let html = r#"
        <html>
            <body>
                <h1>Important Title</h1>
                <p>This is a very important paragraph that should be kept because it has relevant keywords.</p>
                <div>
                    <span>Garbage content here.</span>
                </div>
                <h2>Subsection</h2>
                <p>More relevant text here for the query.</p>
            </body>
        </html>
        "#;

    let filter = BM25ContentFilter::new(Some(b"important relevant".to_vec()), 500_000);
    let filtered_html = filter.filter_content(html);

    assert!(filtered_html.contains("Important Title"));
    assert!(filtered_html.contains("important paragraph"));
    assert!(!filtered_html.contains("Garbage content"));
}

#[test]
fn test_bm25_content_filter_no_query() {
    let html = r#"
        <html>
            <head><title>Auto Query Page</title></head>
            <body>
                <h1>Main Topic</h1>
                <p>Content related to the main topic should be kept.</p>
                <div class="ads">Buy this product now!</div>
            </body>
        </html>
        "#;

    // The query is derived from the title and first h1.
    let filter = BM25ContentFilter::default();
    let filtered_html = filter.filter_content(html);

    assert!(filtered_html.contains("Main Topic"));
}

#[test]
fn test_nested_blocks_text_extraction() {
    let html = r#"
        <html>
            <head><title>Test Page</title></head>
            <body>
                <div>
                    <p>Outer Paragraph.</p>
                    <div id="nested">
                        <p>Inner Paragraph 1.</p>
                        <span>Inline text in nested div.</span>
                        <p>Inner Paragraph 2.</p>
                    </div>
                    <p>Footer Paragraph.</p>
                </div>
            </body>
        </html>
    "#;

    let filter = BM25ContentFilter::new(Some(b"paragraph text".to_vec()), 0);

    let result = filter.filter_content(html);

    assert!(result.contains("Outer Paragraph."));
    assert!(result.contains("Inner Paragraph 1."));
    assert!(result.contains("Inline text in nested div."));
    assert!(result.contains("Inner Paragraph 2."));

    let count = result.matches("Inner Paragraph 1.").count();
    assert_eq!(count, 1, "Should appear exactly once, but found {}", count);
}

#[test]
fn test_mixed_content_nesting() {
    let html = r#"
        <html>
        <head><title>Test Page</title></head>
        <body>
        <div>
            Direct text 1.
            <p>Paragraph 1.</p>
            Direct text 2.
            <div>
                 Nested Direct text.
            </div>
        </div>
        </body>
        </html>
    "#;

    let filter = BM25ContentFilter::new(Some(b"text paragraph".to_vec()), 0);
    let result = filter.filter_content(html);

    assert!(result.contains("Direct text 1."));
    assert!(result.contains("Paragraph 1."));
    assert!(result.contains("Direct text 2."));
    assert!(result.contains("Nested Direct text."));
}

#[test]
fn stemming_collapses_running_and_run() {
    // With stemming, "running" in the query and "run" in the text meet
    // at the same stem, so the paragraph scores and is kept.
    let html = r#"
        <html><body>
            <p>They run far every day, a run before dawn and a run after dark, run run run.</p>
            <p>Totally unrelated gardening advice with flowers and soil.</p>
        </body></html>
    "#;
    let stemmed = BM25ContentFilter::new(Some(b"running".to_vec()), 100_000);
    let out = stemmed.filter_content(html);
    assert!(out.contains("run far every day"));
    assert!(!out.contains("gardening advice"));

    // Without stemming the query token "running" never matches "run".
    let mut plain = BM25ContentFilter::new(Some(b"running".to_vec()), 100_000);
    plain.use_stemming = false;
    let out_plain = plain.filter_content(html);
    assert_eq!(out_plain, "");
}

#[test]
fn unreachable_threshold_gives_empty_output() {
    let html = r#"
        <html><body>
            <h1>Totally Different</h1>
            <p>Nothing here mentions the query words at all.</p>
        </body></html>
    "#;
    // No chunk can reach an absurd threshold, so nothing is emitted.
    let filter = BM25ContentFilter::new(Some(b"quantum zebra".to_vec()), u64::MAX);
    let result = filter.filter_content(html);
    assert_eq!(result, "");
}

#[test]
fn empty_query_gives_empty_output() {
    // No explicit query, no title, h1 or meta, and no long paragraph:
    // the resolved query is empty, so nothing is judged relevant.
    let html = "<html><body><p>short</p></body></html>";
    let filter = BM25ContentFilter::default();
    let result = filter.filter_content(html);
    assert_eq!(result, "");
}

#[test]
fn output_preserves_document_order() {
    let html = r#"
        <html><body>
            <p>alpha token here</p>
            <h2>beta heading</h2>
            <p>alpha again later</p>
        </body></html>
    "#;
    let filter = BM25ContentFilter::new(Some(b"alpha beta".to_vec()), 0);
    let result = filter.filter_content(html);
    let first = result.find("alpha token here").expect("first chunk kept");
    let second = result.find("beta heading").expect("second chunk kept");
    let third = result.find("alpha again later").expect("third chunk kept");
    assert!(first < second && second < third);
}
