use crawl4ai_core::bm25::BM25ContentFilter;
use crawl4ai_core::dom::Dom;
use crawl4ai_core::parse::parse_document;
use crawl4ai_core::tree::find_elem;

fn body_of(doc: &Dom) -> &Dom {
    find_elem(doc, "body").expect("document should have a body")
}

#[test]
fn content_filter_test_extract_text_chunks_nested() {
    let html = r#"
            <div>
                Text1
                <p>Text2</p>
                Text3
            </div>
        "#;
    let document = parse_document(html);
    let body = body_of(&document);

    let filter = BM25ContentFilter::default();
    let chunks = filter.extract_text_chunks(body);

    assert_eq!(chunks.len(), 2);
    assert_eq!(chunks[0].text, b"Text1 Text2".to_vec());
    assert_eq!(chunks[0].tag_type, b"content".to_vec());

    assert_eq!(chunks[1].text, b"Text3".to_vec());
    assert_eq!(chunks[1].tag_type, b"content".to_vec());
}

#[test]
fn content_filter_test_extract_text_chunks_inline() {
    let html = r#"
            <p>Start <span>Middle</span> End</p>
        "#;
    let document = parse_document(html);
    let body = body_of(&document);

    let filter = BM25ContentFilter::default();
    let chunks = filter.extract_text_chunks(body);

    assert_eq!(chunks.len(), 1);
    assert_eq!(chunks[0].text, b"Start Middle End".to_vec());
}

#[test]
fn bm25_test_extract_text_chunks_nested() {
    let html = r#"
            <div>
                Text1
                <p>Text2</p>
                Text3
            </div>
        "#;
    let document = parse_document(html);
    let body = body_of(&document);

    let filter = BM25ContentFilter::default();
    let chunks = filter.extract_text_chunks(body);

    assert_eq!(chunks.len(), 2);
    assert_eq!(chunks[0].text, b"Text1 Text2".to_vec());
    assert_eq!(chunks[0].tag_type, b"content".to_vec());

    assert_eq!(chunks[1].text, b"Text3".to_vec());
    assert_eq!(chunks[1].tag_type, b"content".to_vec());
}

#[test]
fn bm25_test_extract_text_chunks_inline() {
    let html = r#"
            <p>Start <span>Middle</span> End</p>
        "#;
    let document = parse_document(html);
    let body = body_of(&document);

    let filter = BM25ContentFilter::default();
    let chunks = filter.extract_text_chunks(body);

    assert_eq!(chunks.len(), 1);
    assert_eq!(chunks[0].text, b"Start Middle End".to_vec());
}

#[test]
fn chunk_indices_follow_document_order() {
    let html = "<div><h1>One</h1><p>Two</p><p>Three</p></div>";
    let document = parse_document(html);
    let body = body_of(&document);

    let filter = BM25ContentFilter::default();
    let chunks = filter.extract_text_chunks(body);

    assert_eq!(chunks.len(), 3);
    for (i, c) in chunks.iter().enumerate() {
        assert_eq!(c.index, i);
    }
    assert_eq!(chunks[0].text, b"One".to_vec());
    assert_eq!(chunks[0].tag_type, b"header".to_vec());
    assert_eq!(chunks[1].text, b"Two".to_vec());
    assert_eq!(chunks[2].text, b"Three".to_vec());
}

#[test]
fn min_word_threshold_drops_short_chunks() {
    let html = "<div><p>one</p><p>three little words</p></div>";
    let document = parse_document(html);
    let body = body_of(&document);

    let mut filter = BM25ContentFilter::default();
    filter.min_word_threshold = Some(2);
    let chunks = filter.extract_text_chunks(body);

    assert_eq!(chunks.len(), 1);
    assert_eq!(chunks[0].text, b"three little words".to_vec());
    // the surviving chunk keeps its original order number
    assert_eq!(chunks[0].index, 1);
}

#[test]
fn empty_body_yields_no_chunks() {
    let html = "<html><body></body></html>";
    let document = parse_document(html);
    let body = body_of(&document);

    let filter = BM25ContentFilter::default();
    let chunks = filter.extract_text_chunks(body);
    assert_eq!(chunks.len(), 0);
}
