use crawl4ai_core::llm::{
    LLMConfig, LLMContentFilter, LlmEvent, RetryState, build_prompt, extract_content,
    merge_results,
};
use crawl4ai_core::markdown::DefaultMarkdownGenerator;
use crawl4ai_core::models::CrawlerError;
use crawl4ai_core::filter::ContentFilter;
use crawl4ai_core::pruning::PruningContentFilter;

fn test_config(max_attempts: u32) -> LLMConfig {
    LLMConfig {
        provider: "test-model".to_string(),
        api_token: "test-token".to_string(),
        base_url: None,
        backoff_base_delay: 2,
        backoff_max_attempts: max_attempts,
        backoff_exponential_factor: 2,
    }
}

fn test_filter(threshold: usize, rate_milli: u64) -> LLMContentFilter {
    LLMContentFilter {
        config: test_config(3),
        instruction: "Summarize".to_string(),
        chunk_token_threshold: threshold,
        overlap_rate: 0,
        word_token_rate: rate_milli,
        ignore_cache: true,
    }
}

#[test]
fn text_within_budget_is_one_chunk() {
    let filter = test_filter(100, 1000);
    let text = b"one two three four five";
    let chunks = filter.merge_chunks(text);
    assert_eq!(chunks.len(), 1);
    assert_eq!(chunks[0], text.to_vec());
}

#[test]
fn text_over_budget_is_windowed() {
    // 15 words at rate 1.0 against a budget of 10 tokens: windows of
    // 10 words advancing by 10 (no overlap).
    let filter = test_filter(10, 1000);
    let text = b"w1 w2 w3 w4 w5 w6 w7 w8 w9 w10 w11 w12 w13 w14 w15";
    let chunks = filter.merge_chunks(text);
    assert_eq!(chunks.len(), 2);
    assert_eq!(chunks[0], b"w1 w2 w3 w4 w5 w6 w7 w8 w9 w10".to_vec());
    assert_eq!(chunks[1], b"w11 w12 w13 w14 w15".to_vec());
}

#[test]
fn overlapping_windows_share_words() {
    let mut filter = test_filter(10, 1000);
    filter.overlap_rate = 500; // half the window carries over
    let text = b"a b c d e f g h i j k l";
    let chunks = filter.merge_chunks(text);
    assert!(chunks.len() >= 2);
    assert_eq!(chunks[0], b"a b c d e f g h i j".to_vec());
    assert_eq!(chunks[1], b"f g h i j k l".to_vec());
}

#[test]
fn content_tags_are_extracted_and_trimmed() {
    let body = b"noise <content>  real output  </content> trailing";
    assert_eq!(extract_content(body), b"real output".to_vec());

    let no_tags = b"whole response as is";
    assert_eq!(extract_content(no_tags), no_tags.to_vec());

    let wrong_order = b"</content> first <content> later";
    assert_eq!(extract_content(wrong_order), wrong_order.to_vec());
}

#[test]
fn prompt_embeds_chunk_and_instruction() {
    let p = build_prompt(b"THE_CHUNK", b"THE_INSTRUCTION");
    let text = String::from_utf8(p).expect("prompt is UTF-8");
    assert!(text.contains("<|HTML_CONTENT_START|>\nTHE_CHUNK\n<|HTML_CONTENT_END|>"));
    assert!(text.contains("<|USER_INSTRUCTION_START|>\nTHE_INSTRUCTION\n<|USER_INSTRUCTION_END|>"));
}

#[test]
fn rate_limit_then_success_keeps_the_success() {
    let cfg = test_config(3);
    let s0 = RetryState::Attempting { attempt: 1 };
    let s1 = cfg.retry_step(s0, LlmEvent::RateLimited);
    let s2 = match s1 {
        RetryState::Backoff { next_attempt, delay_secs } => {
            assert_eq!(next_attempt, 2);
            assert_eq!(delay_secs, 2);
            cfg.resume(RetryState::Backoff { next_attempt, delay_secs })
        }
        _ => panic!("a first rate limit should back off"),
    };
    match &s2 {
        RetryState::Attempting { attempt } => assert_eq!(*attempt, 2),
        _ => panic!("resume should start the next attempt"),
    }
    let s3 = cfg.retry_step(s2, LlmEvent::Success { body: b"<content>Retry Success</content>".to_vec() });
    match s3 {
        RetryState::Succeeded { content } => assert_eq!(content, b"Retry Success".to_vec()),
        _ => panic!("a success ends the chunk"),
    }
}

#[test]
fn retries_exhaust_after_max_attempts() {
    let cfg = test_config(2);
    let mut state = RetryState::Attempting { attempt: 1 };
    state = cfg.retry_step(state, LlmEvent::TransportError);
    match &state {
        RetryState::Backoff { next_attempt, .. } => assert_eq!(*next_attempt, 2),
        _ => panic!("the first failure should back off"),
    }
    state = cfg.resume(state);
    state = cfg.retry_step(state, LlmEvent::RateLimited);
    assert!(matches!(state, RetryState::Exhausted));
}

#[test]
fn other_http_errors_are_terminal() {
    let cfg = test_config(3);
    let state = cfg.retry_step(RetryState::Attempting { attempt: 1 }, LlmEvent::HttpError {
        status: 500,
    });
    match state {
        RetryState::Failed { status } => assert_eq!(status, 500),
        _ => panic!("a non-retryable status fails the chunk"),
    }
}

#[test]
fn backoff_delay_grows_exponentially() {
    let cfg = test_config(4);
    let mut state = RetryState::Attempting { attempt: 1 };
    let mut delays = Vec::new();
    for _ in 0..3 {
        state = cfg.retry_step(state, LlmEvent::RateLimited);
        match &state {
            RetryState::Backoff { delay_secs, .. } => delays.push(*delay_secs),
            _ => panic!("should still be retrying"),
        }
        state = cfg.resume(state);
    }
    assert_eq!(delays, vec![2, 4, 8]);
}

#[test]
fn results_are_reassembled_in_index_order() {
    let results = vec![
        (2usize, b"third".to_vec()),
        (0usize, b"first".to_vec()),
        (1usize, b"second".to_vec()),
    ];
    let merged = merge_results(&results);
    assert_eq!(merged, b"first\n\nsecond\n\nthird".to_vec());
}

#[test]
fn markdown_generator_without_filter_renders_raw() {
    let generator = DefaultMarkdownGenerator::new(None);
    let result = generator.generate_markdown("<html><body><p>hello world</p></body></html>");
    assert!(result.raw_markdown.contains("hello world"));
    // rendering strips the markup, so this is not the input echoed back
    assert!(!result.raw_markdown.contains("<p>"));
    assert!(result.fit_markdown.is_none());
    assert!(result.fit_html.is_none());
    assert_eq!(result.references_markdown, "");
}

#[test]
fn markdown_generator_with_filter_fills_fitted_fields() {
    let filter = ContentFilter::Pruning(PruningContentFilter::new(None, "fixed", 0));
    let generator = DefaultMarkdownGenerator::new(Some(filter));
    let result =
        generator.generate_markdown("<html><body><p>kept paragraph text</p></body></html>");
    let fit_html = result.fit_html.expect("a pure filter yields the fitted fragment");
    assert!(fit_html.contains("kept paragraph text"));
    let fit_md = result.fit_markdown.expect("and its rendering");
    assert!(fit_md.contains("kept paragraph text"));
    assert_eq!(result.raw_markdown, fit_md);
}

#[test]
fn crawler_error_carries_its_detail() {
    let e = CrawlerError::Timeout("selector .x".to_string());
    assert_eq!(e.detail(), "selector .x");
    let e2 = CrawlerError::BrowserError("no executable".to_string());
    assert_eq!(e2.detail(), "no executable");
}
