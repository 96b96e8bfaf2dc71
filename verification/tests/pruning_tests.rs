use crawl4ai_core::pruning::PruningContentFilter;

#[test]
fn excluded_tags_always_removed() {
    let html = r#"
        <html><body>
            <nav>site navigation links</nav>
            <article>A reasonably long article body with plenty of words to keep the density score healthy and high.</article>
            <footer>copyright footer</footer>
            <script>var x = 1;</script>
        </body></html>
    "#;
    // Threshold zero keeps everything that survives the removal pass,
    // so whatever is missing was removed by tag, not by score.
    let filter = PruningContentFilter::new(None, "fixed", 0);
    let out = filter.filter_content(html);
    assert!(out.contains("reasonably long article body"));
    assert!(!out.contains("site navigation links"));
    assert!(!out.contains("copyright footer"));
    assert!(!out.contains("var x = 1;"));
}

#[test]
fn comments_are_removed() {
    let html = "<html><body><p>kept text body</p><!-- secret note --></body></html>";
    let filter = PruningContentFilter::new(None, "fixed", 0);
    let out = filter.filter_content(html);
    assert!(out.contains("kept text body"));
    assert!(!out.contains("secret note"));
}

#[test]
fn low_scoring_subtree_is_pruned() {
    let html = r#"
        <html><body>
            <article>This long and wordy article paragraph carries a good amount of visible text relative to its markup and should score comfortably.</article>
            <span><a href="http://x/1">l</a><a href="http://x/2">l</a></span>
        </body></html>
    "#;
    // The span is almost all link text inside heavy markup: its score
    // stays below a moderate threshold while the article passes.
    let filter = PruningContentFilter::new(None, "fixed", 480_000);
    let out = filter.filter_content(html);
    assert!(out.contains("wordy article paragraph"));
    assert!(!out.contains("http://x/1"));
}

#[test]
fn min_word_threshold_removes_short_subtrees() {
    let html = r#"
        <html><body>
            <p>tiny</p>
            <p>this paragraph clearly holds more than five words of text</p>
        </body></html>
    "#;
    let filter = PruningContentFilter::new(Some(5), "fixed", 0);
    let out = filter.filter_content(html);
    assert!(!out.contains("tiny"));
    assert!(out.contains("more than five words"));
}

#[test]
fn attributes_survive_serialization() {
    let html = r#"<html><body><p class="lead" id="p1">Enough visible words to stay in place here.</p></body></html>"#;
    let filter = PruningContentFilter::new(None, "fixed", 0);
    let out = filter.filter_content(html);
    assert!(out.contains("class=\"lead\""));
    assert!(out.contains("id=\"p1\""));
    assert!(out.contains("Enough visible words"));
}

#[test]
fn text_is_escaped_on_output() {
    let html = "<html><body><p>a &lt;b&gt; c &amp; d plus some more words to hold the score up</p></body></html>";
    let filter = PruningContentFilter::new(None, "fixed", 0);
    let out = filter.filter_content(html);
    assert!(out.contains("a &lt;b&gt; c &amp; d"));
}
