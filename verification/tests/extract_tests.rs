use crawl4ai_core::bm25::BM25ContentFilter;
use crawl4ai_core::extract::{JsonCssExtractionStrategy, JsonXPathExtractionStrategy};
use crawl4ai_core::json::JVal;
use crawl4ai_core::rex::RegexExtractionStrategy;

fn obj(pairs: Vec<(&str, JVal)>) -> JVal {
    JVal::Obj(pairs.into_iter().map(|(k, v)| (k.as_bytes().to_vec(), v)).collect())
}

fn s(text: &str) -> JVal {
    JVal::Str(text.as_bytes().to_vec())
}

fn field(v: &JVal, key: &str) -> JVal {
    match v {
        JVal::Obj(pairs) => {
            for (k, val) in pairs {
                if k.as_slice() == key.as_bytes() {
                    return clone_val(val);
                }
            }
            panic!("missing field {}", key);
        }
        _ => panic!("not an object"),
    }
}

fn clone_val(v: &JVal) -> JVal {
    v.duplicate()
}

fn as_text(v: &JVal) -> String {
    match v {
        JVal::Str(b) => String::from_utf8_lossy(b).into_owned(),
        _ => panic!("not a string"),
    }
}

#[test]
fn test_json_css_extraction() {
    let html = r#"
        <html>
            <body>
                <div class="product">
                    <h2>Product 1</h2>
                    <span class="price">$10</span>
                </div>
                <div class="product">
                    <h2>Product 2</h2>
                    <span class="price">$20</span>
                </div>
            </body>
        </html>
        "#;

    let schema = obj(vec![
        ("baseSelector", s(".product")),
        (
            "fields",
            JVal::Arr(vec![
                obj(vec![("name", s("name")), ("selector", s("h2")), ("type", s("text"))]),
                obj(vec![("name", s("price")), ("selector", s(".price")), ("type", s("text"))]),
            ]),
        ),
    ]);

    let strategy = JsonCssExtractionStrategy::new(schema);
    let results = strategy.extract(html);

    assert_eq!(results.len(), 2);
    assert_eq!(as_text(&field(&results[0], "name")), "Product 1");
    assert_eq!(as_text(&field(&results[0], "price")), "$10");
    assert_eq!(as_text(&field(&results[1], "name")), "Product 2");
    assert_eq!(as_text(&field(&results[1], "price")), "$20");
}

#[test]
fn test_nested_extraction() {
    let html = r#"
        <div class="item">
            <div class="details">
                 <span class="info">Info</span>
            </div>
        </div>
        "#;
    let schema = obj(vec![
        ("baseSelector", s(".item")),
        (
            "fields",
            JVal::Arr(vec![obj(vec![
                ("name", s("details")),
                ("selector", s(".details")),
                ("type", s("nested")),
                (
                    "fields",
                    JVal::Arr(vec![obj(vec![
                        ("name", s("info")),
                        ("selector", s(".info")),
                        ("type", s("text")),
                    ])]),
                ),
            ])]),
        ),
    ]);
    let strategy = JsonCssExtractionStrategy::new(schema);
    let results = strategy.extract(html);
    assert_eq!(results.len(), 1);
    let details = field(&results[0], "details");
    assert_eq!(as_text(&field(&details, "info")), "Info");
}

#[test]
fn test_regex_in_css_extraction() {
    let html = r#"
        <div class="content">
            <p>Order ID: #12345</p>
        </div>
        "#;
    let schema = obj(vec![
        ("baseSelector", s(".content")),
        (
            "fields",
            JVal::Arr(vec![obj(vec![
                ("name", s("order_id")),
                ("selector", s("p")),
                ("type", s("regex")),
                ("pattern", s(r"#(\d+)")),
            ])]),
        ),
    ]);
    let strategy = JsonCssExtractionStrategy::new(schema);
    let results = strategy.extract(html);
    assert_eq!(results.len(), 1);
    assert_eq!(as_text(&field(&results[0], "order_id")), "12345");
}

#[test]
fn test_regex_extraction_strategy() {
    let content = "Contact us at support@example.com or call 123-456-7890. Visit https://example.com";
    let strategy = RegexExtractionStrategy::new();
    let results = strategy.extract(b"http://page.com", content.as_bytes());

    let emails: Vec<&JVal> = results
        .iter()
        .filter(|v| as_text(&field(v, "label")) == "email")
        .collect();
    let urls: Vec<&JVal> = results
        .iter()
        .filter(|v| as_text(&field(v, "label")) == "url")
        .collect();

    assert_eq!(emails.len(), 1);
    assert_eq!(as_text(&field(emails[0], "value")), "support@example.com");

    assert_eq!(urls.len(), 1);
    assert_eq!(as_text(&field(urls[0], "value")), "https://example.com");
}

#[test]
fn test_json_xpath_extraction() {
    let html = r#"
        <html>
            <body>
                <div class="product">
                    <h2>Product 1</h2>
                    <span class="price">$10</span>
                </div>
                <div class="product">
                    <h2>Product 2</h2>
                    <span class="price">$20</span>
                </div>
            </body>
        </html>
        "#;

    let schema = obj(vec![
        ("baseSelector", s("//div[@class='product']")),
        (
            "fields",
            JVal::Arr(vec![
                obj(vec![("name", s("name")), ("selector", s("h2")), ("type", s("text"))]),
                obj(vec![
                    ("name", s("price")),
                    ("selector", s("span[@class='price']")),
                    ("type", s("text")),
                ]),
            ]),
        ),
    ]);

    let strategy = JsonXPathExtractionStrategy::new(schema);
    let results = strategy.extract(html);

    assert_eq!(results.len(), 2);
    assert_eq!(as_text(&field(&results[0], "name")), "Product 1");
    assert_eq!(as_text(&field(&results[0], "price")), "$10");
    assert_eq!(as_text(&field(&results[1], "name")), "Product 2");
    assert_eq!(as_text(&field(&results[1], "price")), "$20");
}

#[test]
fn test_xpath_extraction_with_malformed_html() {
    let html = r#"
        <div class="product">
            <h2>Product 1</h2>
            <br>
            <img src="img1.jpg">
            <span class="price">$10</span>
            <input type="hidden" value="123">
        </div>
        <div class="product">
            <h2>Product 2</h2>
            <br>
            <img src="img2.jpg">
            <span class="price">$20</span>
        </div>
    "#;

    let schema = obj(vec![
        ("baseSelector", s("//div[@class='product']")),
        (
            "fields",
            JVal::Arr(vec![
                obj(vec![("name", s("name")), ("selector", s("h2")), ("type", s("text"))]),
                obj(vec![
                    ("name", s("price")),
                    ("selector", s("span[@class='price']")),
                    ("type", s("text")),
                ]),
            ]),
        ),
    ]);

    let strategy = JsonXPathExtractionStrategy::new(schema);
    let results = strategy.extract(html);

    assert_eq!(results.len(), 2, "Should find 2 products");

    assert_eq!(as_text(&field(&results[0], "name")), "Product 1");
    assert_eq!(as_text(&field(&results[0], "price")), "$10");

    assert_eq!(as_text(&field(&results[1], "name")), "Product 2");
    assert_eq!(as_text(&field(&results[1], "price")), "$20");
}

#[test]
fn malformed_schema_yields_no_records() {
    let html = "<div class='a'>x</div>";
    // fields must be an array: a string is refused, so nothing comes back
    let schema = obj(vec![("baseSelector", s(".a")), ("fields", s("oops"))]);
    let strategy = JsonCssExtractionStrategy::new(schema);
    assert_eq!(strategy.extract(html).len(), 0);
}

#[test]
fn missing_target_uses_default() {
    let html = "<div class='a'><span>x</span></div>";
    let schema = obj(vec![
        ("baseSelector", s(".a")),
        (
            "fields",
            JVal::Arr(vec![obj(vec![
                ("name", s("missing")),
                ("selector", s(".nope")),
                ("type", s("text")),
                ("default", s("fallback")),
            ])]),
        ),
    ]);
    let strategy = JsonCssExtractionStrategy::new(schema);
    let results = strategy.extract(html);
    assert_eq!(results.len(), 1);
    assert_eq!(as_text(&field(&results[0], "missing")), "fallback");
}

#[test]
fn transforms_change_case() {
    let html = "<div class='a'><span class='v'>MiXeD</span></div>";
    let schema = obj(vec![
        ("baseSelector", s(".a")),
        (
            "fields",
            JVal::Arr(vec![
                obj(vec![
                    ("name", s("low")),
                    ("selector", s(".v")),
                    ("type", s("text")),
                    ("transform", s("lowercase")),
                ]),
                obj(vec![
                    ("name", s("up")),
                    ("selector", s(".v")),
                    ("type", s("text")),
                    ("transform", s("uppercase")),
                ]),
            ]),
        ),
    ]);
    let strategy = JsonCssExtractionStrategy::new(schema);
    let results = strategy.extract(html);
    assert_eq!(as_text(&field(&results[0], "low")), "mixed");
    assert_eq!(as_text(&field(&results[0], "up")), "MIXED");
}

#[test]
fn list_fields_build_one_record_per_match() {
    let html = "<ul class='l'><li>a</li><li>b</li></ul>";
    let schema = obj(vec![
        ("baseSelector", s(".l")),
        (
            "fields",
            JVal::Arr(vec![obj(vec![
                ("name", s("items")),
                ("selector", s("li")),
                ("type", s("list")),
                (
                    "fields",
                    JVal::Arr(vec![obj(vec![("name", s("t")), ("type", s("text"))])]),
                ),
            ])]),
        ),
    ]);
    let strategy = JsonCssExtractionStrategy::new(schema);
    let results = strategy.extract(html);
    assert_eq!(results.len(), 1);
    match field(&results[0], "items") {
        JVal::Arr(items) => {
            assert_eq!(items.len(), 2);
            assert_eq!(as_text(&field(&items[0], "t")), "a");
            assert_eq!(as_text(&field(&items[1], "t")), "b");
        }
        _ => panic!("items should be an array"),
    }
}

#[test]
fn email_match_has_correct_span() {
    let content = "Contact support@example.com";
    let strategy = RegexExtractionStrategy::new();
    let results = strategy.extract(b"http://page.com", content.as_bytes());

    let emails: Vec<&JVal> = results
        .iter()
        .filter(|v| as_text(&field(v, "label")) == "email")
        .collect();
    assert_eq!(emails.len(), 1);
    assert_eq!(as_text(&field(emails[0], "value")), "support@example.com");
    match field(emails[0], "span") {
        JVal::Arr(span) => {
            assert_eq!(span.len(), 2);
            match (&span[0], &span[1]) {
                (JVal::Int(a), JVal::Int(b)) => {
                    assert_eq!(*a, 8);
                    assert_eq!(*b, 27);
                }
                _ => panic!("span should hold integers"),
            }
        }
        _ => panic!("span should be an array"),
    }
}

#[test]
fn common_entity_patterns_match() {
    let content = "Born 2021-03-05, host 192.168.0.1, id 123e4567-e89b-12d3-a456-426614174000, up 99.5%";
    let strategy = RegexExtractionStrategy::new();
    let results = strategy.extract(b"http://page.com", content.as_bytes());
    let labels: Vec<String> = results.iter().map(|v| as_text(&field(v, "label"))).collect();
    assert!(labels.iter().any(|l| l == "date_iso"));
    assert!(labels.iter().any(|l| l == "ipv4"));
    assert!(labels.iter().any(|l| l == "uuid"));
    assert!(labels.iter().any(|l| l == "percentage"));
}

#[test]
fn css_child_combinator_requires_direct_children() {
    let html = r#"
        <div class="outer">
            <p>direct</p>
            <section><p>nested</p></section>
        </div>
    "#;
    let schema = obj(vec![
        ("baseSelector", s(".outer > p")),
        (
            "fields",
            JVal::Arr(vec![obj(vec![("name", s("t")), ("type", s("text"))])]),
        ),
    ]);
    let strategy = JsonCssExtractionStrategy::new(schema);
    let results = strategy.extract(html);
    assert_eq!(results.len(), 1);
    assert_eq!(as_text(&field(&results[0], "t")), "direct");

    // the descendant combinator sees both paragraphs
    let schema_all = obj(vec![
        ("baseSelector", s(".outer p")),
        (
            "fields",
            JVal::Arr(vec![obj(vec![("name", s("t")), ("type", s("text"))])]),
        ),
    ]);
    let all = JsonCssExtractionStrategy::new(schema_all).extract(html);
    assert_eq!(all.len(), 2);
}

#[test]
fn xpath_positional_predicate_counts_per_parent() {
    let html = r#"
        <ul class="a"><li>a1</li><li>a2</li><li>a3</li></ul>
        <ul class="b"><li>b1</li><li>b2</li></ul>
    "#;
    let schema = obj(vec![
        ("baseSelector", s("//li[2]")),
        (
            "fields",
            JVal::Arr(vec![obj(vec![("name", s("t")), ("type", s("text"))])]),
        ),
    ]);
    let strategy = JsonXPathExtractionStrategy::new(schema);
    let results = strategy.extract(html);
    assert_eq!(results.len(), 2);
    assert_eq!(as_text(&field(&results[0], "t")), "a2");
    assert_eq!(as_text(&field(&results[1], "t")), "b2");
}

#[test]
fn custom_pattern_tables_dedup_and_drop_invalid() {
    let patterns = vec![
        (b"num".to_vec(), b"[0-9]".to_vec()),
        (b"broken".to_vec(), b"(unclosed".to_vec()),
        (b"num".to_vec(), b"[0-9]{2}".to_vec()),
    ];
    let strategy = RegexExtractionStrategy::with_patterns(patterns);
    // one label survives, with the last compiling pattern
    assert_eq!(strategy.patterns.len(), 1);
    assert_eq!(strategy.patterns[0].0, b"num".to_vec());
    assert_eq!(strategy.patterns[0].1, b"[0-9]{2}".to_vec());

    let results = strategy.extract(b"u", b"7 42");
    assert_eq!(results.len(), 1);
    assert_eq!(as_text(&field(&results[0], "value")), "42");
}

#[test]
fn fallback_query_uses_trimmed_characters() {
    // The paragraph text exceeds 150 characters only before trimming;
    // after trimming it is exactly 150, so no fallback query exists and
    // the filter returns nothing.
    let exactly_150 = "x".repeat(150);
    let html = format!(
        "<html><body><p>   {}   </p></body></html>",
        exactly_150
    );
    let filter = BM25ContentFilter::default();
    assert_eq!(filter.filter_content(&html), "");

    // A longer paragraph of repeated words fires the fallback: the
    // first 150 characters become the query, which the paragraph
    // itself then matches.
    let longer = "alpha ".repeat(30);
    let html2 = format!("<html><body><p>{}</p></body></html>", longer);
    let out = filter.filter_content(&html2);
    assert!(out.contains("alpha"));
}
