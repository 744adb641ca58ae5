use daily_feed::cache::DedupCache;
use daily_feed::date::RunDate;
use daily_feed::feed::{parse_feed, FeedItem, FetchError};
use daily_feed::ingest::plan_source;
use daily_feed::persist::{cache_to_json, load_cache, CacheError};
use daily_feed::render::render_document;
use daily_feed::run::{execute_run, failed_sources, SourceOutcome};

fn item(id: &str, title: &str, body: &str) -> FeedItem {
    FeedItem {
        identifier: Some(id.to_string()),
        title: Some(title.to_string()),
        body: Some(body.to_string()),
    }
}

fn ok_outcome(name: &str, items: Vec<FeedItem>) -> SourceOutcome {
    SourceOutcome { name: name.to_string(), fetched: Ok(items) }
}

#[test]
fn skip_is_idempotent() {
    let mut cache = load_cache("{\"blog\": [\"id1\"]}").unwrap();
    let before = cache_to_json(&cache);
    let outcomes = vec![ok_outcome("blog", vec![item("id1", "t1", "b1")])];
    let reports = execute_run(&mut cache, &outcomes);
    assert_eq!(reports.len(), 1);
    assert_eq!(reports[0].result.as_ref().unwrap().len(), 0);
    assert_eq!(cache_to_json(&cache), before);
}

#[test]
fn cache_grows_monotonically() {
    let mut cache = load_cache("{\"blog\": [\"id1\"]}").unwrap();
    let outcomes = vec![ok_outcome("blog", vec![item("id2", "t2", "b2")])];
    execute_run(&mut cache, &outcomes);
    let blog = "blog".to_string();
    assert!(cache.contains(&blog, &"id1".to_string()));
    assert!(cache.contains(&blog, &"id2".to_string()));
}

#[test]
fn failed_source_does_not_stop_others() {
    let mut cache = DedupCache::new();
    let outcomes = vec![
        SourceOutcome { name: "a".to_string(), fetched: Err(FetchError::Network) },
        ok_outcome("b", vec![item("idb", "tb", "bodyb")]),
    ];
    let reports = execute_run(&mut cache, &outcomes);
    assert_eq!(reports.len(), 2);
    assert!(matches!(reports[0].result, Err(FetchError::Network)));
    let docs = reports[1].result.as_ref().unwrap();
    assert_eq!(docs.len(), 1);
    assert_eq!(docs[0].file_name, "b-tb.html");
    assert!(cache.contains(&"b".to_string(), &"idb".to_string()));
    assert!(!cache.contains(&"a".to_string(), &"idb".to_string()));
    let failed = failed_sources(&reports);
    assert_eq!(failed, vec!["a".to_string()]);
}

#[test]
fn incomplete_items_are_filtered() {
    let mut cache = DedupCache::new();
    let no_id = FeedItem {
        identifier: None,
        title: Some("t".to_string()),
        body: Some("b".to_string()),
    };
    let no_title = FeedItem {
        identifier: Some("x1".to_string()),
        title: None,
        body: Some("b".to_string()),
    };
    let no_body = FeedItem {
        identifier: Some("x2".to_string()),
        title: Some("t".to_string()),
        body: None,
    };
    let outcomes = vec![ok_outcome("s", vec![no_id, no_title, no_body])];
    let reports = execute_run(&mut cache, &outcomes);
    assert_eq!(reports[0].result.as_ref().unwrap().len(), 0);
    assert!(!cache.contains(&"s".to_string(), &"x1".to_string()));
    assert!(!cache.contains(&"s".to_string(), &"x2".to_string()));
    assert_eq!(cache_to_json(&cache), "{\"s\":[]}");
}

#[test]
fn order_is_preserved_modulo_skips() {
    let mut cache = load_cache("{\"s\": [\"mid\"]}").unwrap();
    let outcomes = vec![ok_outcome(
        "s",
        vec![
            item("first", "one", "b1"),
            item("mid", "two", "b2"),
            item("last", "three", "b3"),
        ],
    )];
    let reports = execute_run(&mut cache, &outcomes);
    let docs = reports[0].result.as_ref().unwrap();
    assert_eq!(docs.len(), 2);
    assert_eq!(docs[0].file_name, "s-one.html");
    assert_eq!(docs[1].file_name, "s-three.html");
}

#[test]
fn end_to_end_single_source() {
    // Configuration: source "blog"; cache file {"blog": ["id1"]}; the feed
    // returns id1, id2 complete and id3 without a body.
    let mut cache = load_cache("{\"blog\": [\"id1\"]}").unwrap();
    let feed = vec![
        item("id1", "t1", "b1"),
        item("id2", "t2", "b2"),
        FeedItem {
            identifier: Some("id3".to_string()),
            title: Some("t3".to_string()),
            body: None,
        },
    ];
    let outcomes = vec![ok_outcome("blog", feed)];
    let reports = execute_run(&mut cache, &outcomes);
    let docs = reports[0].result.as_ref().unwrap();
    assert_eq!(docs.len(), 1);
    assert_eq!(docs[0].file_name, "blog-t2.html");
    assert!(docs[0].content.contains("b2"));
    assert_eq!(cache_to_json(&cache), "{\"blog\":[\"id1\",\"id2\"]}");
    assert!(!cache.contains(&"blog".to_string(), &"id3".to_string()));
    assert!(failed_sources(&reports).is_empty());
}

#[test]
fn concurrent_sources_both_commit() {
    let mut cache = DedupCache::new();
    let outcomes = vec![
        ok_outcome("alpha", vec![item("a1", "ta", "ba")]),
        ok_outcome("beta", vec![item("b1", "tb", "bb")]),
    ];
    let reports = execute_run(&mut cache, &outcomes);
    assert_eq!(reports[0].result.as_ref().unwrap().len(), 1);
    assert_eq!(reports[1].result.as_ref().unwrap().len(), 1);
    assert!(cache.contains(&"alpha".to_string(), &"a1".to_string()));
    assert!(cache.contains(&"beta".to_string(), &"b1".to_string()));
    assert_eq!(cache_to_json(&cache), "{\"alpha\":[\"a1\"],\"beta\":[\"b1\"]}");
}

#[test]
fn repeated_identifier_in_one_fetch_renders_twice() {
    let mut cache = DedupCache::new();
    let outcomes = vec![ok_outcome(
        "s",
        vec![item("dup", "one", "b1"), item("dup", "two", "b2")],
    )];
    let reports = execute_run(&mut cache, &outcomes);
    let docs = reports[0].result.as_ref().unwrap();
    assert_eq!(docs.len(), 2);
    assert_eq!(cache_to_json(&cache), "{\"s\":[\"dup\"]}");
}

#[test]
fn plan_stages_without_committing() {
    let cache = DedupCache::new();
    let items = vec![item("n1", "t", "b")];
    let plan = plan_source(&"s".to_string(), &items, &cache);
    assert_eq!(plan.documents.len(), 1);
    assert_eq!(plan.staged, vec!["n1".to_string()]);
    assert!(!cache.contains(&"s".to_string(), &"n1".to_string()));
}

#[test]
fn rendered_document_text_is_exact() {
    let doc = render_document(&"site".to_string(), &"head".to_string(), &"text".to_string());
    assert_eq!(doc.file_name, "site-head.html");
    assert_eq!(
        doc.content,
        "<!DOCTYPE html>\n<head>\n<meta charset=\"utf-8\">\n<title>[site]head</title>\n</head>\n<body>\n<h1>[site]head</h1>\ntext\n</body>\n"
    );
}

#[test]
fn parse_feed_reads_real_rss() {
    let xml = "<rss version=\"2.0\"><channel><title>c</title><link>http://x</link><description>d</description><item><guid>id1</guid><title>t1</title><description>b1</description></item><item><title>t2</title><description>b2</description></item><item><guid>id3</guid><title>t3</title><description>b3</description></item></channel></rss>";
    let items = parse_feed(&xml.as_bytes().to_vec()).unwrap();
    assert_eq!(items.len(), 3);
    assert_eq!(items[0].identifier.as_deref(), Some("id1"));
    assert_eq!(items[0].title.as_deref(), Some("t1"));
    assert_eq!(items[0].body.as_deref(), Some("b1"));
    assert_eq!(items[1].identifier, None);
    assert_eq!(items[2].identifier.as_deref(), Some("id3"));
}

#[test]
fn parse_feed_accepts_empty_channel() {
    let xml = "<rss version=\"2.0\"><channel><title>c</title><link>http://x</link><description>d</description></channel></rss>";
    let items = parse_feed(&xml.as_bytes().to_vec()).unwrap();
    assert!(items.is_empty());
}

#[test]
fn renderability_requires_all_three_fields() {
    assert!(item("i", "t", "b").is_renderable());
    let missing = FeedItem {
        identifier: Some("i".to_string()),
        title: Some("t".to_string()),
        body: None,
    };
    assert!(!missing.is_renderable());
}

#[test]
fn parse_feed_rejects_malformed_bytes() {
    let r = parse_feed(&b"this is not a feed".to_vec());
    assert!(matches!(r, Err(FetchError::Parse)));
}

#[test]
fn load_cache_rejects_malformed_text() {
    let r = load_cache("not json at all");
    assert!(matches!(r, Err(CacheError::Malformed)));
    let r2 = load_cache("{\"a\": 3}");
    assert!(matches!(r2, Err(CacheError::Malformed)));
}

#[test]
fn empty_cache_round_trips() {
    let cache = load_cache("{}").unwrap();
    assert!(!cache.contains(&"any".to_string(), &"id".to_string()));
    assert_eq!(cache_to_json(&cache), "{}");
}

#[test]
fn cache_json_escapes_like_json() {
    let mut cache = DedupCache::new();
    let ids = vec!["a\"b".to_string()];
    cache.commit(&"s".to_string(), &ids);
    let text = cache_to_json(&cache);
    assert_eq!(text, "{\"s\":[\"a\\\"b\"]}");
    let reloaded = load_cache(&text).unwrap();
    assert!(reloaded.contains(&"s".to_string(), &"a\"b".to_string()));
}

#[test]
fn commit_deduplicates_and_unions() {
    let mut cache = load_cache("{\"s\": [\"x\"]}").unwrap();
    let ids = vec!["x".to_string(), "y".to_string(), "y".to_string()];
    cache.commit(&"s".to_string(), &ids);
    assert_eq!(cache_to_json(&cache), "{\"s\":[\"x\",\"y\"]}");
}

#[test]
fn dir_name_is_the_padded_date() {
    let d = RunDate::new(2024, 3, 7).unwrap();
    assert_eq!(d.dir_name(), "2024-03-07");
    let d2 = RunDate::new(987, 12, 31).unwrap();
    assert_eq!(d2.dir_name(), "0987-12-31");
    assert!(RunDate::new(10000, 1, 1).is_none());
    assert!(RunDate::new(2024, 0, 1).is_none());
    assert!(RunDate::new(2024, 13, 1).is_none());
    assert!(RunDate::new(2024, 1, 32).is_none());
}

#[test]
fn current_date_is_well_formed() {
    let d = daily_feed::date::current_run_date().unwrap();
    assert!(d.year <= 9999);
    assert!((1..=12).contains(&d.month));
    assert!((1..=31).contains(&d.day));
}
