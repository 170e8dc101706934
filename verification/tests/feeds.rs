use startui::feed_guard::{feed_is_parse_safe, feed_parse_hazard, ParseHazard};
use startui::rss::{gather_round, FeedBatch, FeedEntry, RssItem, MAX_ENTRIES_PER_FEED};
use startui::config::{BookmarkConfig, Config};

fn rss_document(n: usize) -> String {
    let mut s = String::from("<?xml version=\"1.0\"?><rss version=\"2.0\"><channel><title>T</title><link>https://example.com</link><description>d</description>");
    for i in 0..n {
        s.push_str(&format!("<item><title>Story {}</title><link>https://example.com/{}</link></item>", i, i));
    }
    s.push_str("</channel></rss>");
    s
}

#[test]
fn parsed_feed_items_in_order() {
    let mut batch = FeedBatch::new();
    assert_eq!(batch.add_feed_document(rss_document(3).as_bytes()), Ok(3));
    let titles: Vec<&str> = batch.items.iter().map(|i| i.title.as_str()).collect();
    assert_eq!(titles, vec!["Story 0", "Story 1", "Story 2"]);
    assert_eq!(batch.items[2].link, "https://example.com/2");
    assert!(batch.error.is_none());
}

#[test]
fn at_most_fifteen_items_per_feed() {
    assert_eq!(MAX_ENTRIES_PER_FEED, 15);
    let mut batch = FeedBatch::new();
    assert_eq!(batch.add_feed_document(rss_document(20).as_bytes()), Ok(15));
    assert_eq!(batch.add_feed_document(rss_document(4).as_bytes()), Ok(4));
    assert_eq!(batch.items.len(), 19);
    assert_eq!(batch.items[14].title, "Story 14");
    assert_eq!(batch.items[15].title, "Story 0");
}

#[test]
fn atom_feed_is_read() {
    let doc = "<?xml version=\"1.0\" encoding=\"utf-8\"?><feed xmlns=\"http://www.w3.org/2005/Atom\"><title>F</title><id>urn:f</id><updated>2024-01-01T00:00:00Z</updated><entry><title>Atom story</title><id>urn:e</id><updated>2024-01-01T00:00:00Z</updated><link href=\"https://a.example/1\"/><link rel=\"alternate\" href=\"https://a.example/2\"/></entry></feed>";
    let mut batch = FeedBatch::new();
    assert_eq!(batch.add_feed_document(doc.as_bytes()), Ok(1));
    assert_eq!(batch.items[0].title, "Atom story");
    assert_eq!(batch.items[0].link, "https://a.example/1");
}

#[test]
fn missing_title_and_link_get_defaults() {
    let entries = vec![
        FeedEntry { title: None, links: vec![] },
        FeedEntry { title: Some("T".to_string()), links: vec!["l1".to_string(), "l2".to_string()] },
    ];
    let mut batch = FeedBatch::new();
    batch.add_entries(&entries);
    assert_eq!(batch.items[0].title, "No Title");
    assert_eq!(batch.items[0].link, "");
    assert_eq!(batch.items[1].title, "T");
    assert_eq!(batch.items[1].link, "l1");
}

#[test]
fn unparsable_document_records_failure() {
    let mut batch = FeedBatch::new();
    assert!(batch.add_feed_document(b"this is not a feed").is_err());
    assert!(batch.items.is_empty());
    assert_eq!(batch.error.as_deref(), Some("Network Error: Check error.log"));
    match batch.finish() {
        Some(Err(msg)) => assert_eq!(msg, "Network Error: Check error.log"),
        _ => panic!("expected the failure message"),
    }
}

#[test]
fn failure_message_recorded_directly() {
    let mut batch = FeedBatch::new();
    batch.add_failure();
    assert_eq!(batch.error.as_deref(), Some("Network Error: Check error.log"));
}

#[test]
fn items_win_over_failures() {
    let mut batch = FeedBatch::new();
    batch.add_failure();
    assert_eq!(batch.add_feed_document(rss_document(2).as_bytes()), Ok(2));
    match batch.finish() {
        Some(Ok(items)) => assert_eq!(items.len(), 2),
        _ => panic!("expected items"),
    }
}

#[test]
fn empty_round_reports_nothing() {
    assert!(FeedBatch::new().finish().is_none());
    let mut batch = FeedBatch::new();
    assert_eq!(batch.add_feed_document(rss_document(0).as_bytes()), Ok(0));
    assert!(batch.finish().is_none());
}

#[test]
fn config_holds_feeds_and_bookmarks() {
    let config = Config {
        rss_feeds: vec!["https://news.ycombinator.com/rss".to_string()],
        bookmarks: vec![BookmarkConfig { name: "Github".to_string(), url: "https://github.com".to_string() }],
    };
    let copy = config.clone();
    assert_eq!(copy.rss_feeds.len(), 1);
    assert_eq!(copy.bookmarks[0].name, "Github");
    let _ = RssItem { title: String::new(), link: String::new() };
}

fn podcast(duration: &str) -> String {
    format!("<?xml version=\"1.0\"?><rss version=\"2.0\" xmlns:itunes=\"http://www.itunes.com/dtds/podcast-1.0.dtd\"><channel><title>P</title><link>https://p.example</link><description>d</description><item><title>Episode</title><link>https://p.example/1</link><itunes:duration>{}</itunes:duration></item></channel></rss>", duration)
}

fn media_feed(time: &str) -> String {
    format!("<?xml version=\"1.0\"?><rss version=\"2.0\" xmlns:media=\"http://search.yahoo.com/mrss/\"><channel><title>M</title><link>https://m.example</link><description>d</description><item><title>Clip</title><link>https://m.example/1</link><media:thumbnail url=\"https://m.example/t.jpg\" time=\"{}\"/></item></channel></rss>", time)
}

#[test]
fn ordinary_durations_are_read() {
    let doc = podcast("01:02:03");
    assert!(feed_is_parse_safe(doc.as_bytes()));
    let mut batch = FeedBatch::new();
    assert_eq!(batch.add_feed_document(doc.as_bytes()), Ok(1));
    assert_eq!(batch.items[0].title, "Episode");
    let doc = media_feed("12:05:01.123");
    assert!(feed_is_parse_safe(doc.as_bytes()));
    assert_eq!(FeedBatch::new().add_feed_document(doc.as_bytes()), Ok(1));
}

#[test]
fn unicode_digit_duration_is_refused() {
    let doc = podcast("\u{661}\u{662}:00:00");
    assert!(!feed_is_parse_safe(doc.as_bytes()));
    let mut batch = FeedBatch::new();
    assert!(batch.add_feed_document(doc.as_bytes()).is_err());
    assert!(batch.items.is_empty());
    assert_eq!(batch.error.as_deref(), Some("Network Error: Check error.log"));
}

#[test]
fn overlong_digit_runs_are_refused() {
    let doc = podcast("123456789012345678901234567890");
    assert!(!feed_is_parse_safe(doc.as_bytes()));
    assert!(FeedBatch::new().add_feed_document(doc.as_bytes()).is_err());
    let doc = media_feed("99999999999999999999999");
    assert!(!feed_is_parse_safe(doc.as_bytes()));
    assert!(FeedBatch::new().add_feed_document(doc.as_bytes()).is_err());
    assert!(feed_is_parse_safe(podcast("123456789012345").as_bytes()));
    assert!(!feed_is_parse_safe(podcast("1234567890123456").as_bytes()));
}

#[test]
fn character_references_in_durations_are_refused() {
    assert!(!feed_is_parse_safe(podcast("&#x661;:00").as_bytes()));
    assert!(!feed_is_parse_safe(media_feed("&#49;&#50;").as_bytes()));
}

#[test]
fn documents_outside_the_checked_places_are_not_refused() {
    // Non-ASCII text and long numbers elsewhere are fine.
    let doc = "<?xml version=\"1.0\"?><rss version=\"2.0\"><channel><title>Caf\u{e9}</title><link>https://e.example/12345678901234567890</link><description>the end of the weekend &#8217;</description><item><title>\u{661}\u{662} start time</title><link>https://e.example/1</link></item></channel></rss>";
    assert!(feed_is_parse_safe(doc.as_bytes()));
    let mut batch = FeedBatch::new();
    assert_eq!(batch.add_feed_document(doc.as_bytes()), Ok(1));
    assert_eq!(batch.items[0].title, "\u{661}\u{662} start time");
}

#[test]
fn nul_and_escape_bytes_are_not_refused() {
    assert!(feed_is_parse_safe(b"<rss>\0</rss>"));
    assert!(feed_is_parse_safe(b"<rss>\x1b</rss>"));
    assert_eq!(feed_parse_hazard(b"<rss>\0</rss>"), None);
}

fn with_declaration(decl: &str, n: usize) -> String {
    let doc = rss_document(n);
    format!("{}{}", decl, &doc["<?xml version=\"1.0\"?>".len()..])
}

fn utf16(doc: &str, big_endian: bool) -> Vec<u8> {
    let mut out = if big_endian { vec![0xfe, 0xff] } else { vec![0xff, 0xfe] };
    for unit in doc.encode_utf16() {
        if big_endian {
            out.extend_from_slice(&unit.to_be_bytes());
        } else {
            out.extend_from_slice(&unit.to_le_bytes());
        }
    }
    out
}

#[test]
fn utf16_feed_with_byte_order_mark_is_read() {
    let doc = utf16(&with_declaration("<?xml version=\"1.0\" encoding=\"UTF-16\"?>", 3), false);
    assert!(doc.contains(&0));
    assert_eq!(feed_parse_hazard(&doc), None);
    let mut batch = FeedBatch::new();
    assert_eq!(batch.add_feed_document(&doc), Ok(3));
    assert_eq!(batch.items[1].title, "Story 1");
    assert_eq!(batch.items[2].link, "https://example.com/2");
    let (outcome, unread) = gather_round(&vec![Some(doc)]);
    match outcome {
        Some(Ok(items)) => assert_eq!(items.len(), 3),
        _ => panic!("expected items"),
    }
    assert!(unread.is_empty());
}

#[test]
fn big_endian_feed_declaring_little_endian_is_refused() {
    let doc = utf16(&with_declaration("<?xml version=\"1.0\" encoding=\"UTF-16\"?>", 1), true);
    assert_eq!(feed_parse_hazard(&doc), Some(ParseHazard::EncodingDeclaration));
    let mut batch = FeedBatch::new();
    assert_eq!(
        batch.add_feed_document(&doc),
        Err("the feed declares an encoding that the XML reader can no longer switch to".to_string())
    );
    assert_eq!(batch.error.as_deref(), Some("Network Error: Check error.log"));
    let doc = utf16(&with_declaration("<?xml version=\"1.0\" encoding=\"utf-16be\"?>", 1), true);
    assert_eq!(feed_parse_hazard(&doc), None);
}

#[test]
fn early_declaration_may_switch_the_decoder() {
    let doc = with_declaration("<?xml version=\"1.0\" encoding=\"windows-1252\"?>", 2);
    assert_eq!(feed_parse_hazard(doc.as_bytes()), None);
    assert_eq!(FeedBatch::new().add_feed_document(doc.as_bytes()), Ok(2));
    let doc = with_declaration("<?xml version=\"1.0\" encoding=\" UTF-8 \"?>", 2);
    assert_eq!(feed_parse_hazard(doc.as_bytes()), None);
    assert_eq!(FeedBatch::new().add_feed_document(doc.as_bytes()), Ok(2));
}

#[test]
fn late_declaration_switch_is_refused() {
    let decl = format!("<?xml version=\"1.0\"{} encoding=\"windows-1252\"?>", " ".repeat(40));
    let doc = with_declaration(&decl, 2);
    assert_eq!(feed_parse_hazard(doc.as_bytes()), Some(ParseHazard::EncodingDeclaration));
    let mut batch = FeedBatch::new();
    assert!(batch.add_feed_document(doc.as_bytes()).is_err());
    assert!(batch.items.is_empty());
    // Declaring the encoding already in use never switches anything.
    let decl = format!("<?xml version=\"1.0\"{} encoding=\"utf-8\"?>", " ".repeat(40));
    let doc = with_declaration(&decl, 2);
    assert_eq!(feed_parse_hazard(doc.as_bytes()), None);
    assert_eq!(FeedBatch::new().add_feed_document(doc.as_bytes()), Ok(2));
}

#[test]
fn second_declaration_naming_another_encoding_is_refused() {
    let doc = rss_document(1).replace("<channel>", "<channel><?xml version=\"1.0\" encoding=\"latin1\"?>");
    assert_eq!(feed_parse_hazard(doc.as_bytes()), Some(ParseHazard::EncodingDeclaration));
    assert!(!feed_is_parse_safe(doc.as_bytes()));
    assert!(FeedBatch::new().add_feed_document(doc.as_bytes()).is_err());
}

#[test]
fn time_value_hazard_is_named() {
    let doc = podcast("\u{661}\u{662}:00:00");
    assert_eq!(feed_parse_hazard(doc.as_bytes()), Some(ParseHazard::TimeValue));
    assert_eq!(
        FeedBatch::new().add_feed_document(doc.as_bytes()),
        Err("the feed holds a duration or media time that the parser cannot read safely".to_string())
    );
}

#[test]
fn predefined_entities_in_durations_are_read() {
    let doc = podcast("01&amp;02");
    assert_eq!(feed_parse_hazard(doc.as_bytes()), None);
    assert_eq!(FeedBatch::new().add_feed_document(doc.as_bytes()), Ok(1));
    let doc = media_feed("1&lt;2");
    assert!(feed_is_parse_safe(doc.as_bytes()));
    assert_eq!(FeedBatch::new().add_feed_document(doc.as_bytes()), Ok(1));
}

#[test]
fn round_concatenates_feeds_in_order() {
    let fetched = vec![
        Some(rss_document(20).into_bytes()),
        None,
        Some(b"not a feed".to_vec()),
        Some(rss_document(2).into_bytes()),
    ];
    let (outcome, unread) = gather_round(&fetched);
    match outcome {
        Some(Ok(items)) => {
            assert_eq!(items.len(), 17);
            assert_eq!(items[14].title, "Story 14");
            assert_eq!(items[15].title, "Story 0");
        }
        _ => panic!("expected items"),
    }
    assert_eq!(unread.len(), 1);
    assert_eq!(unread[0].0, 2);
}

#[test]
fn round_without_items_reports_failure_or_nothing() {
    let (outcome, _) = gather_round(&vec![None, Some(rss_document(0).into_bytes())]);
    match outcome {
        Some(Err(msg)) => assert_eq!(msg, "Network Error: Check error.log"),
        _ => panic!("expected the failure message"),
    }
    let (outcome, unread) = gather_round(&vec![Some(rss_document(0).into_bytes())]);
    assert!(outcome.is_none());
    assert!(unread.is_empty());
    let (outcome, _) = gather_round(&Vec::new());
    assert!(outcome.is_none());
}
