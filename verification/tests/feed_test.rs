use news_ticker::db::{get_current, EntryTable};
use news_ticker::feed::{collect_fetched, parse_feed, read_feed_urls, refresh_with_entries, FeedItem, FeedsFile};

fn lines(ls: &[&str]) -> FeedsFile {
    FeedsFile::Lines(ls.iter().map(|l| l.to_string()).collect())
}

#[test]
fn test_read_feed_urls_valid() {
    let file = lines(&["https://example.com/feed.xml", "https://another-feed.com/rss"]);
    let urls = read_feed_urls("feeds.txt", file).unwrap();

    assert_eq!(urls.len(), 2);
    assert_eq!(urls[0], "https://example.com/feed.xml");
    assert_eq!(urls[1], "https://another-feed.com/rss");
}

#[test]
fn test_read_feed_urls_with_comments() {
    let file = lines(&[
        "# This is a comment",
        "https://valid-feed.com/rss",
        "# Another comment",
        "https://another-valid.com/feed",
    ]);
    let urls = read_feed_urls("feeds.txt", file).unwrap();

    assert_eq!(urls.len(), 2);
    assert_eq!(urls[0], "https://valid-feed.com/rss");
    assert_eq!(urls[1], "https://another-valid.com/feed");
}

#[test]
fn test_read_feed_urls_with_blanks() {
    let file = lines(&["https://feed1.com/rss", "", "   ", "https://feed2.com/rss"]);
    let urls = read_feed_urls("feeds.txt", file).unwrap();

    assert_eq!(urls.len(), 2);
}

#[test]
fn test_read_feed_urls_empty_file() {
    let result = read_feed_urls("feeds.txt", lines(&[]));
    assert!(result.is_err());
    assert!(result.unwrap_err().contains("No valid URLs"));
}

#[test]
fn test_read_feed_urls_nonexistent_file() {
    let result = read_feed_urls("/nonexistent/path/to/feeds.txt", FeedsFile::NotFound);
    assert!(result.is_err());
    assert!(result.unwrap_err().contains("Feeds file not found"));
}

#[test]
fn read_feed_urls_messages() {
    assert_eq!(
        read_feed_urls("/x/feeds.txt", FeedsFile::NotFound),
        Err("Feeds file not found: /x/feeds.txt".to_string())
    );
    assert_eq!(
        read_feed_urls("f", FeedsFile::OpenFailed("Permission denied".to_string())),
        Err("Unable to open f: Permission denied".to_string())
    );
    assert_eq!(
        read_feed_urls("f", lines(&["# only a comment", "  \t "])),
        Err("No valid URLs found in feeds file".to_string())
    );
}

#[test]
fn read_feed_urls_trims_unicode_whitespace() {
    let file = lines(&["\u{3000}\t https://a.example/rss \u{a0}\r", "  # indented comment", "x#y"]);
    let urls = read_feed_urls("f", file).unwrap();
    assert_eq!(urls, vec!["https://a.example/rss".to_string(), "x#y".to_string()]);
}

fn item(title: &str, link: &str) -> FeedItem {
    FeedItem { title: Some(title.to_string()), links: vec![link.to_string()], summary: None }
}

#[test]
fn collect_fetched_skips_failures_and_keeps_order() {
    let results = vec![
        Ok(vec![item("a", "la"), item("b", "lb")]),
        Err("HTTP error".to_string()),
        Ok(vec![]),
        Ok(vec![item("c", "lc")]),
    ];
    let all = collect_fetched(results);
    let titles: Vec<String> = all.iter().map(|i| i.title.clone().unwrap()).collect();
    assert_eq!(titles, vec!["a", "b", "c"]);
}

#[test]
fn refresh_adds_new_entries_once() {
    let mut table = EntryTable::new();
    let items = vec![item("a", "la"), item("b", "lb"), item("a again", "la")];
    let added = refresh_with_entries(&mut table, &items).unwrap();
    assert_eq!(added.len(), 2);
    assert_eq!(added[0].title, "a");
    assert_eq!(added[1].title, "b");
    assert_eq!(table.len(), 2);
    assert_eq!(get_current(&table).unwrap().title, "a");

    let again = refresh_with_entries(&mut table, &items).unwrap();
    assert!(again.is_empty());
    assert_eq!(table.len(), 2);
}

const RSS: &str = r#"<?xml version="1.0" encoding="UTF-8"?>
<rss version="2.0">
  <channel>
    <title>Example</title>
    <link>https://example.com/</link>
    <description>Example feed</description>
    <item>
      <title>First story</title>
      <link>https://example.com/1</link>
      <description>About the first story</description>
    </item>
    <item>
      <title>Second story</title>
      <link>https://example.com/2</link>
    </item>
  </channel>
</rss>"#;

#[test]
fn parse_feed_reads_rss_items() {
    let items = parse_feed(RSS.as_bytes()).unwrap();
    assert_eq!(items.len(), 2);
    assert_eq!(items[0].title.as_deref(), Some("First story"));
    assert_eq!(items[0].links, vec!["https://example.com/1".to_string()]);
    assert_eq!(items[0].summary.as_deref(), Some("About the first story"));
    assert_eq!(items[1].title.as_deref(), Some("Second story"));
    assert_eq!(items[1].summary, None);
}

#[test]
fn parse_feed_rejects_non_feeds() {
    let err = parse_feed(b"this is not a feed").unwrap_err();
    assert!(err.starts_with("Format error: "));
}

#[test]
fn parse_then_refresh() {
    let mut table = EntryTable::new();
    let items = parse_feed(RSS.as_bytes()).unwrap();
    let added = refresh_with_entries(&mut table, &items).unwrap();
    assert_eq!(added.len(), 2);
    assert_eq!(added[0].link, "https://example.com/1");
    assert_eq!(added[1].summary, "");
}

const REFUSED: &str = "Format error: the feed holds a duration that cannot be read safely";

fn podcast(duration: &str) -> String {
    format!(
        r#"<?xml version="1.0" encoding="UTF-8"?>
<rss version="2.0" xmlns:itunes="http://www.itunes.com/dtds/podcast-1.0.dtd">
  <channel>
    <title>Podcast</title>
    <item>
      <title>Episode</title>
      <link>https://example.com/ep</link>
      <itunes:duration>{}</itunes:duration>
    </item>
  </channel>
</rss>"#,
        duration
    )
}

#[test]
fn parse_feed_reads_a_plain_duration() {
    let items = parse_feed(podcast("01:23:45").as_bytes()).unwrap();
    assert_eq!(items.len(), 1);
    assert_eq!(items[0].title.as_deref(), Some("Episode"));
}

#[test]
fn parse_feed_refuses_a_long_duration() {
    let err = parse_feed(podcast("99999999999999999999999").as_bytes()).unwrap_err();
    assert_eq!(err, REFUSED);
}

#[test]
fn parse_feed_refuses_non_ascii_digits_in_a_duration() {
    let err = parse_feed(podcast("\u{0663}\u{0664}").as_bytes()).unwrap_err();
    assert_eq!(err, REFUSED);
}

#[test]
fn parse_feed_refuses_character_references_in_a_duration() {
    let err = parse_feed(podcast("&#49;&#50;").as_bytes()).unwrap_err();
    assert_eq!(err, REFUSED);
}

#[test]
fn parse_feed_refuses_a_long_media_start() {
    let doc = r#"<?xml version="1.0" encoding="UTF-8"?>
<rss version="2.0" xmlns:media="http://search.yahoo.com/mrss/">
  <channel>
    <title>Media</title>
    <item>
      <title>Clip</title>
      <media:text start = '123456789012345678901234'>words</media:text>
    </item>
  </channel>
</rss>"#;
    assert_eq!(parse_feed(doc.as_bytes()).unwrap_err(), REFUSED);
}

#[test]
fn parse_feed_refuses_a_sixteen_bit_declaration() {
    let doc = podcast("1").replace("UTF-8", "Utf-16LE");
    assert_eq!(parse_feed(doc.as_bytes()).unwrap_err(), REFUSED);
}

#[test]
fn parse_feed_refuses_a_sixteen_bit_mark() {
    let mut doc = vec![0xffu8, 0xfe];
    doc.extend_from_slice(RSS.as_bytes());
    assert_eq!(parse_feed(&doc).unwrap_err(), REFUSED);
}

#[test]
fn parse_feed_keeps_non_ascii_text_elsewhere() {
    let doc = podcast("45:00").replace("<title>Episode</title>", "<title>Épisode</title>");
    let items = parse_feed(doc.as_bytes()).unwrap();
    assert_eq!(items[0].title.as_deref(), Some("Épisode"));
}
