//! The streaming summarizer over whole feed documents.

use podreplay::{parse_timestamp, summarize_feed, FeedSummary, SummarizeError, SummaryItem};

fn parse_dt(dt_str: &str) -> i64 {
    chrono::NaiveDateTime::parse_from_str(dt_str, "%Y-%m-%dT%H:%M:%S")
        .unwrap()
        .and_utc()
        .timestamp()
}

fn atom_xml() -> String {
    let mut s = String::new();
    s.push_str("<?xml version=\"1.0\" encoding=\"utf-8\"?>\n");
    s.push_str("<feed xmlns=\"http://www.w3.org/2005/Atom\">\n");
    s.push_str("    <title>Example Feed</title>\n");
    s.push_str("    <updated>2003-12-13T18:30:02Z</updated>\n");
    s.push_str("    <entry>\n");
    s.push_str("        <title>Atom-Powered Robots Run Amok</title>\n");
    s.push_str("        <id>urn:uuid:1225c695-cfb8-4ebb-aaaa-80da344efa6a</id>\n");
    s.push_str("        <updated>2003-12-13T18:30:02Z</updated>\n");
    s.push_str(
        "        <link rel=\"enclosure\" type=\"audio/mpeg\" href=\"http://example.org/audio/ep1.mp3\"/>\n",
    );
    s.push_str("    </entry>\n");
    s.push_str("</feed>\n");
    s
}

fn rss2_xml() -> String {
    let mut s = String::new();
    s.push_str("<?xml version=\"1.0\"?>\n");
    s.push_str("<rss version=\"2.0\">\n");
    s.push_str("\t<channel>\n");
    s.push_str("\t\t<title>Scripting News</title>\n");
    s.push_str("\t\t<item>\n");
    s.push_str("\t\t\t<title>Joshua Allen: Who loves namespaces?</title>\n");
    s.push_str(
        "\t\t\t<guid>http://scriptingnews.userland.com/backissues/2002/09/29#When:12:59:01PM</guid>\n",
    );
    s.push_str("\t\t\t<pubDate>Sun, 29 Sep 2002 19:59:01 GMT</pubDate>\n");
    s.push_str(
        "\t\t\t<enclosure url=\"http://example.org/audio/one.mp3\" type=\"audio/mpeg\"/>\n",
    );
    s.push_str("\t\t</item>\n");
    s.push_str("\t\t<item>\n");
    s.push_str(
        "\t\t\t<description>With any luck we should have one or two more days of namespaces stuff here on Scripting News. It feels like it&apos;s winding down.</description>\n",
    );
    s.push_str(
        "\t\t\t<guid>http://scriptingnews.userland.com/backissues/2002/09/29#When:6:56:02PM</guid>\n",
    );
    s.push_str("\t\t\t<pubDate>Mon, 30 Sep 2002 01:56:02 GMT</pubDate>\n");
    s.push_str(
        "\t\t\t<enclosure url=\"http://example.org/audio/two.mp3\" type=\"audio/mpeg\"/>\n",
    );
    s.push_str("\t\t</item>\n");
    s.push_str("\t</channel>\n");
    s.push_str("</rss>\n");
    s
}

#[test]
fn summarize_atom() {
    let xml = atom_xml();
    let output = FeedSummary::new("testing".to_string(), xml.as_bytes()).unwrap();
    let expected = vec![SummaryItem {
        id: "urn:uuid:1225c695-cfb8-4ebb-aaaa-80da344efa6a".to_string(),
        title: "Atom-Powered Robots Run Amok".to_string(),
        timestamp: parse_dt("2003-12-13T18:30:02"),
    }];
    assert_eq!(output.items, expected);
    assert_eq!(output.title, "Example Feed");
    assert!(!output.marked_private);
}

#[test]
fn summarize_rss2() {
    let xml = rss2_xml();
    let output = FeedSummary::new("testing".to_string(), xml.as_bytes()).unwrap();
    let expected = vec![
        SummaryItem {
            id: "http://scriptingnews.userland.com/backissues/2002/09/29#When:12:59:01PM"
                .to_string(),
            title: "Joshua Allen: Who loves namespaces?".to_string(),
            timestamp: parse_dt("2002-09-29T19:59:01"),
        },
        SummaryItem {
            id: "http://scriptingnews.userland.com/backissues/2002/09/29#When:6:56:02PM"
                .to_string(),
            title: "With any luck we should have one or two more days of namespaces stuff here on Scripting Ne..."
                .to_string(),
            timestamp: parse_dt("2002-09-30T01:56:02"),
        },
    ];
    assert_eq!(output.items, expected);
    assert_eq!(output.title, "Scripting News");
}

#[test]
fn items_without_enclosures_are_dropped() {
    let xml = "<?xml version=\"1.0\"?><rss><channel><item>\
        <guid>one</guid><pubDate>Sun, 29 Sep 2002 19:59:01 GMT</pubDate>\
        </item></channel></rss>";
    let output = FeedSummary::new("testing".to_string(), xml.as_bytes()).unwrap();
    assert!(output.items.is_empty());
}

#[test]
fn marked_private_flag() {
    let xml = "<?xml version=\"1.0\"?><rss><channel>\
        <itunes:block>yEs</itunes:block>\
        </channel></rss>";
    let output = FeedSummary::new("testing".to_string(), xml.as_bytes()).unwrap();
    assert!(output.marked_private);
}

#[test]
fn padded_block_text_is_not_private() {
    // The element text is compared verbatim, whitespace included.
    let xml = "<?xml version=\"1.0\"?><rss><channel>\
        <itunes:block> yes </itunes:block>\
        </channel></rss>";
    let output = FeedSummary::new("testing".to_string(), xml.as_bytes()).unwrap();
    assert!(!output.marked_private);
}

#[test]
fn description_fallback_strips_markup() {
    let xml = "<?xml version=\"1.0\"?><rss><channel><item>\
        <guid>one</guid>\
        <description>&lt;p&gt;Plain &lt;b&gt;text&lt;/b&gt; only&lt;/p&gt;</description>\
        <pubDate>Sun, 29 Sep 2002 19:59:01 GMT</pubDate>\
        <enclosure type=\"audio/mpeg\"/>\
        </item></channel></rss>";
    let output = FeedSummary::new("testing".to_string(), xml.as_bytes()).unwrap();
    assert_eq!(output.items.len(), 1);
    assert_eq!(output.items[0].title, "Plain text only");
}

#[test]
fn character_references_resolve_to_utf8() {
    let xml = "<?xml version=\"1.0\"?><rss><channel><item>\
        <guid>one</guid>\
        <title>A&#x2019;B &#233;</title>\
        <pubDate>Sun, 29 Sep 2002 19:59:01 GMT</pubDate>\
        <enclosure type=\"audio/mpeg\"/>\
        </item></channel></rss>";
    let output = FeedSummary::new("testing".to_string(), xml.as_bytes()).unwrap();
    assert_eq!(output.items.len(), 1);
    assert_eq!(output.items[0].title, "A\u{2019}B \u{e9}");
}

#[test]
fn not_a_feed_without_declaration_or_items() {
    let r = summarize_feed(b"<html><body>hello</body></html>");
    assert!(matches!(r, Err(SummarizeError::NotAFeed)));
}

#[test]
fn cdata_and_entities_in_item_ids() {
    let xml = "<?xml version=\"1.0\"?><rss><channel><item>\
        <guid><![CDATA[id one]]></guid>\
        <title>A &amp; B</title>\
        <pubDate>Sun, 29 Sep 2002 19:59:01 GMT</pubDate>\
        <enclosure type=\"audio/mpeg\"/>\
        </item></channel></rss>";
    let output = FeedSummary::new("testing".to_string(), xml.as_bytes()).unwrap();
    assert_eq!(output.items.len(), 1);
    assert_eq!(output.items[0].id, "id one");
    assert_eq!(output.items[0].title, "A & B");
}

#[test]
fn timestamps_parse_common_forms() {
    assert_eq!(
        parse_timestamp("2003-12-13T18:30:02Z"),
        Some(parse_dt("2003-12-13T18:30:02"))
    );
    assert_eq!(
        parse_timestamp("Sun, 29 Sep 2002 19:59:01 GMT"),
        Some(parse_dt("2002-09-29T19:59:01"))
    );
    assert_eq!(parse_timestamp("wat"), None);
}
