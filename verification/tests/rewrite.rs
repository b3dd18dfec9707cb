//! The byte-faithful rewriter over whole feed documents.

use podreplay::{rewrite_feed, ReplayedItem, Reschedule};

fn parse_dt(dt_str: &str) -> i64 {
    chrono::NaiveDateTime::parse_from_str(dt_str, "%Y-%m-%dT%H:%M:%S")
        .unwrap()
        .and_utc()
        .timestamp()
}

fn reschedule(pairs: Vec<(&str, &str)>) -> Reschedule {
    Reschedule {
        entries: pairs
            .into_iter()
            .map(|(id, ts)| ReplayedItem {
                id: id.to_string(),
                timestamp: parse_dt(ts),
            })
            .collect(),
    }
}

fn atom_xml() -> String {
    let mut s = String::new();
    s.push_str("<?xml version=\"1.0\" encoding=\"utf-8\"?>\n");
    s.push_str("<feed xmlns=\"http://www.w3.org/2005/Atom\">\n");
    s.push_str("    <title>Example Feed</title>\n");
    s.push_str("    <updated>2003-12-13T18:30:02Z</updated>\n");
    s.push_str("    <entry>\n");
    s.push_str("        <title>Atom-Powered Robots Run Amok</title>\n");
    s.push_str("        <id>urn:uuid:1225c695-cfb8-4ebb-aaaa-80da344efa6a</id>\n");
    s.push_str("        <updated>2003-12-13T18:30:02Z</updated>\n");
    s.push_str(
        "        <link rel=\"enclosure\" type=\"audio/mpeg\" href=\"http://example.org/audio/ep1.mp3\"/>\n",
    );
    s.push_str("    </entry>\n");
    s.push_str("</feed>\n");
    s
}

fn rss2_xml() -> String {
    let mut s = String::new();
    s.push_str("<?xml version=\"1.0\"?>\n");
    s.push_str("<rss version=\"2.0\">\n");
    s.push_str("\t<channel>\n");
    s.push_str("\t\t<title>Scripting News</title>\n");
    s.push_str("\t\t<item>\n");
    s.push_str("\t\t\t<title>Joshua Allen: Who loves namespaces?</title>\n");
    s.push_str(
        "\t\t\t<guid>http://scriptingnews.userland.com/backissues/2002/09/29#When:12:59:01PM</guid>\n",
    );
    s.push_str("\t\t\t<pubDate>Sun, 29 Sep 2002 19:59:01 GMT</pubDate>\n");
    s.push_str(
        "\t\t\t<enclosure url=\"http://example.org/audio/one.mp3\" type=\"audio/mpeg\"/>\n",
    );
    s.push_str("\t\t</item>\n");
    s.push_str("\t\t<item>\n");
    s.push_str(
        "\t\t\t<guid>http://scriptingnews.userland.com/backissues/2002/09/29#When:6:56:02PM</guid>\n",
    );
    s.push_str("\t\t\t<pubDate>Mon, 30 Sep 2002 01:56:02 GMT</pubDate>\n");
    s.push_str(
        "\t\t\t<enclosure url=\"http://example.org/audio/two.mp3\" type=\"audio/mpeg\"/>\n",
    );
    s.push_str("\t\t</item>\n");
    s.push_str("\t</channel>\n");
    s.push_str("</rss>\n");
    s
}

#[test]
fn rewrite_atom() {
    let xml = atom_xml();
    let map = reschedule(vec![(
        "urn:uuid:1225c695-cfb8-4ebb-aaaa-80da344efa6a",
        "2021-12-13T16:00:00",
    )]);
    let out = rewrite_feed(
        xml.as_bytes(),
        &map,
        false,
        &Some("Hello World".to_string()),
    )
    .unwrap();
    let expected = xml
        .replace(
            "        <updated>2003-12-13T18:30:02Z</updated>",
            "        <updated>2021-12-13T16:00:00Z</updated>",
        )
        .replace("<title>Example Feed</title>", "<title>Hello World</title>");
    assert_eq!(String::from_utf8(out).unwrap(), expected);
}

#[test]
fn rewrite_rss2() {
    let xml = rss2_xml();
    let map = reschedule(vec![
        (
            "http://scriptingnews.userland.com/backissues/2002/09/29#When:6:56:02PM",
            "2021-12-13T16:00:00",
        ),
        (
            "http://scriptingnews.userland.com/backissues/2002/09/29#When:12:59:01PM",
            "2021-12-20T16:00:00",
        ),
    ]);
    let out = rewrite_feed(xml.as_bytes(), &map, false, &None).unwrap();
    let expected = xml
        .replace(
            "<pubDate>Mon, 30 Sep 2002 01:56:02 GMT</pubDate>",
            "<pubDate>Mon, 13 Dec 2021 16:00:00 +0000</pubDate>",
        )
        .replace(
            "<pubDate>Sun, 29 Sep 2002 19:59:01 GMT</pubDate>",
            "<pubDate>Mon, 20 Dec 2021 16:00:00 +0000</pubDate>",
        )
        .replace(
            "<title>Scripting News</title>",
            "<title>Scripting News (PodReplay)</title>",
        );
    assert_eq!(String::from_utf8(out).unwrap(), expected);
}

#[test]
fn empty_reschedule_drops_every_item() {
    let xml = rss2_xml();
    let map = reschedule(vec![]);
    let out = rewrite_feed(xml.as_bytes(), &map, false, &None).unwrap();
    let s = String::from_utf8(out).unwrap();
    assert!(!s.contains("<item>"));
    assert!(!s.contains("<guid>"));
    assert!(s.contains("<channel>"));
}

#[test]
fn items_missing_an_id_are_dropped() {
    let xml = "<?xml version=\"1.0\"?><rss><channel><item>\
        <pubDate>Sun, 29 Sep 2002 19:59:01 GMT</pubDate>\
        <enclosure type=\"audio/mpeg\"/>\
        </item></channel></rss>";
    let map = reschedule(vec![("one", "2021-12-13T16:00:00")]);
    let out = rewrite_feed(xml.as_bytes(), &map, false, &None).unwrap();
    let s = String::from_utf8(out).unwrap();
    assert!(!s.contains("<item>"));
}

#[test]
fn privacy_marking_is_inserted_after_channel() {
    let xml = "<?xml version=\"1.0\"?><rss><channel><title>T</title></channel></rss>";
    let map = reschedule(vec![]);
    let out = rewrite_feed(xml.as_bytes(), &map, true, &None).unwrap();
    let s = String::from_utf8(out).unwrap();
    assert!(s.contains("<channel><itunes:block>Yes</itunes:block>"));
}

#[test]
fn privacy_marking_needs_the_atom_namespace_on_feed() {
    let atom = "<?xml version=\"1.0\"?>\
        <feed xmlns=\"http://www.w3.org/2005/Atom\"><title>T</title></feed>";
    let other = "<?xml version=\"1.0\"?><feed><title>T</title></feed>";
    let map = reschedule(vec![]);
    let out = rewrite_feed(atom.as_bytes(), &map, true, &None).unwrap();
    assert!(String::from_utf8(out).unwrap().contains("<itunes:block>Yes</itunes:block>"));
    let out2 = rewrite_feed(other.as_bytes(), &map, true, &None).unwrap();
    assert!(!String::from_utf8(out2).unwrap().contains("itunes:block"));
}

#[test]
fn missing_title_gets_the_default() {
    let xml = "<?xml version=\"1.0\"?><rss><channel><title></title></channel></rss>";
    let map = reschedule(vec![]);
    let out = rewrite_feed(xml.as_bytes(), &map, false, &None).unwrap();
    let s = String::from_utf8(out).unwrap();
    assert!(s.contains("<title>Untitled Podreplay Feed</title>"));
}

#[test]
fn cdata_outside_items_round_trips() {
    let xml = "<?xml version=\"1.0\"?><rss><channel>\
        <description><![CDATA[Stays <exactly> as-is & unchanged]]></description>\
        </channel></rss>";
    let map = reschedule(vec![]);
    let out = rewrite_feed(xml.as_bytes(), &map, false, &None).unwrap();
    let s = String::from_utf8(out).unwrap();
    assert!(s.contains("<![CDATA[Stays <exactly> as-is & unchanged]]>"));
}
