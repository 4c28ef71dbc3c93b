use greyxml::atom::{Category, Feed, Link, Person};
use greyxml::elements::{Element, FeedError, TokenCursor};
use greyxml::rss::{read_rss, EncodedContent, Image, Item};
use greyxml::tokenizer::Tokens;

fn s(x: &str) -> String {
    x.to_string()
}

#[test]
fn rss_document_is_read() {
    let doc = read_rss(
        "<?xml version=\"1.0\"?><rss version=\"2.0\" xmlns:a=\"b\"><channel><title>T</title>\
         <link>L</link><ttl>60</ttl><item><title>I1</title><guid>g</guid></item>\
         <image><url>u</url><width>10</width></image></channel></rss>",
    )
    .unwrap();
    assert_eq!(doc.version, Some(s("2.0")));
    assert_eq!(doc.specs, Some(vec![(s("xmlns:a"), s("b"))]));
    let channel = &doc.channel.data;
    assert_eq!(doc.channel.name, "channel");
    assert_eq!(channel.title.data, "T");
    assert_eq!(channel.link.data, "L");
    assert_eq!(channel.ttl.as_ref().unwrap().data, 60);
    assert_eq!(channel.items.len(), 1);
    assert_eq!(channel.items[0].data.title.as_ref().unwrap().data, "I1");
    assert_eq!(channel.items[0].data.guid.as_ref().unwrap().data, "g");
    let image = &channel.image.as_ref().unwrap().data;
    assert_eq!(image.url.data, "u");
    assert_eq!(image.width.as_ref().unwrap().data, 10);
    assert!(image.height.is_none());
    assert!(channel.language.is_none());
}

#[test]
fn number_that_does_not_parse_keeps_zero() {
    let doc = read_rss("<rss><channel><ttl>abc</ttl></channel></rss>").unwrap();
    assert_eq!(doc.channel.data.ttl.as_ref().unwrap().data, 0);
    let doc = read_rss("<rss><channel><ttl>+7</ttl></channel></rss>").unwrap();
    assert_eq!(doc.channel.data.ttl.as_ref().unwrap().data, 7);
    let doc = read_rss("<rss><channel><ttl>4294967296</ttl></channel></rss>").unwrap();
    assert_eq!(doc.channel.data.ttl.as_ref().unwrap().data, 0);
    let doc = read_rss("<rss><channel><ttl>4294967295</ttl></channel></rss>").unwrap();
    assert_eq!(doc.channel.data.ttl.as_ref().unwrap().data, 4294967295);
    let doc = read_rss("<rss><channel><ttl>007</ttl></channel></rss>").unwrap();
    assert_eq!(doc.channel.data.ttl.as_ref().unwrap().data, 7);
    for bad in ["+", "-1", "1 2", "x9"] {
        let input = format!("<rss><channel><ttl>{bad}</ttl></channel></rss>");
        let doc = read_rss(&input).unwrap();
        assert_eq!(doc.channel.data.ttl.as_ref().unwrap().data, 0, "{bad}");
    }
}

#[test]
fn rss_errors() {
    assert_eq!(read_rss("<html></html>").unwrap_err(), FeedError::MissingRoot);
    assert_eq!(read_rss("<rss>").unwrap_err(), FeedError::Truncated);
    assert_eq!(read_rss("<rss><foo></foo></rss>").unwrap_err(), FeedError::MissingChannel);
}

#[test]
fn rss_bare_version_reads_as_true() {
    // A bare attribute gets the value "true" from the tokenizer.
    let doc = read_rss("<rss version><channel></channel></rss>").unwrap();
    assert_eq!(doc.version, Some(s("true")));
    assert_eq!(doc.specs, None);
}

#[test]
fn atom_feed_is_read() {
    let feed = Feed::serialize(
        "<feed xmlns=\"http://www.w3.org/2005/Atom\"><title>F</title><id>x</id>\
         <entry><title>E</title><author><name>N</name><email>m</email></author>\
         <link href=\"h\"/><category term=\"c\"/></entry></feed>",
    )
    .unwrap();
    // The token right after the root's opening tag is passed over, here the
    // `xmlns` name, so no root attributes remain.
    assert_eq!(feed.specs, None);
    assert_eq!(feed.contents.title.data, "F");
    assert_eq!(feed.contents.id.data, "x");
    assert_eq!(feed.contents.entries.len(), 1);
    let entry = feed.contents.entries[0].data.as_ref().unwrap();
    assert_eq!(entry.title.data, "E");
    let authors = entry.authors.as_ref().unwrap();
    assert_eq!(authors.len(), 1);
    assert_eq!(authors[0].data.name.data, "N");
    assert_eq!(authors[0].data.email.as_ref().unwrap().data, "m");
    let links = entry.links.as_ref().unwrap();
    assert_eq!(links[0].attributes, vec![(s("href"), s("h"))]);
    assert_eq!(entry.categories.as_ref().unwrap()[0].attributes, vec![(s("term"), s("c"))]);
    assert!(entry.contributors.is_none());
}

#[test]
fn atom_errors() {
    assert_eq!(Feed::serialize("<rss></rss>").unwrap_err(), FeedError::MissingRoot);
    assert_eq!(Feed::serialize("<feed>").unwrap_err(), FeedError::Truncated);
}

#[test]
fn atom_root_attributes_after_the_first_are_kept() {
    let feed = Feed::serialize("<feed a=\"1\" b=\"2\"><title>F</title></feed>").unwrap();
    assert_eq!(feed.specs, None);
    let feed = Feed::serialize("<feed skipped a=\"1\"><title>F</title></feed>").unwrap();
    // `skipped` and its synthesized value take the passed-over token and the
    // first pair's name slot.
    assert_eq!(feed.contents.title.data, "F");
}

#[test]
fn entry_with_attributes_and_no_title_holds_nothing() {
    let tokens = vec![
        Tokens::OpenNode(s("entry")),
        Tokens::ParameterName(s("a")),
        Tokens::ParameterValue(s("1")),
        Tokens::CloseNode(s("entry")),
    ];
    let mut cursor = TokenCursor::new(tokens);
    let first = cursor.next().unwrap();
    let e = Element::<Option<greyxml::atom::Entry>>::serialize(first, &mut cursor);
    assert!(e.data.is_none());
    assert_eq!(e.attributes, vec![(s("a"), s("1"))]);
}

#[test]
fn text_element_reads_attributes_and_text() {
    let tokens = vec![
        Tokens::OpenNode(s("t")),
        Tokens::ParameterName(s("a")),
        Tokens::ParameterValue(s("1")),
        Tokens::Text(s("x")),
        Tokens::CloseNode(s("t")),
        Tokens::Text(s("after")),
    ];
    let mut cursor = TokenCursor::new(tokens);
    let first = cursor.next().unwrap();
    let e = Element::<String>::serialize(first, &mut cursor);
    assert_eq!(e.name, "t");
    assert_eq!(e.attributes, vec![(s("a"), s("1"))]);
    assert_eq!(e.data, "x");
    // The closing token is left for the caller.
    assert_eq!(cursor.pos, 4);
}

#[test]
fn number_element_reads_value() {
    let tokens = vec![
        Tokens::OpenNode(s("width")),
        Tokens::Text(s("42")),
        Tokens::CloseNode(s("width")),
    ];
    let mut cursor = TokenCursor::new(tokens);
    let first = cursor.next().unwrap();
    let e = Element::<u32>::serialize(first, &mut cursor);
    assert_eq!(e.data, 42);
    assert_eq!(cursor.pos, 2);
}

#[test]
fn encoded_content_wraps_bare_text() {
    let tokens = vec![
        Tokens::OpenNode(s("content:encoded")),
        Tokens::Text(s("hi")),
        Tokens::OpenNode(s("b")),
        Tokens::Text(s("bold")),
        Tokens::CloseNode(s("b")),
        Tokens::CloseNode(s("content:encoded")),
    ];
    let mut cursor = TokenCursor::new(tokens);
    let first = cursor.next().unwrap();
    let e = Element::<EncodedContent>::serialize(first, &mut cursor);
    let names: Vec<&str> = e.data.0.iter().map(|x| x.name.as_str()).collect();
    let texts: Vec<&str> = e.data.0.iter().map(|x| x.data.as_str()).collect();
    assert_eq!(names, vec!["p", "b"]);
    assert_eq!(texts, vec!["hi", "bold"]);
    assert_eq!(e.data.1, "");
    assert_eq!(cursor.pos, 5);
}

#[test]
fn item_and_image_readers() {
    let tokens = vec![
        Tokens::OpenNode(s("item")),
        Tokens::OpenNode(s("media")),
        Tokens::CloseNode(s("media")),
        Tokens::OpenNode(s("author")),
        Tokens::Text(s("A")),
        Tokens::CloseNode(s("author")),
        Tokens::CloseNode(s("item")),
    ];
    let mut cursor = TokenCursor::new(tokens);
    let first = cursor.next().unwrap();
    let e = Element::<Item>::serialize(first, &mut cursor);
    assert_eq!(e.data.author.as_ref().unwrap().data, "A");
    assert!(e.data.media.is_none());

    let tokens = vec![
        Tokens::OpenNode(s("image")),
        Tokens::OpenNode(s("height")),
        Tokens::Text(s("5")),
        Tokens::CloseNode(s("height")),
        Tokens::CloseNode(s("image")),
    ];
    let mut cursor = TokenCursor::new(tokens);
    let first = cursor.next().unwrap();
    let e = Element::<Image>::serialize(first, &mut cursor);
    assert_eq!(e.data.height.as_ref().unwrap().data, 5);
}

#[test]
fn person_category_and_link_readers() {
    let tokens = vec![
        Tokens::OpenNode(s("author")),
        Tokens::OpenNode(s("uri")),
        Tokens::Text(s("u")),
        Tokens::CloseNode(s("uri")),
        Tokens::CloseNode(s("author")),
    ];
    let mut cursor = TokenCursor::new(tokens);
    let first = cursor.next().unwrap();
    let p = Element::<Person>::serialize(first, &mut cursor);
    assert_eq!(p.data.uri.as_ref().unwrap().data, "u");
    assert_eq!(p.data.name.data, "");

    let tokens = vec![
        Tokens::OpenNode(s("link")),
        Tokens::Text(s("t")),
        Tokens::CloseNode(s("link")),
    ];
    let mut cursor = TokenCursor::new(tokens);
    let first = cursor.next().unwrap();
    let l = Element::<Link>::serialize(first, &mut cursor);
    assert_eq!(l.data.0, Some(s("t")));

    let tokens = vec![
        Tokens::OpenNode(s("category")),
        Tokens::ParameterName(s("term")),
        Tokens::ParameterValue(s("x")),
        Tokens::CloseNode(s("category")),
    ];
    let mut cursor = TokenCursor::new(tokens);
    let first = cursor.next().unwrap();
    let c = Element::<Category>::serialize(first, &mut cursor);
    assert_eq!(c.attributes, vec![(s("term"), s("x"))]);
}
