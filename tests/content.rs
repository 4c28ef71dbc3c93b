use greyxml::content::{content_lines, decode_entities};

#[test]
fn entities_are_decoded() {
    assert_eq!(decode_entities("a &amp;lt; b", true), "a < b");
    assert_eq!(decode_entities("a &amp;lt; b", false), "a &amp;lt; b");
    assert_eq!(decode_entities("x&#xA;y&quot;&#39;&apos;&#34;&gt;", false), "x\ny\"''\">");
    assert_eq!(decode_entities("", true), "");
}

#[test]
fn paragraphs_become_lines() {
    assert_eq!(
        content_lines("<p>Hello<br />World</p><p>a &amp; b</p>"),
        vec!["Hello", "World", "a & b"]
    );
}

#[test]
fn closing_outer_element_flushes_pending_text() {
    assert_eq!(content_lines("<div><a>x</a></div>"), vec!["x", ""]);
}

#[test]
fn link_outside_paragraph_starts_a_line() {
    assert_eq!(content_lines("<div>one<a>two</a></div>"), vec!["one", "two", ""]);
    assert_eq!(content_lines("<p>one<a>two</a></p>"), vec!["onetwo", ""]);
}

#[test]
fn span_is_transparent() {
    assert_eq!(content_lines("<p>a<span>b</span>c</p>"), vec!["abc"]);
}

#[test]
fn text_without_elements_renders_nothing() {
    assert!(content_lines("just text").is_empty());
}
