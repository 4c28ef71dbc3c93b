//! RSS elements read from a token stream.
use vstd::prelude::*;

use crate::elements::{
    document_cursor, document_tokens, first_open, kept, opt_pairs, skip_past_open, string_of,
    FeedError,
    after_attribute, attrs_view, copy_token, cursor_tokens, empty_text_element,
    empty_text_element_value, min_int, opt_text_element_view, read_attribute, read_text_child,
    after_text_child, lemma_text_walk_advances, start_text_walk, text_element_at, text_element_view,
    with_attribute, Attrs, Element, TextElement, TokenCursor,
};
use crate::tags::{
    is_channel, is_version, tag_rss, tag_version,
    is_cloud, is_copyright, is_docs, is_generator, is_image, is_item, is_language,
    is_last_build_date, is_managing_editor, is_rating, is_ttl, is_web_master, tag_channel,
    tag_cloud, tag_copyright, tag_docs, tag_generator, tag_language, tag_last_build_date,
    tag_managing_editor, tag_rating, tag_ttl, tag_web_master,
    is_author, is_category, is_content_encoded, is_description, is_enclosure, is_guid, is_height,
    is_link, is_pub_date, is_source, is_title, is_url, is_width, tag_author, tag_category,
    tag_content_encoded, tag_description, tag_enclosure, tag_guid, tag_height, tag_image,
    tag_item, tag_link, tag_p, tag_pub_date, tag_source, tag_title, tag_url, tag_width,
};
use crate::tokenizer::{Token, Tokens};

verus! {

/// The value of ASCII decimal digits.
pub open spec fn digits_value(s: Seq<char>) -> int
    decreases s.len(),
{
    if s.len() == 0 {
        0
    } else {
        digits_value(s.drop_last()) * 10 + (s.last() as int - '0' as int)
    }
}

/// `s` without one leading `+`.
pub open spec fn unsigned_digits(s: Seq<char>) -> Seq<char> {
    if s.len() > 0 && s[0] == '+' {
        s.drop_first()
    } else {
        s
    }
}

/// Text that `u32::from_str` accepts: an optional `+`, then one or more
/// ASCII digits whose value fits in a `u32`.
pub open spec fn is_u32_text(s: Seq<char>) -> bool {
    let d = unsigned_digits(s);
    &&& d.len() > 0
    &&& forall|j: int| 0 <= j < d.len() ==> '0' <= #[trigger] d[j] && d[j] <= '9'
    &&& digits_value(d) <= u32::MAX
}

pub open spec fn u32_of(s: Seq<char>) -> u32 {
    digits_value(unsigned_digits(s)) as u32
}

proof fn lemma_digits_prefix(s: Seq<char>, k: int)
    requires
        0 <= k <= s.len(),
        forall|j: int| 0 <= j < s.len() ==> '0' <= #[trigger] s[j] && s[j] <= '9',
    ensures
        0 <= digits_value(s.subrange(0, k)) <= digits_value(s),
    decreases s.len() - k,
{
    if k == s.len() {
        assert(s.subrange(0, k) =~= s);
        lemma_digits_nonnegative(s);
    } else {
        let t = s.drop_last();
        assert(t.subrange(0, k) =~= s.subrange(0, k));
        lemma_digits_prefix(t, k);
    }
}

proof fn lemma_digits_nonnegative(s: Seq<char>)
    requires
        forall|j: int| 0 <= j < s.len() ==> '0' <= #[trigger] s[j] && s[j] <= '9',
    ensures
        digits_value(s) >= 0,
    decreases s.len(),
{
    if s.len() > 0 {
        let t = s.drop_last();
        assert forall|j: int| 0 <= j < t.len() implies '0' <= #[trigger] t[j] && t[j] <= '9' by {
            assert(t[j] == s[j]);
        }
        lemma_digits_nonnegative(t);
    }
}

/// Reads `s` as `u32::from_str` does: an optional `+` followed by ASCII
/// digits whose value fits; `None` for anything else.
fn parse_u32(s: &str) -> (r: Option<u32>)
    ensures
        r is Some <==> is_u32_text(s@),
        r matches Some(v) ==> v == u32_of(s@),
{
    let chars = crate::text::chars_of(s);
    let n = chars.len();
    let start: usize = if n > 0 && chars[0] == '+' {
        1
    } else {
        0
    };
    let ghost d = unsigned_digits(s@);
    assert(d =~= chars@.subrange(start as int, n as int));
    if start == n {
        return None;
    }
    let mut v: u64 = 0;
    let mut i: usize = start;
    assert(d.subrange(0, 0) =~= Seq::<char>::empty());
    while i < n
        invariant
            chars@ == s@,
            n == chars@.len(),
            start <= i <= n,
            d == chars@.subrange(start as int, n as int),
            d == unsigned_digits(s@),
            forall|j: int| 0 <= j < i - start ==> '0' <= #[trigger] d[j] && d[j] <= '9',
            v as int == digits_value(d.subrange(0, i - start)),
            v <= u32::MAX,
        decreases n - i,
    {
        let c = chars[i];
        assert(d[i - start] == c);
        if c < '0' || c > '9' {
            assert(!('0' <= d[i - start] && d[i - start] <= '9'));
            return None;
        }
        let digit = (c as u32 - '0' as u32) as u64;
        let ghost p = d.subrange(0, i - start + 1);
        assert(p.drop_last() =~= d.subrange(0, i - start));
        assert(p.last() == c);
        v = v * 10 + digit;
        assert(v as int == digits_value(p));
        if v > u32::MAX as u64 {
            proof {
                if forall|j: int| 0 <= j < d.len() ==> '0' <= #[trigger] d[j] && d[j] <= '9' {
                    lemma_digits_prefix(d, i - start + 1);
                }
            }
            return None;
        }
        i = i + 1;
    }
    assert(d.subrange(0, n - start) =~= d);
    Some(v as u32)
}

/// The state of a walk through a number element.
pub struct NumberWalk {
    pub value: u32,
    pub attrs: Attrs,
    pub looking: bool,
    pub ok: bool,
    pub pos: int,
}

pub open spec fn start_number_walk(pos: int) -> NumberWalk {
    NumberWalk { value: 0, attrs: Seq::empty(), looking: true, ok: true, pos }
}

/// Reads a number element named `node` as `text_walk` reads a text element.
/// A text that is not a number leaves the value as it was; `ok` records
/// whether every text was one.
pub open spec fn number_walk(toks: Seq<Token>, node: Seq<char>, w: NumberWalk) -> NumberWalk
    decreases toks.len() - w.pos,
{
    if w.pos < 0 || w.pos >= toks.len() {
        w
    } else {
        match toks[w.pos] {
            Token::ParameterName(n) => {
                if w.looking {
                    number_walk(
                        toks,
                        node,
                        NumberWalk {
                            attrs: with_attribute(toks, w.pos, n, w.attrs),
                            pos: after_attribute(toks, w.pos),
                            ..w
                        },
                    )
                } else {
                    number_walk(toks, node, NumberWalk { pos: w.pos + 1, ..w })
                }
            },
            Token::Text(t) => number_walk(
                toks,
                node,
                NumberWalk {
                    looking: false,
                    value: if is_u32_text(t) {
                        u32_of(t)
                    } else {
                        w.value
                    },
                    ok: w.ok && is_u32_text(t),
                    pos: w.pos + 1,
                    ..w
                },
            ),
            Token::CloseNode(c) => {
                if c == node {
                    NumberWalk { looking: false, ..w }
                } else {
                    number_walk(toks, node, NumberWalk { looking: false, pos: w.pos + 1, ..w })
                }
            },
            _ => number_walk(toks, node, NumberWalk { looking: false, pos: w.pos + 1, ..w }),
        }
    }
}

proof fn lemma_number_walk_facts(toks: Seq<Token>, node: Seq<char>, w: NumberWalk)
    ensures
        number_walk(toks, node, w).pos >= w.pos,
        w.pos <= toks.len() ==> number_walk(toks, node, w).pos <= toks.len(),
        number_walk(toks, node, w).ok ==> w.ok,
    decreases toks.len() - w.pos,
{
    if 0 <= w.pos < toks.len() {
        match toks[w.pos] {
            Token::ParameterName(n) => {
                if w.looking {
                    lemma_number_walk_facts(
                        toks,
                        node,
                        NumberWalk {
                            attrs: with_attribute(toks, w.pos, n, w.attrs),
                            pos: after_attribute(toks, w.pos),
                            ..w
                        },
                    );
                } else {
                    lemma_number_walk_facts(toks, node, NumberWalk { pos: w.pos + 1, ..w });
                }
            },
            Token::Text(t) => {
                lemma_number_walk_facts(
                    toks,
                    node,
                    NumberWalk {
                        looking: false,
                        value: if is_u32_text(t) {
                            u32_of(t)
                        } else {
                            w.value
                        },
                        ok: w.ok && is_u32_text(t),
                        pos: w.pos + 1,
                        ..w
                    },
                );
            },
            Token::CloseNode(c) => {
                if c != node {
                    lemma_number_walk_facts(
                        toks,
                        node,
                        NumberWalk { looking: false, pos: w.pos + 1, ..w },
                    );
                }
            },
            _ => {
                lemma_number_walk_facts(toks, node, NumberWalk { looking: false, pos: w.pos + 1, ..w });
            },
        }
    }
}

/// The value of a number element.
pub struct NumberElement {
    pub name: Seq<char>,
    pub attrs: Attrs,
    pub data: u32,
}

pub open spec fn number_element_view(e: &Element<u32>) -> NumberElement {
    NumberElement { name: e.name@, attrs: attrs_view(e.attributes@), data: e.data }
}

pub open spec fn opt_number_element_view(o: &Option<Element<u32>>) -> Option<NumberElement> {
    match o {
        Some(e) => Some(number_element_view(e)),
        None => None,
    }
}

/// The number element whose opening token stands at `pos`, where its reader
/// stops, and whether its texts were all numbers.
pub open spec fn number_element_at(toks: Seq<Token>, pos: int) -> (NumberElement, int, bool) {
    let name = toks[pos]->OpenNode_0;
    let w = number_walk(toks, name, start_number_walk(pos + 1));
    (NumberElement { name, attrs: w.attrs, data: w.value }, w.pos, w.ok)
}

impl Element<u32> {
    /// Reads a number element whose opening token is `token`. A text that
    /// is not a number leaves the value as it was.
    pub fn serialize(token: Tokens, tokens: &mut TokenCursor) -> (r: Self)
        requires
            token is OpenNode,
        ensures
            ({
                let w = number_walk(
                    cursor_tokens(old(tokens)),
                    token@->OpenNode_0,
                    start_number_walk(old(tokens).pos as int),
                );
                &&& r.name@ == token@->OpenNode_0
                &&& attrs_view(r.attributes@) == w.attrs
                &&& r.data == w.value
                &&& final(tokens).pos == w.pos
            }),
            final(tokens).tokens@ == old(tokens).tokens@,
    {
        let node = match token {
            Tokens::OpenNode(n) => n,
            _ => String::new(),
        };
        let ghost toks = cursor_tokens(tokens);
        let ghost orig = tokens.tokens@;
        let ghost goal = number_walk(toks, node@, start_number_walk(tokens.pos as int));
        let mut content: u32 = 0;
        let mut attributes: Vec<(String, String)> = Vec::new();
        let mut looking = true;
        let ghost mut ok = true;
        assert(attrs_view(attributes@) =~= Seq::empty());
        loop
            invariant
                toks == cursor_tokens(tokens),
                tokens.tokens@ == orig,
                number_walk(
                    toks,
                    node@,
                    NumberWalk {
                        value: content,
                        attrs: attrs_view(attributes@),
                        looking,
                        ok,
                        pos: tokens.pos as int,
                    },
                ) == goal,
            ensures
                goal == (NumberWalk {
                    value: content,
                    attrs: attrs_view(attributes@),
                    looking,
                    ok,
                    pos: tokens.pos as int,
                }),
            decreases toks.len() - tokens.pos,
        {
            let t = match tokens.peek() {
                Some(t) => copy_token(t),
                None => {
                    break ;
                },
            };
            match t {
                Tokens::ParameterName(name) => {
                    if looking {
                        tokens.next();
                        read_attribute(tokens, name, &mut attributes);
                        continue ;
                    }
                },
                Tokens::Text(text) => {
                    looking = false;
                    proof {
                        ok = ok && is_u32_text(text@);
                    }
                    match parse_u32(text.as_str()) {
                        Some(v) => {
                            content = v;
                        },
                        None => {},
                    }
                },
                Tokens::CloseNode(c_node) => {
                    looking = false;
                    if node == c_node {
                        break ;
                    }
                },
                _ => {
                    looking = false;
                },
            }
            tokens.next();
        }
        Element { name: node, attributes, data: content }
    }
}

/// Reads the number element whose opening token is under the cursor, then
/// moves past the token that stopped it.
pub fn read_number_child(tokens: &mut TokenCursor) -> (r: Element<u32>)
    requires
        old(tokens).pos < old(tokens).tokens@.len(),
        cursor_tokens(old(tokens))[old(tokens).pos as int] is OpenNode,
    ensures
        ({
            let (e, end, ok) = number_element_at(cursor_tokens(old(tokens)), old(tokens).pos as int);
            &&& number_element_view(&r) == e
            &&& final(tokens).pos == min_int(end + 1, old(tokens).tokens@.len() as int)
        }),
        final(tokens).pos > old(tokens).pos,
        final(tokens).tokens@ == old(tokens).tokens@,
{
    let ghost toks = cursor_tokens(tokens);
    let ghost p = tokens.pos as int;
    let t = tokens.next().unwrap();
    let e = Element::<u32>::serialize(t, tokens);
    proof {
        lemma_number_walk_facts(toks, toks[p]->OpenNode_0, start_number_walk(p + 1));
        assert(attrs_view(e.attributes@) == number_element_at(toks, p).0.attrs);
    }
    tokens.next();
    e
}


/// An RSS channel image.
#[derive(Debug, Default)]
pub struct Image {
    pub url: Element<String>,
    pub title: Element<String>,
    pub link: Element<String>,
    pub width: Option<Element<u32>>,
    pub height: Option<Element<u32>>,
    pub description: Option<Element<String>>,
}

/// The value of an image.
pub struct ImageData {
    pub url: TextElement,
    pub title: TextElement,
    pub link: TextElement,
    pub width: Option<NumberElement>,
    pub height: Option<NumberElement>,
    pub description: Option<TextElement>,
}

pub open spec fn image_data(i: &Image) -> ImageData {
    ImageData {
        url: text_element_view(&i.url),
        title: text_element_view(&i.title),
        link: text_element_view(&i.link),
        width: opt_number_element_view(&i.width),
        height: opt_number_element_view(&i.height),
        description: opt_text_element_view(&i.description),
    }
}

pub open spec fn empty_image_data() -> ImageData {
    ImageData {
        url: empty_text_element(),
        title: empty_text_element(),
        link: empty_text_element(),
        width: None,
        height: None,
        description: None,
    }
}

pub open spec fn after_number_child(toks: Seq<Token>, pos: int) -> int {
    min_int(number_element_at(toks, pos).1 + 1, toks.len() as int)
}

/// An image child `child` opening at `pos`: the image after it, where the
/// cursor goes, and whether the texts of a number child were numbers.
pub open spec fn image_child(toks: Seq<Token>, pos: int, d: ImageData, child: Seq<char>) -> (
    ImageData,
    int,
    bool,
) {
    if child == tag_url() {
        (ImageData { url: text_element_at(toks, pos).0, ..d }, after_text_child(toks, pos), true)
    } else if child == tag_title() {
        (ImageData { title: text_element_at(toks, pos).0, ..d }, after_text_child(toks, pos), true)
    } else if child == tag_link() {
        (ImageData { link: text_element_at(toks, pos).0, ..d }, after_text_child(toks, pos), true)
    } else if child == tag_description() {
        (
            ImageData { description: Some(text_element_at(toks, pos).0), ..d },
            after_text_child(toks, pos),
            true,
        )
    } else if child == tag_width() {
        (
            ImageData { width: Some(number_element_at(toks, pos).0), ..d },
            after_number_child(toks, pos),
            number_element_at(toks, pos).2,
        )
    } else if child == tag_height() {
        (
            ImageData { height: Some(number_element_at(toks, pos).0), ..d },
            after_number_child(toks, pos),
            number_element_at(toks, pos).2,
        )
    } else {
        (d, pos + 1, true)
    }
}

pub struct ImageWalk {
    pub data: ImageData,
    pub attrs: Attrs,
    pub looking: bool,
    pub ok: bool,
    pub pos: int,
}

pub open spec fn start_image_walk(pos: int) -> ImageWalk {
    ImageWalk { data: empty_image_data(), attrs: Seq::empty(), looking: true, ok: true, pos }
}

/// Reads an image named `node`: its `url`, `title`, `link`, `description`,
/// `width` and `height` children, up to (not past) the first `CloseNode(node)`.
pub open spec fn image_walk(toks: Seq<Token>, node: Seq<char>, w: ImageWalk) -> ImageWalk
    decreases toks.len() - w.pos,
{
    if w.pos < 0 || w.pos >= toks.len() {
        w
    } else {
        match toks[w.pos] {
            Token::ParameterName(n) => {
                if w.looking {
                    image_walk(
                        toks,
                        node,
                        ImageWalk {
                            attrs: with_attribute(toks, w.pos, n, w.attrs),
                            pos: after_attribute(toks, w.pos),
                            ..w
                        },
                    )
                } else {
                    image_walk(
                        toks,
                        node,
                        ImageWalk { pos: min_int(w.pos + 2, toks.len() as int), ..w },
                    )
                }
            },
            Token::OpenNode(child) => {
                let (d, next, ok) = image_child(toks, w.pos, w.data, child);
                if next <= w.pos {
                    w
                } else {
                    image_walk(toks, node, ImageWalk { data: d, ok: w.ok && ok, pos: next, ..w })
                }
            },
            Token::CloseNode(c) => {
                if c == node {
                    ImageWalk { looking: false, ..w }
                } else {
                    image_walk(toks, node, ImageWalk { looking: false, pos: w.pos + 1, ..w })
                }
            },
            _ => image_walk(toks, node, ImageWalk { looking: false, pos: w.pos + 1, ..w }),
        }
    }
}

pub proof fn lemma_child_facts(toks: Seq<Token>, pos: int)
    requires
        0 <= pos < toks.len(),
    ensures
        pos < after_text_child(toks, pos) <= toks.len(),
        pos < after_number_child(toks, pos) <= toks.len(),
{
    let name = toks[pos]->OpenNode_0;
    lemma_text_walk_advances(toks, name, start_text_walk(pos + 1));
    lemma_number_walk_facts(toks, name, start_number_walk(pos + 1));
}

proof fn lemma_image_walk_facts(toks: Seq<Token>, node: Seq<char>, w: ImageWalk)
    ensures
        image_walk(toks, node, w).pos >= w.pos,
        w.pos <= toks.len() ==> image_walk(toks, node, w).pos <= toks.len(),
        image_walk(toks, node, w).ok ==> w.ok,
    decreases toks.len() - w.pos,
{
    if 0 <= w.pos < toks.len() {
        match toks[w.pos] {
            Token::ParameterName(n) => {
                if w.looking {
                    lemma_image_walk_facts(
                        toks,
                        node,
                        ImageWalk {
                            attrs: with_attribute(toks, w.pos, n, w.attrs),
                            pos: after_attribute(toks, w.pos),
                            ..w
                        },
                    );
                } else {
                    lemma_image_walk_facts(
                        toks,
                        node,
                        ImageWalk { pos: min_int(w.pos + 2, toks.len() as int), ..w },
                    );
                }
            },
            Token::OpenNode(child) => {
                lemma_child_facts(toks, w.pos);
                let (d, next, ok) = image_child(toks, w.pos, w.data, child);
                if next > w.pos {
                    lemma_image_walk_facts(
                        toks,
                        node,
                        ImageWalk { data: d, ok: w.ok && ok, pos: next, ..w },
                    );
                }
            },
            Token::CloseNode(c) => {
                if c != node {
                    lemma_image_walk_facts(toks, node, ImageWalk { looking: false, pos: w.pos + 1, ..w });
                }
            },
            _ => {
                lemma_image_walk_facts(toks, node, ImageWalk { looking: false, pos: w.pos + 1, ..w });
            },
        }
    }
}

/// Reads the child of an image whose opening token, `child`, is under the cursor.
fn read_image_child_into(image: &mut Image, child: &String, tokens: &mut TokenCursor)
    requires
        old(tokens).pos < old(tokens).tokens@.len(),
        cursor_tokens(old(tokens))[old(tokens).pos as int] == Token::OpenNode(child@),
    ensures
        ({
            let (d, next, ok) = image_child(
                cursor_tokens(old(tokens)),
                old(tokens).pos as int,
                image_data(old(image)),
                child@,
            );
            &&& image_data(final(image)) == d
            &&& final(tokens).pos == next
        }),
        final(tokens).tokens@ == old(tokens).tokens@,
{
    if is_url(child) {
        image.url = read_text_child(tokens);
    } else if is_title(child) {
        image.title = read_text_child(tokens);
    } else if is_link(child) {
        image.link = read_text_child(tokens);
    } else if is_description(child) {
        image.description = Some(read_text_child(tokens));
    } else if is_width(child) {
        image.width = Some(read_number_child(tokens));
    } else if is_height(child) {
        image.height = Some(read_number_child(tokens));
    } else {
        tokens.next();
    }
}

pub open spec fn image_state(i: &Image, attrs: Attrs, looking: bool, ok: bool, pos: int) -> ImageWalk {
    ImageWalk { data: image_data(i), attrs, looking, ok, pos }
}

impl Element<Image> {
    /// Reads an image element whose opening token is `token`, named `image`.
    pub fn serialize(token: Tokens, tokens: &mut TokenCursor) -> (r: Self)
        requires
            token@ == Token::OpenNode(tag_image()),
        ensures
            ({
                let w = image_walk(
                    cursor_tokens(old(tokens)),
                    tag_image(),
                    start_image_walk(old(tokens).pos as int),
                );
                &&& r.name@ == tag_image()
                &&& attrs_view(r.attributes@) == w.attrs
                &&& image_data(&r.data) == w.data
                &&& final(tokens).pos == w.pos
            }),
            final(tokens).tokens@ == old(tokens).tokens@,
    {
        let node = match token {
            Tokens::OpenNode(n) => n,
            _ => String::new(),
        };
        let ghost toks = cursor_tokens(tokens);
        let ghost orig = tokens.tokens@;
        let ghost goal = image_walk(toks, node@, start_image_walk(tokens.pos as int));
        let ghost mut ok = true;
        let mut image = Image {
            url: empty_text_element_value(),
            title: empty_text_element_value(),
            link: empty_text_element_value(),
            width: None,
            height: None,
            description: None,
        };
        let mut attributes: Vec<(String, String)> = Vec::new();
        let mut looking = true;
        assert(attrs_view(attributes@) =~= Seq::empty());
        loop
            invariant
                toks == cursor_tokens(tokens),
                tokens.tokens@ == orig,
                image_walk(
                    toks,
                    node@,
                    image_state(&image, attrs_view(attributes@), looking, ok, tokens.pos as int),
                ) == goal,
            ensures
                goal == image_state(&image, attrs_view(attributes@), looking, ok, tokens.pos as int),
            decreases toks.len() - tokens.pos,
        {
            let t = match tokens.peek() {
                Some(t) => copy_token(t),
                None => {
                    break ;
                },
            };
            match t {
                Tokens::ParameterName(name) => {
                    if looking {
                        tokens.next();
                        read_attribute(tokens, name, &mut attributes);
                        continue ;
                    } else {
                        tokens.next();
                    }
                },
                Tokens::OpenNode(child) => {
                    proof {
                        lemma_child_facts(toks, tokens.pos as int);
                        ok = ok && image_child(toks, tokens.pos as int, image_data(&image), child@).2;
                    }
                    read_image_child_into(&mut image, &child, tokens);
                    continue ;
                },
                Tokens::CloseNode(close) => {
                    looking = false;
                    if node == close {
                        break ;
                    }
                },
                _ => {
                    looking = false;
                },
            }
            tokens.next();
        }
        Element { name: node, attributes, data: image }
    }
}

/// The image element whose opening token stands at `pos`, where its reader
/// stops, and whether its numbers were numbers.
pub open spec fn image_element_at(toks: Seq<Token>, pos: int) -> (ImageWalk, int, bool) {
    let w = image_walk(toks, tag_image(), start_image_walk(pos + 1));
    (w, w.pos, w.ok)
}


/// The content of an encoded-content element: its child elements, with each
/// bare text as an element named `p`.
#[derive(Debug, Default)]
pub struct EncodedContent(pub Vec<Element<String>>, pub String);

/// The value of an encoded-content element.
pub struct EncodedData {
    pub name: Seq<char>,
    pub attrs: Attrs,
    pub elements: Seq<TextElement>,
}

pub open spec fn text_elements_view(v: Seq<Element<String>>) -> Seq<TextElement> {
    v.map_values(|e: Element<String>| text_element_view(&e))
}

pub open spec fn encoded_view(e: &Element<EncodedContent>) -> EncodedData {
    EncodedData { name: e.name@, attrs: attrs_view(e.attributes@), elements: text_elements_view(e.data.0@) }
}

pub struct EncodedWalk {
    pub elements: Seq<TextElement>,
    pub attrs: Attrs,
    pub looking: bool,
    pub pos: int,
}

pub open spec fn start_encoded_walk(pos: int) -> EncodedWalk {
    EncodedWalk { elements: Seq::empty(), attrs: Seq::empty(), looking: true, pos }
}

/// Reads encoded content named `node`: every child as a text element and
/// every bare text as a `p` element, up to (not past) the first `CloseNode(node)`.
pub open spec fn encoded_walk(toks: Seq<Token>, node: Seq<char>, w: EncodedWalk) -> EncodedWalk
    decreases toks.len() - w.pos,
{
    if w.pos < 0 || w.pos >= toks.len() {
        w
    } else {
        match toks[w.pos] {
            Token::ParameterName(n) => {
                if w.looking {
                    encoded_walk(
                        toks,
                        node,
                        EncodedWalk {
                            attrs: with_attribute(toks, w.pos, n, w.attrs),
                            pos: after_attribute(toks, w.pos),
                            ..w
                        },
                    )
                } else {
                    encoded_walk(
                        toks,
                        node,
                        EncodedWalk { pos: min_int(w.pos + 2, toks.len() as int), ..w },
                    )
                }
            },
            Token::OpenNode(_) => {
                let next = after_text_child(toks, w.pos);
                if next <= w.pos {
                    w
                } else {
                    encoded_walk(
                        toks,
                        node,
                        EncodedWalk {
                            elements: w.elements.push(text_element_at(toks, w.pos).0),
                            looking: false,
                            pos: next,
                            ..w
                        },
                    )
                }
            },
            Token::Text(t) => encoded_walk(
                toks,
                node,
                EncodedWalk {
                    elements: w.elements.push(
                        TextElement { name: tag_p(), attrs: Seq::empty(), data: t },
                    ),
                    pos: w.pos + 1,
                    ..w
                },
            ),
            Token::CloseNode(c) => {
                if c == node {
                    EncodedWalk { looking: false, ..w }
                } else {
                    encoded_walk(toks, node, EncodedWalk { looking: false, pos: w.pos + 1, ..w })
                }
            },
            _ => encoded_walk(toks, node, EncodedWalk { looking: false, pos: w.pos + 1, ..w }),
        }
    }
}

proof fn lemma_encoded_walk_facts(toks: Seq<Token>, node: Seq<char>, w: EncodedWalk)
    ensures
        encoded_walk(toks, node, w).pos >= w.pos,
        w.pos <= toks.len() ==> encoded_walk(toks, node, w).pos <= toks.len(),
    decreases toks.len() - w.pos,
{
    if 0 <= w.pos < toks.len() {
        match toks[w.pos] {
            Token::ParameterName(n) => {
                if w.looking {
                    lemma_encoded_walk_facts(
                        toks,
                        node,
                        EncodedWalk {
                            attrs: with_attribute(toks, w.pos, n, w.attrs),
                            pos: after_attribute(toks, w.pos),
                            ..w
                        },
                    );
                } else {
                    lemma_encoded_walk_facts(
                        toks,
                        node,
                        EncodedWalk { pos: min_int(w.pos + 2, toks.len() as int), ..w },
                    );
                }
            },
            Token::OpenNode(_) => {
                lemma_child_facts(toks, w.pos);
                lemma_encoded_walk_facts(
                    toks,
                    node,
                    EncodedWalk {
                        elements: w.elements.push(text_element_at(toks, w.pos).0),
                        looking: false,
                        pos: after_text_child(toks, w.pos),
                        ..w
                    },
                );
            },
            Token::Text(t) => {
                lemma_encoded_walk_facts(
                    toks,
                    node,
                    EncodedWalk {
                        elements: w.elements.push(
                            TextElement { name: tag_p(), attrs: Seq::empty(), data: t },
                        ),
                        pos: w.pos + 1,
                        ..w
                    },
                );
            },
            Token::CloseNode(c) => {
                if c != node {
                    lemma_encoded_walk_facts(toks, node, EncodedWalk { looking: false, pos: w.pos + 1, ..w });
                }
            },
            _ => {
                lemma_encoded_walk_facts(toks, node, EncodedWalk { looking: false, pos: w.pos + 1, ..w });
            },
        }
    }
}

/// The element named `p` that holds a bare text.
fn paragraph(text: String) -> (r: Element<String>)
    ensures
        text_element_view(&r) == (TextElement { name: tag_p(), attrs: Seq::empty(), data: text@ }),
{
    let mut name = String::new();
    crate::text::push_char(&mut name, 'p');
    assert(name@ =~= tag_p());
    let r = Element { name, attributes: Vec::new(), data: text };
    assert(attrs_view(r.attributes@) =~= Seq::empty());
    r
}

impl Element<EncodedContent> {
    /// Reads an encoded-content element whose opening token is `token`,
    /// named `content:encoded`.
    pub fn serialize(token: Tokens, tokens: &mut TokenCursor) -> (r: Self)
        requires
            token@ == Token::OpenNode(tag_content_encoded()),
        ensures
            ({
                let w = encoded_walk(
                    cursor_tokens(old(tokens)),
                    tag_content_encoded(),
                    start_encoded_walk(old(tokens).pos as int),
                );
                &&& encoded_view(&r) == (EncodedData {
                    name: tag_content_encoded(),
                    attrs: w.attrs,
                    elements: w.elements,
                })
                &&& r.data.1@ == Seq::<char>::empty()
                &&& final(tokens).pos == w.pos
            }),
            final(tokens).tokens@ == old(tokens).tokens@,
    {
        let node = match token {
            Tokens::OpenNode(n) => n,
            _ => String::new(),
        };
        let ghost toks = cursor_tokens(tokens);
        let ghost orig = tokens.tokens@;
        let ghost goal = encoded_walk(toks, node@, start_encoded_walk(tokens.pos as int));
        let mut attributes: Vec<(String, String)> = Vec::new();
        let mut elements: Vec<Element<String>> = Vec::new();
        let mut looking = true;
        assert(attrs_view(attributes@) =~= Seq::empty());
        assert(text_elements_view(elements@) =~= Seq::empty());
        loop
            invariant
                toks == cursor_tokens(tokens),
                tokens.tokens@ == orig,
                encoded_walk(
                    toks,
                    node@,
                    EncodedWalk {
                        elements: text_elements_view(elements@),
                        attrs: attrs_view(attributes@),
                        looking,
                        pos: tokens.pos as int,
                    },
                ) == goal,
            ensures
                goal == (EncodedWalk {
                    elements: text_elements_view(elements@),
                    attrs: attrs_view(attributes@),
                    looking,
                    pos: tokens.pos as int,
                }),
            decreases toks.len() - tokens.pos,
        {
            let t = match tokens.peek() {
                Some(t) => copy_token(t),
                None => {
                    break ;
                },
            };
            let ghost before = elements@;
            match t {
                Tokens::ParameterName(name) => {
                    if looking {
                        tokens.next();
                        read_attribute(tokens, name, &mut attributes);
                        continue ;
                    } else {
                        tokens.next();
                    }
                },
                Tokens::OpenNode(_) => {
                    proof {
                        lemma_child_facts(toks, tokens.pos as int);
                    }
                    looking = false;
                    let e = read_text_child(tokens);
                    elements.push(e);
                    assert(text_elements_view(elements@) =~= text_elements_view(before).push(
                        text_element_view(&e),
                    ));
                    continue ;
                },
                Tokens::Text(text) => {
                    let e = paragraph(text);
                    elements.push(e);
                    assert(text_elements_view(elements@) =~= text_elements_view(before).push(
                        text_element_view(&e),
                    ));
                },
                Tokens::CloseNode(close) => {
                    looking = false;
                    if node == close {
                        break ;
                    }
                },
                _ => {
                    looking = false;
                },
            }
            tokens.next();
        }
        Element { name: node, attributes, data: EncodedContent(elements, String::new()) }
    }
}

/// Reads the encoded-content element whose opening token is under the
/// cursor, then moves past the token that stopped it.
fn read_encoded_child(tokens: &mut TokenCursor) -> (r: Element<EncodedContent>)
    requires
        old(tokens).pos < old(tokens).tokens@.len(),
        cursor_tokens(old(tokens))[old(tokens).pos as int] == Token::OpenNode(tag_content_encoded()),
    ensures
        encoded_view(&r) == encoded_element_at(cursor_tokens(old(tokens)), old(tokens).pos as int),
        final(tokens).pos == after_encoded_child(cursor_tokens(old(tokens)), old(tokens).pos as int),
        final(tokens).tokens@ == old(tokens).tokens@,
{
    let ghost toks = cursor_tokens(tokens);
    let ghost p = tokens.pos as int;
    let t = tokens.next().unwrap();
    let e = Element::<EncodedContent>::serialize(t, tokens);
    proof {
        lemma_encoded_walk_facts(toks, tag_content_encoded(), start_encoded_walk(p + 1));
    }
    tokens.next();
    e
}

pub open spec fn encoded_element_at(toks: Seq<Token>, pos: int) -> EncodedData {
    let w = encoded_walk(toks, tag_content_encoded(), start_encoded_walk(pos + 1));
    EncodedData { name: tag_content_encoded(), attrs: w.attrs, elements: w.elements }
}

pub open spec fn after_encoded_child(toks: Seq<Token>, pos: int) -> int {
    min_int(
        encoded_walk(toks, tag_content_encoded(), start_encoded_walk(pos + 1)).pos + 1,
        toks.len() as int,
    )
}

proof fn lemma_encoded_child_facts(toks: Seq<Token>, pos: int)
    requires
        0 <= pos < toks.len(),
    ensures
        pos < after_encoded_child(toks, pos) <= toks.len(),
{
    lemma_encoded_walk_facts(toks, tag_content_encoded(), start_encoded_walk(pos + 1));
}

/// An RSS item.
#[derive(Debug, Default)]
pub struct Item {
    pub title: Option<Element<String>>,
    pub link: Option<Element<String>>,
    pub description: Option<Element<String>>,
    pub author: Option<Element<String>>,
    pub category: Option<Element<String>>,
    pub enclosure: Option<Element<String>>,
    pub guid: Option<Element<String>>,
    pub pub_date: Option<Element<String>>,
    pub source: Option<Element<String>>,
    pub content_encoded: Option<Element<EncodedContent>>,
    pub media: Option<Element<Media>>,
}

/// A media element; none of its content is kept.
#[derive(Debug, Default)]
pub struct Media {}

/// The value of an item.
pub struct ItemData {
    pub title: Option<TextElement>,
    pub link: Option<TextElement>,
    pub description: Option<TextElement>,
    pub author: Option<TextElement>,
    pub category: Option<TextElement>,
    pub enclosure: Option<TextElement>,
    pub guid: Option<TextElement>,
    pub pub_date: Option<TextElement>,
    pub source: Option<TextElement>,
    pub content_encoded: Option<EncodedData>,
}

pub open spec fn item_data(i: &Item) -> ItemData {
    ItemData {
        title: opt_text_element_view(&i.title),
        link: opt_text_element_view(&i.link),
        description: opt_text_element_view(&i.description),
        author: opt_text_element_view(&i.author),
        category: opt_text_element_view(&i.category),
        enclosure: opt_text_element_view(&i.enclosure),
        guid: opt_text_element_view(&i.guid),
        pub_date: opt_text_element_view(&i.pub_date),
        source: opt_text_element_view(&i.source),
        content_encoded: match &i.content_encoded {
            Some(e) => Some(encoded_view(e)),
            None => None,
        },
    }
}

pub open spec fn empty_item_data() -> ItemData {
    ItemData {
        title: None,
        link: None,
        description: None,
        author: None,
        category: None,
        enclosure: None,
        guid: None,
        pub_date: None,
        source: None,
        content_encoded: None,
    }
}

/// An item child `child` opening at `pos`: the item after it, and where the cursor goes.
pub open spec fn item_child(toks: Seq<Token>, pos: int, d: ItemData, child: Seq<char>) -> (ItemData, int) {
    if child == tag_title() {
        (ItemData { title: Some(text_element_at(toks, pos).0), ..d }, after_text_child(toks, pos))
    } else if child == tag_link() {
        (ItemData { link: Some(text_element_at(toks, pos).0), ..d }, after_text_child(toks, pos))
    } else if child == tag_description() {
        (ItemData { description: Some(text_element_at(toks, pos).0), ..d }, after_text_child(toks, pos))
    } else if child == tag_author() {
        (ItemData { author: Some(text_element_at(toks, pos).0), ..d }, after_text_child(toks, pos))
    } else if child == tag_category() {
        (ItemData { category: Some(text_element_at(toks, pos).0), ..d }, after_text_child(toks, pos))
    } else if child == tag_enclosure() {
        (ItemData { enclosure: Some(text_element_at(toks, pos).0), ..d }, after_text_child(toks, pos))
    } else if child == tag_guid() {
        (ItemData { guid: Some(text_element_at(toks, pos).0), ..d }, after_text_child(toks, pos))
    } else if child == tag_pub_date() {
        (ItemData { pub_date: Some(text_element_at(toks, pos).0), ..d }, after_text_child(toks, pos))
    } else if child == tag_source() {
        (ItemData { source: Some(text_element_at(toks, pos).0), ..d }, after_text_child(toks, pos))
    } else if child == tag_content_encoded() {
        (
            ItemData { content_encoded: Some(encoded_element_at(toks, pos)), ..d },
            after_encoded_child(toks, pos),
        )
    } else {
        (d, pos + 1)
    }
}

pub struct ItemWalk {
    pub data: ItemData,
    pub attrs: Attrs,
    pub looking: bool,
    pub pos: int,
}

pub open spec fn start_item_walk(pos: int) -> ItemWalk {
    ItemWalk { data: empty_item_data(), attrs: Seq::empty(), looking: true, pos }
}

/// Reads an item named `node`: its text children and its encoded content
/// (the last of each wins), up to (not past) the first `CloseNode(node)`.
pub open spec fn item_walk(toks: Seq<Token>, node: Seq<char>, w: ItemWalk) -> ItemWalk
    decreases toks.len() - w.pos,
{
    if w.pos < 0 || w.pos >= toks.len() {
        w
    } else {
        match toks[w.pos] {
            Token::ParameterName(n) => {
                if w.looking {
                    item_walk(
                        toks,
                        node,
                        ItemWalk {
                            attrs: with_attribute(toks, w.pos, n, w.attrs),
                            pos: after_attribute(toks, w.pos),
                            ..w
                        },
                    )
                } else {
                    item_walk(
                        toks,
                        node,
                        ItemWalk { pos: min_int(w.pos + 2, toks.len() as int), ..w },
                    )
                }
            },
            Token::OpenNode(child) => {
                let (d, next) = item_child(toks, w.pos, w.data, child);
                if next <= w.pos {
                    w
                } else {
                    item_walk(toks, node, ItemWalk { data: d, looking: false, pos: next, ..w })
                }
            },
            Token::CloseNode(c) => {
                if c == node {
                    w
                } else {
                    item_walk(toks, node, ItemWalk { pos: w.pos + 1, ..w })
                }
            },
            _ => item_walk(toks, node, ItemWalk { looking: false, pos: w.pos + 1, ..w }),
        }
    }
}

proof fn lemma_item_walk_facts(toks: Seq<Token>, node: Seq<char>, w: ItemWalk)
    ensures
        item_walk(toks, node, w).pos >= w.pos,
        w.pos <= toks.len() ==> item_walk(toks, node, w).pos <= toks.len(),
    decreases toks.len() - w.pos,
{
    if 0 <= w.pos < toks.len() {
        match toks[w.pos] {
            Token::ParameterName(n) => {
                if w.looking {
                    lemma_item_walk_facts(
                        toks,
                        node,
                        ItemWalk {
                            attrs: with_attribute(toks, w.pos, n, w.attrs),
                            pos: after_attribute(toks, w.pos),
                            ..w
                        },
                    );
                } else {
                    lemma_item_walk_facts(
                        toks,
                        node,
                        ItemWalk { pos: min_int(w.pos + 2, toks.len() as int), ..w },
                    );
                }
            },
            Token::OpenNode(child) => {
                lemma_child_facts(toks, w.pos);
                lemma_encoded_child_facts(toks, w.pos);
                let (d, next) = item_child(toks, w.pos, w.data, child);
                lemma_item_walk_facts(toks, node, ItemWalk { data: d, looking: false, pos: next, ..w });
            },
            Token::CloseNode(c) => {
                if c != node {
                    lemma_item_walk_facts(toks, node, ItemWalk { pos: w.pos + 1, ..w });
                }
            },
            _ => {
                lemma_item_walk_facts(toks, node, ItemWalk { looking: false, pos: w.pos + 1, ..w });
            },
        }
    }
}

/// Reads the child of an item whose opening token, `child`, is under the cursor.
fn read_item_child_into(item: &mut Item, child: &String, tokens: &mut TokenCursor)
    requires
        old(tokens).pos < old(tokens).tokens@.len(),
        cursor_tokens(old(tokens))[old(tokens).pos as int] == Token::OpenNode(child@),
    ensures
        ({
            let (d, next) = item_child(
                cursor_tokens(old(tokens)),
                old(tokens).pos as int,
                item_data(old(item)),
                child@,
            );
            &&& item_data(final(item)) == d
            &&& final(tokens).pos == next
            &&& final(item).media is None <==> old(item).media is None
        }),
        final(tokens).tokens@ == old(tokens).tokens@,
{
    if is_title(child) {
        item.title = Some(read_text_child(tokens));
    } else if is_link(child) {
        item.link = Some(read_text_child(tokens));
    } else if is_description(child) {
        item.description = Some(read_text_child(tokens));
    } else if is_author(child) {
        item.author = Some(read_text_child(tokens));
    } else if is_category(child) {
        item.category = Some(read_text_child(tokens));
    } else if is_enclosure(child) {
        item.enclosure = Some(read_text_child(tokens));
    } else if is_guid(child) {
        item.guid = Some(read_text_child(tokens));
    } else if is_pub_date(child) {
        item.pub_date = Some(read_text_child(tokens));
    } else if is_source(child) {
        item.source = Some(read_text_child(tokens));
    } else if is_content_encoded(child) {
        item.content_encoded = Some(read_encoded_child(tokens));
    } else {
        tokens.next();
    }
}

pub open spec fn item_state(i: &Item, attrs: Attrs, looking: bool, pos: int) -> ItemWalk {
    ItemWalk { data: item_data(i), attrs, looking, pos }
}

impl Element<Item> {
    /// Reads an item element whose opening token is `token`, named `item`.
    pub fn serialize(token: Tokens, tokens: &mut TokenCursor) -> (r: Self)
        requires
            token@ == Token::OpenNode(tag_item()),
        ensures
            ({
                let w = item_walk(
                    cursor_tokens(old(tokens)),
                    tag_item(),
                    start_item_walk(old(tokens).pos as int),
                );
                &&& r.name@ == tag_item()
                &&& attrs_view(r.attributes@) == w.attrs
                &&& item_data(&r.data) == w.data
                &&& r.data.media is None
                &&& final(tokens).pos == w.pos
            }),
            final(tokens).tokens@ == old(tokens).tokens@,
    {
        let node = match token {
            Tokens::OpenNode(n) => n,
            _ => String::new(),
        };
        let ghost toks = cursor_tokens(tokens);
        let ghost orig = tokens.tokens@;
        let ghost goal = item_walk(toks, node@, start_item_walk(tokens.pos as int));
        let mut item = Item {
            title: None,
            link: None,
            description: None,
            author: None,
            category: None,
            enclosure: None,
            guid: None,
            pub_date: None,
            source: None,
            content_encoded: None,
            media: None,
        };
        let mut attributes: Vec<(String, String)> = Vec::new();
        let mut looking = true;
        assert(attrs_view(attributes@) =~= Seq::empty());
        loop
            invariant
                toks == cursor_tokens(tokens),
                tokens.tokens@ == orig,
                item.media is None,
                item_walk(
                    toks,
                    node@,
                    item_state(&item, attrs_view(attributes@), looking, tokens.pos as int),
                ) == goal,
            ensures
                item.media is None,
                goal == item_state(&item, attrs_view(attributes@), looking, tokens.pos as int),
            decreases toks.len() - tokens.pos,
        {
            let t = match tokens.peek() {
                Some(t) => copy_token(t),
                None => {
                    break ;
                },
            };
            match t {
                Tokens::ParameterName(name) => {
                    if looking {
                        tokens.next();
                        read_attribute(tokens, name, &mut attributes);
                        continue ;
                    } else {
                        tokens.next();
                    }
                },
                Tokens::OpenNode(child) => {
                    proof {
                        lemma_child_facts(toks, tokens.pos as int);
                        lemma_encoded_child_facts(toks, tokens.pos as int);
                    }
                    looking = false;
                    read_item_child_into(&mut item, &child, tokens);
                    continue ;
                },
                Tokens::CloseNode(close) => {
                    if node == close {
                        break ;
                    }
                },
                _ => {
                    looking = false;
                },
            }
            tokens.next();
        }
        Element { name: node, attributes, data: item }
    }
}


/// The value of an item element.
pub struct ItemElement {
    pub attrs: Attrs,
    pub data: ItemData,
}

pub open spec fn item_element_view(e: &Element<Item>) -> ItemElement {
    ItemElement { attrs: attrs_view(e.attributes@), data: item_data(&e.data) }
}

pub open spec fn item_elements_view(v: Seq<Element<Item>>) -> Seq<ItemElement> {
    v.map_values(|e: Element<Item>| item_element_view(&e))
}

pub open spec fn item_element_at(toks: Seq<Token>, pos: int) -> ItemElement {
    let w = item_walk(toks, tag_item(), start_item_walk(pos + 1));
    ItemElement { attrs: w.attrs, data: w.data }
}

pub open spec fn after_item_child(toks: Seq<Token>, pos: int) -> int {
    min_int(item_walk(toks, tag_item(), start_item_walk(pos + 1)).pos + 1, toks.len() as int)
}

/// The value of an image element.
pub struct ImageElement {
    pub attrs: Attrs,
    pub data: ImageData,
}

pub open spec fn image_element_view(e: &Element<Image>) -> ImageElement {
    ImageElement { attrs: attrs_view(e.attributes@), data: image_data(&e.data) }
}

pub open spec fn after_image_child(toks: Seq<Token>, pos: int) -> int {
    min_int(image_element_at(toks, pos).1 + 1, toks.len() as int)
}

proof fn lemma_channel_child_facts(toks: Seq<Token>, pos: int)
    requires
        0 <= pos < toks.len(),
    ensures
        pos < after_item_child(toks, pos) <= toks.len(),
        pos < after_image_child(toks, pos) <= toks.len(),
        pos < after_text_child(toks, pos) <= toks.len(),
        pos < after_number_child(toks, pos) <= toks.len(),
{
    lemma_child_facts(toks, pos);
    lemma_item_walk_facts(toks, tag_item(), start_item_walk(pos + 1));
    lemma_image_walk_facts(toks, tag_image(), start_image_walk(pos + 1));
}

fn read_item_child(tokens: &mut TokenCursor) -> (r: Element<Item>)
    requires
        old(tokens).pos < old(tokens).tokens@.len(),
        cursor_tokens(old(tokens))[old(tokens).pos as int] == Token::OpenNode(tag_item()),
    ensures
        item_element_view(&r) == item_element_at(cursor_tokens(old(tokens)), old(tokens).pos as int),
        final(tokens).pos == after_item_child(cursor_tokens(old(tokens)), old(tokens).pos as int),
        final(tokens).tokens@ == old(tokens).tokens@,
{
    let ghost toks = cursor_tokens(tokens);
    let ghost p = tokens.pos as int;
    let t = tokens.next().unwrap();
    let e = Element::<Item>::serialize(t, tokens);
    proof {
        lemma_item_walk_facts(toks, tag_item(), start_item_walk(p + 1));
    }
    tokens.next();
    e
}

fn read_image_child(tokens: &mut TokenCursor) -> (r: Element<Image>)
    requires
        old(tokens).pos < old(tokens).tokens@.len(),
        cursor_tokens(old(tokens))[old(tokens).pos as int] == Token::OpenNode(tag_image()),
    ensures
        ({
            let (w, end, ok) = image_element_at(cursor_tokens(old(tokens)), old(tokens).pos as int);
            image_element_view(&r) == (ImageElement { attrs: w.attrs, data: w.data })
        }),
        final(tokens).pos == after_image_child(cursor_tokens(old(tokens)), old(tokens).pos as int),
        final(tokens).tokens@ == old(tokens).tokens@,
{
    let ghost toks = cursor_tokens(tokens);
    let ghost p = tokens.pos as int;
    let t = tokens.next().unwrap();
    let e = Element::<Image>::serialize(t, tokens);
    proof {
        lemma_image_walk_facts(toks, tag_image(), start_image_walk(p + 1));
    }
    tokens.next();
    e
}

/// A text input box offered by a channel.
#[derive(Debug, Default)]
pub struct TextInput {
    pub title: Element<String>,
    pub description: Element<String>,
    pub name: Element<String>,
    pub link: Element<String>,
}

/// Hours, from 0 to 23, in which readers may skip the channel.
#[derive(Debug, Default)]
pub struct SkipHours {
    pub hours: [u8; 24],
}

#[derive(Debug, Default)]
pub enum Days {
    #[default]
    Monday,
    Tuesday,
    Wednesday,
    Thursday,
    Friday,
    Saturday,
    Sunday,
}

/// Days on which readers may skip the channel.
#[derive(Debug, Default)]
pub struct SkipDays {
    pub days: [Days; 7],
}

/// An RSS channel.
#[derive(Debug, Default)]
pub struct Channel {
    pub title: Element<String>,
    pub link: Element<String>,
    pub description: Element<String>,
    pub items: Vec<Element<Item>>,
    pub language: Option<Element<String>>,
    pub copyright: Option<Element<String>>,
    pub managing_editor: Option<Element<String>>,
    pub web_master: Option<Element<String>>,
    pub pub_date: Option<Element<String>>,
    pub last_build_date: Option<Element<String>>,
    pub category: Option<Element<String>>,
    pub generator: Option<Element<String>>,
    pub docs: Option<Element<String>>,
    pub cloud: Option<Element<String>>,
    pub ttl: Option<Element<u32>>,
    pub image: Option<Element<Image>>,
    pub rating: Option<Element<String>>,
    pub text_input: Option<Element<TextInput>>,
    pub skip_hours: Option<Element<SkipHours>>,
    pub skip_days: Option<Element<SkipDays>>,
}

/// The value of a channel.
pub struct ChannelData {
    pub title: TextElement,
    pub link: TextElement,
    pub description: TextElement,
    pub language: Option<TextElement>,
    pub copyright: Option<TextElement>,
    pub managing_editor: Option<TextElement>,
    pub web_master: Option<TextElement>,
    pub pub_date: Option<TextElement>,
    pub last_build_date: Option<TextElement>,
    pub category: Option<TextElement>,
    pub generator: Option<TextElement>,
    pub docs: Option<TextElement>,
    pub cloud: Option<TextElement>,
    pub rating: Option<TextElement>,
    pub items: Seq<ItemElement>,
    pub ttl: Option<NumberElement>,
    pub image: Option<ImageElement>,
}

pub open spec fn channel_data(c: &Channel) -> ChannelData {
    ChannelData {
        title: text_element_view(&c.title),
        link: text_element_view(&c.link),
        description: text_element_view(&c.description),
        language: opt_text_element_view(&c.language),
        copyright: opt_text_element_view(&c.copyright),
        managing_editor: opt_text_element_view(&c.managing_editor),
        web_master: opt_text_element_view(&c.web_master),
        pub_date: opt_text_element_view(&c.pub_date),
        last_build_date: opt_text_element_view(&c.last_build_date),
        category: opt_text_element_view(&c.category),
        generator: opt_text_element_view(&c.generator),
        docs: opt_text_element_view(&c.docs),
        cloud: opt_text_element_view(&c.cloud),
        rating: opt_text_element_view(&c.rating),
        items: item_elements_view(c.items@),
        ttl: opt_number_element_view(&c.ttl),
        image: match &c.image {
            Some(e) => Some(image_element_view(e)),
            None => None,
        },
    }
}

pub open spec fn empty_channel_data() -> ChannelData {
    ChannelData {
        title: empty_text_element(),
        link: empty_text_element(),
        description: empty_text_element(),
        language: None,
        copyright: None,
        managing_editor: None,
        web_master: None,
        pub_date: None,
        last_build_date: None,
        category: None,
        generator: None,
        docs: None,
        cloud: None,
        rating: None,
        items: Seq::empty(),
        ttl: None,
        image: None,
    }
}

/// A channel child `child` opening at `pos`: the channel after it, where the
/// cursor goes, and whether the numbers it holds were numbers.
pub open spec fn channel_child(toks: Seq<Token>, pos: int, d: ChannelData, child: Seq<char>) -> (
    ChannelData,
    int,
    bool,
) {
    if child == tag_title() {
        (ChannelData { title: text_element_at(toks, pos).0, ..d }, after_text_child(toks, pos), true)
    } else if child == tag_link() {
        (ChannelData { link: text_element_at(toks, pos).0, ..d }, after_text_child(toks, pos), true)
    } else if child == tag_description() {
        (ChannelData { description: text_element_at(toks, pos).0, ..d }, after_text_child(toks, pos), true)
    } else if child == tag_language() {
        (ChannelData { language: Some(text_element_at(toks, pos).0), ..d }, after_text_child(toks, pos), true)
    } else if child == tag_copyright() {
        (ChannelData { copyright: Some(text_element_at(toks, pos).0), ..d }, after_text_child(toks, pos), true)
    } else if child == tag_managing_editor() {
        (ChannelData { managing_editor: Some(text_element_at(toks, pos).0), ..d }, after_text_child(toks, pos), true)
    } else if child == tag_web_master() {
        (ChannelData { web_master: Some(text_element_at(toks, pos).0), ..d }, after_text_child(toks, pos), true)
    } else if child == tag_pub_date() {
        (ChannelData { pub_date: Some(text_element_at(toks, pos).0), ..d }, after_text_child(toks, pos), true)
    } else if child == tag_last_build_date() {
        (ChannelData { last_build_date: Some(text_element_at(toks, pos).0), ..d }, after_text_child(toks, pos), true)
    } else if child == tag_category() {
        (ChannelData { category: Some(text_element_at(toks, pos).0), ..d }, after_text_child(toks, pos), true)
    } else if child == tag_generator() {
        (ChannelData { generator: Some(text_element_at(toks, pos).0), ..d }, after_text_child(toks, pos), true)
    } else if child == tag_docs() {
        (ChannelData { docs: Some(text_element_at(toks, pos).0), ..d }, after_text_child(toks, pos), true)
    } else if child == tag_cloud() {
        (ChannelData { cloud: Some(text_element_at(toks, pos).0), ..d }, after_text_child(toks, pos), true)
    } else if child == tag_rating() {
        (ChannelData { rating: Some(text_element_at(toks, pos).0), ..d }, after_text_child(toks, pos), true)
    } else if child == tag_item() {
        (
            ChannelData { items: d.items.push(item_element_at(toks, pos)), ..d },
            after_item_child(toks, pos),
            true,
        )
    } else if child == tag_ttl() {
        (
            ChannelData { ttl: Some(number_element_at(toks, pos).0), ..d },
            after_number_child(toks, pos),
            number_element_at(toks, pos).2,
        )
    } else if child == tag_image() {
        let (w, end, ok) = image_element_at(toks, pos);
        (
            ChannelData { image: Some(ImageElement { attrs: w.attrs, data: w.data }), ..d },
            after_image_child(toks, pos),
            ok,
        )
    } else {
        (d, pos + 1, true)
    }
}

pub struct ChannelWalk {
    pub data: ChannelData,
    pub attrs: Attrs,
    pub looking: bool,
    pub ok: bool,
    pub pos: int,
}

pub open spec fn start_channel_walk(pos: int) -> ChannelWalk {
    ChannelWalk { data: empty_channel_data(), attrs: Seq::empty(), looking: true, ok: true, pos }
}

/// Reads a channel named `node`: its text children, items, `ttl` and
/// `image`, up to (not past) the first `CloseNode(node)`.
pub open spec fn channel_walk(toks: Seq<Token>, node: Seq<char>, w: ChannelWalk) -> ChannelWalk
    decreases toks.len() - w.pos,
{
    if w.pos < 0 || w.pos >= toks.len() {
        w
    } else {
        match toks[w.pos] {
            Token::ParameterName(n) => {
                if w.looking {
                    channel_walk(
                        toks,
                        node,
                        ChannelWalk {
                            attrs: with_attribute(toks, w.pos, n, w.attrs),
                            pos: after_attribute(toks, w.pos),
                            ..w
                        },
                    )
                } else {
                    channel_walk(
                        toks,
                        node,
                        ChannelWalk { pos: min_int(w.pos + 2, toks.len() as int), ..w },
                    )
                }
            },
            Token::OpenNode(child) => {
                let (d, next, ok) = channel_child(toks, w.pos, w.data, child);
                if next <= w.pos {
                    w
                } else {
                    channel_walk(
                        toks,
                        node,
                        ChannelWalk { data: d, looking: false, ok: w.ok && ok, pos: next, ..w },
                    )
                }
            },
            Token::CloseNode(c) => {
                if c == node {
                    w
                } else {
                    channel_walk(toks, node, ChannelWalk { pos: w.pos + 1, ..w })
                }
            },
            _ => channel_walk(toks, node, ChannelWalk { looking: false, pos: w.pos + 1, ..w }),
        }
    }
}

proof fn lemma_channel_walk_facts(toks: Seq<Token>, node: Seq<char>, w: ChannelWalk)
    ensures
        channel_walk(toks, node, w).pos >= w.pos,
        w.pos <= toks.len() ==> channel_walk(toks, node, w).pos <= toks.len(),
        channel_walk(toks, node, w).ok ==> w.ok,
    decreases toks.len() - w.pos,
{
    if 0 <= w.pos < toks.len() {
        match toks[w.pos] {
            Token::ParameterName(n) => {
                if w.looking {
                    lemma_channel_walk_facts(
                        toks,
                        node,
                        ChannelWalk {
                            attrs: with_attribute(toks, w.pos, n, w.attrs),
                            pos: after_attribute(toks, w.pos),
                            ..w
                        },
                    );
                } else {
                    lemma_channel_walk_facts(
                        toks,
                        node,
                        ChannelWalk { pos: min_int(w.pos + 2, toks.len() as int), ..w },
                    );
                }
            },
            Token::OpenNode(child) => {
                lemma_channel_child_facts(toks, w.pos);
                let (d, next, ok) = channel_child(toks, w.pos, w.data, child);
                lemma_channel_walk_facts(
                    toks,
                    node,
                    ChannelWalk { data: d, looking: false, ok: w.ok && ok, pos: next, ..w },
                );
            },
            Token::CloseNode(c) => {
                if c != node {
                    lemma_channel_walk_facts(toks, node, ChannelWalk { pos: w.pos + 1, ..w });
                }
            },
            _ => {
                lemma_channel_walk_facts(toks, node, ChannelWalk { looking: false, pos: w.pos + 1, ..w });
            },
        }
    }
}

/// Reads the child of a channel whose opening token, `child`, is under the cursor.
#[verifier::rlimit(60)]
fn read_channel_child_into(channel: &mut Channel, child: &String, tokens: &mut TokenCursor)
    requires
        old(tokens).pos < old(tokens).tokens@.len(),
        cursor_tokens(old(tokens))[old(tokens).pos as int] == Token::OpenNode(child@),
        old(channel).text_input is None && old(channel).skip_hours is None && old(channel).skip_days is None,
    ensures
        ({
            let (d, next, ok) = channel_child(
                cursor_tokens(old(tokens)),
                old(tokens).pos as int,
                channel_data(old(channel)),
                child@,
            );
            &&& channel_data(final(channel)) == d
            &&& final(tokens).pos == next
        }),
        final(channel).text_input is None && final(channel).skip_hours is None && final(channel).skip_days is None,
        final(tokens).tokens@ == old(tokens).tokens@,
{
    if is_title(child) {
        channel.title = read_text_child(tokens);
    } else if is_link(child) {
        channel.link = read_text_child(tokens);
    } else if is_description(child) {
        channel.description = read_text_child(tokens);
    } else if is_language(child) {
        channel.language = Some(read_text_child(tokens));
    } else if is_copyright(child) {
        channel.copyright = Some(read_text_child(tokens));
    } else if is_managing_editor(child) {
        channel.managing_editor = Some(read_text_child(tokens));
    } else if is_web_master(child) {
        channel.web_master = Some(read_text_child(tokens));
    } else if is_pub_date(child) {
        channel.pub_date = Some(read_text_child(tokens));
    } else if is_last_build_date(child) {
        channel.last_build_date = Some(read_text_child(tokens));
    } else if is_category(child) {
        channel.category = Some(read_text_child(tokens));
    } else if is_generator(child) {
        channel.generator = Some(read_text_child(tokens));
    } else if is_docs(child) {
        channel.docs = Some(read_text_child(tokens));
    } else if is_cloud(child) {
        channel.cloud = Some(read_text_child(tokens));
    } else if is_rating(child) {
        channel.rating = Some(read_text_child(tokens));
    } else if is_item(child) {
        let ghost before = channel.items@;
        let e = read_item_child(tokens);
        channel.items.push(e);
        assert(item_elements_view(channel.items@) =~= item_elements_view(before).push(
            item_element_view(&e),
        ));
    } else if is_ttl(child) {
        channel.ttl = Some(read_number_child(tokens));
    } else if is_image(child) {
        channel.image = Some(read_image_child(tokens));
    } else {
        tokens.next();
    }
}

pub open spec fn channel_state(c: &Channel, attrs: Attrs, looking: bool, ok: bool, pos: int) -> ChannelWalk {
    ChannelWalk { data: channel_data(c), attrs, looking, ok, pos }
}

impl Element<Channel> {
    /// Reads a channel element whose opening token is `token`, named `channel`.
    pub fn serialize(token: Tokens, tokens: &mut TokenCursor) -> (r: Self)
        requires
            token@ == Token::OpenNode(tag_channel()),
        ensures
            ({
                let w = channel_walk(
                    cursor_tokens(old(tokens)),
                    tag_channel(),
                    start_channel_walk(old(tokens).pos as int),
                );
                &&& r.name@ == tag_channel()
                &&& attrs_view(r.attributes@) == w.attrs
                &&& channel_data(&r.data) == w.data
                &&& r.data.text_input is None
                &&& r.data.skip_hours is None
                &&& r.data.skip_days is None
                &&& final(tokens).pos == w.pos
            }),
            final(tokens).tokens@ == old(tokens).tokens@,
    {
        let node = match token {
            Tokens::OpenNode(n) => n,
            _ => String::new(),
        };
        let ghost toks = cursor_tokens(tokens);
        let ghost orig = tokens.tokens@;
        let ghost goal = channel_walk(toks, node@, start_channel_walk(tokens.pos as int));
        let ghost mut ok = true;
        let mut channel = Channel {
            title: empty_text_element_value(),
            link: empty_text_element_value(),
            description: empty_text_element_value(),
            language: None,
            copyright: None,
            managing_editor: None,
            web_master: None,
            pub_date: None,
            last_build_date: None,
            category: None,
            generator: None,
            docs: None,
            cloud: None,
            rating: None,
            items: Vec::new(),
            ttl: None,
            image: None,
            text_input: None,
            skip_hours: None,
            skip_days: None,
        };
        let mut attributes: Vec<(String, String)> = Vec::new();
        let mut looking = true;
        assert(attrs_view(attributes@) =~= Seq::empty());
        assert(item_elements_view(channel.items@) =~= Seq::empty());
        loop
            invariant
                toks == cursor_tokens(tokens),
                tokens.tokens@ == orig,
                channel.text_input is None && channel.skip_hours is None && channel.skip_days is None,
                channel_walk(
                    toks,
                    node@,
                    channel_state(&channel, attrs_view(attributes@), looking, ok, tokens.pos as int),
                ) == goal,
            ensures
                channel.text_input is None && channel.skip_hours is None && channel.skip_days is None,
                goal == channel_state(&channel, attrs_view(attributes@), looking, ok, tokens.pos as int),
            decreases toks.len() - tokens.pos,
        {
            let t = match tokens.peek() {
                Some(t) => copy_token(t),
                None => {
                    break ;
                },
            };
            match t {
                Tokens::ParameterName(name) => {
                    if looking {
                        tokens.next();
                        read_attribute(tokens, name, &mut attributes);
                        continue ;
                    } else {
                        tokens.next();
                    }
                },
                Tokens::OpenNode(child) => {
                    proof {
                        lemma_channel_child_facts(toks, tokens.pos as int);
                        ok = ok && channel_child(toks, tokens.pos as int, channel_data(&channel), child@).2;
                    }
                    looking = false;
                    read_channel_child_into(&mut channel, &child, tokens);
                    continue ;
                },
                Tokens::CloseNode(close) => {
                    if node == close {
                        break ;
                    }
                },
                _ => {
                    looking = false;
                },
            }
            tokens.next();
        }
        Element { name: node, attributes, data: channel }
    }
}


/// The attributes that lead at `pos` in an RSS root: the value of the last
/// `version` (`None` where it had none), the other name/value pairs, and
/// where they end.
pub open spec fn rss_pairs(
    toks: Seq<Token>,
    pos: int,
    version: Option<Seq<char>>,
    pairs: Attrs,
) -> (Option<Seq<char>>, Attrs, int)
    decreases toks.len() - pos,
{
    if 0 <= pos < toks.len() && toks[pos] is ParameterName {
        let n = toks[pos]->ParameterName_0;
        let next = min_int(pos + 2, toks.len() as int);
        if n == tag_version() {
            rss_pairs(
                toks,
                next,
                if pos + 1 < toks.len() && toks[pos + 1] is ParameterValue {
                    Some(toks[pos + 1]->ParameterValue_0)
                } else {
                    None
                },
                pairs,
            )
        } else {
            rss_pairs(toks, next, version, with_attribute(toks, pos, n, pairs))
        }
    } else {
        (version, pairs, pos)
    }
}

proof fn lemma_rss_pairs_bounds(toks: Seq<Token>, pos: int, version: Option<Seq<char>>, pairs: Attrs)
    requires
        0 <= pos <= toks.len(),
    ensures
        pos <= rss_pairs(toks, pos, version, pairs).2 <= toks.len(),
    decreases toks.len() - pos,
{
    if 0 <= pos < toks.len() && toks[pos] is ParameterName {
        let n = toks[pos]->ParameterName_0;
        let next = min_int(pos + 2, toks.len() as int);
        if n == tag_version() {
            lemma_rss_pairs_bounds(
                toks,
                next,
                if pos + 1 < toks.len() && toks[pos + 1] is ParameterValue {
                    Some(toks[pos + 1]->ParameterValue_0)
                } else {
                    None
                },
                pairs,
            );
        } else {
            lemma_rss_pairs_bounds(toks, next, version, with_attribute(toks, pos, n, pairs));
        }
    }
}

/// An RSS document as read: the text of its `version` attribute, the other
/// attributes of its root element, and its channel.
#[derive(Debug)]
pub struct RssDocument {
    pub version: Option<String>,
    pub specs: Option<Vec<(String, String)>>,
    pub channel: Element<Channel>,
}

pub open spec fn opt_text(o: &Option<String>) -> Option<Seq<char>> {
    match o {
        Some(s) => Some(s@),
        None => None,
    }
}

/// Reads an RSS document: the first `rss` opening tag, the attributes that
/// lead after it, and the `channel` element that must follow them.
pub fn read_rss(input: &str) -> (r: Result<RssDocument, FeedError>)
    requires
        input@.len() < usize::MAX,
    ensures
        ({
            let toks = document_tokens(input@);
            let k = first_open(toks, tag_rss(), 0);
            let (version, pairs, end) = rss_pairs(toks, k + 1, None, Seq::empty());
            &&& (k == toks.len() <==> r == Err::<RssDocument, FeedError>(FeedError::MissingRoot))
            &&& (k < toks.len() && end == toks.len() <==> r == Err::<RssDocument, FeedError>(
                FeedError::Truncated,
            ))
            &&& (k < toks.len() && end < toks.len() && toks[end] != Token::OpenNode(tag_channel())
                <==> r == Err::<RssDocument, FeedError>(FeedError::MissingChannel))
            &&& (r matches Ok(d) ==> {
                let w = channel_walk(toks, tag_channel(), start_channel_walk(end + 1));
                &&& opt_text(&d.version) == version
                &&& opt_pairs(&d.specs) == pairs
                &&& d.specs matches Some(v) ==> v@.len() > 0
                &&& d.channel.name@ == tag_channel()
                &&& attrs_view(d.channel.attributes@) == w.attrs
                &&& channel_data(&d.channel.data) == w.data
            })
        }),
{
    let mut cursor = document_cursor(input);
    let ghost toks = cursor_tokens(&cursor);
    proof {
        crate::elements::lemma_first_open_bounds(toks, tag_rss(), 0);
        reveal_strlit("rss");
    }
    let name = string_of("rss");
    assert(name@ =~= tag_rss());
    if !skip_past_open(&mut cursor, &name) {
        return Err(FeedError::MissingRoot);
    }
    proof {
        lemma_rss_pairs_bounds(toks, cursor.pos as int, None, Seq::empty());
    }
    if cursor.peek().is_none() {
        return Err(FeedError::Truncated);
    }
    let ghost goal = rss_pairs(toks, cursor.pos as int, None, Seq::empty());
    let ghost orig = cursor.tokens@;
    let mut version: Option<String> = None;
    let mut specs: Vec<(String, String)> = Vec::new();
    assert(attrs_view(specs@) =~= Seq::empty());
    loop
        invariant
            toks == cursor_tokens(&cursor),
            cursor.tokens@ == orig,
            rss_pairs(toks, cursor.pos as int, opt_text(&version), attrs_view(specs@)) == goal,
        ensures
            goal == (opt_text(&version), attrs_view(specs@), cursor.pos as int),
        decreases toks.len() - cursor.pos,
    {
        let name = match cursor.peek() {
            Some(Tokens::ParameterName(name)) => name.clone(),
            _ => {
                break ;
            },
        };
        cursor.next();
        let value = cursor.next();
        if is_version(&name) {
            version = match value {
                Some(Tokens::ParameterValue(v)) => Some(v),
                _ => None,
            };
        } else {
            let ghost before = specs@;
            match value {
                Some(Tokens::ParameterValue(v)) => {
                    specs.push((name, v));
                    assert(attrs_view(specs@) =~= attrs_view(before).push((name@, v@)));
                },
                _ => {},
            }
        }
    }
    let token = match cursor.next() {
        Some(t) => t,
        None => {
            return Err(FeedError::Truncated);
        },
    };
    let is_channel_open = match &token {
        Tokens::OpenNode(n) => is_channel(n),
        _ => false,
    };
    if !is_channel_open {
        return Err(FeedError::MissingChannel);
    }
    let channel = Element::<Channel>::serialize(token, &mut cursor);
    let ghost pairs = specs@;
    let specs = kept(specs);
    assert(opt_pairs(&specs) =~= attrs_view(pairs));
    Ok(RssDocument { version, specs, channel })
}

} // verus!
