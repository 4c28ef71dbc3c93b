//! Atom feed elements (RFC 4287) read from a token stream.
use vstd::prelude::*;

use crate::elements::{
    after_attribute, attrs_view, cursor_tokens, empty_text_element, empty_text_element_value,
    min_int, opt_text_element_view, read_text_child, same_text, text_element_at,
    text_element_view, with_attribute, Attrs, Element, TextElement, TokenCursor,
};
use crate::tags::{
    is_email, is_name, is_uri, tag_email, tag_name, tag_uri,
    is_author, is_category, is_content, is_contributor, is_entry, is_feed, is_generator, is_icon,
    is_id, is_link, is_logo, is_published, is_rights, is_subtitle, is_summary, is_title,
    is_updated, tag_author, tag_category, tag_content, tag_contributor, tag_entry, tag_feed,
    tag_generator, tag_icon, tag_id, tag_link, tag_logo, tag_published, tag_rights, tag_subtitle,
    tag_summary, tag_title, tag_updated,
};
use crate::elements::{
    document_cursor, document_tokens, first_open, kept, leading_pairs, opt_pairs,
    read_leading_pairs, skip_past_open, string_of, FeedError,
    after_text_child, copy_token, lemma_text_walk_advances, read_attribute, start_text_walk,
};
use crate::tokenizer::{Token, Tokens};

verus! {

/// An Atom category; it carries only attributes.
#[derive(Debug, Default)]
pub struct Category;

/// A person construct: a name, and optionally a URI and an email address.
#[derive(Debug, Default)]
pub struct Person {
    pub name: Element<String>,
    pub uri: Option<Element<String>>,
    pub email: Option<Element<String>>,
}

/// An Atom link; its text, if it has any.
#[derive(Debug, Default)]
pub struct Link(pub Option<String>);

/// The state of a walk through an element that keeps attributes and,
/// with `keep_text`, its last text.
pub struct PlainWalk {
    pub text: Option<Seq<char>>,
    pub attrs: Attrs,
    pub looking: bool,
    pub pos: int,
}

pub open spec fn start_plain_walk(pos: int) -> PlainWalk {
    PlainWalk { text: None, attrs: Seq::empty(), looking: true, pos }
}

/// Reads an element named `node` whose children are all skipped, up to (not
/// past) the first `CloseNode(node)`.
pub open spec fn plain_walk(toks: Seq<Token>, node: Seq<char>, w: PlainWalk, keep_text: bool) -> PlainWalk
    decreases toks.len() - w.pos,
{
    if w.pos < 0 || w.pos >= toks.len() {
        w
    } else {
        match toks[w.pos] {
            Token::ParameterName(n) => {
                if w.looking {
                    plain_walk(
                        toks,
                        node,
                        PlainWalk {
                            attrs: with_attribute(toks, w.pos, n, w.attrs),
                            pos: after_attribute(toks, w.pos),
                            ..w
                        },
                        keep_text,
                    )
                } else {
                    plain_walk(
                        toks,
                        node,
                        PlainWalk { pos: min_int(w.pos + 2, toks.len() as int), ..w },
                        keep_text,
                    )
                }
            },
            Token::Text(t) => plain_walk(
                toks,
                node,
                PlainWalk {
                    looking: false,
                    text: if keep_text {
                        Some(t)
                    } else {
                        w.text
                    },
                    pos: w.pos + 1,
                    ..w
                },
                keep_text,
            ),
            Token::CloseNode(c) => {
                if c == node {
                    w
                } else {
                    plain_walk(toks, node, PlainWalk { pos: w.pos + 1, ..w }, keep_text)
                }
            },
            _ => plain_walk(
                toks,
                node,
                PlainWalk { looking: false, pos: w.pos + 1, ..w },
                keep_text,
            ),
        }
    }
}

/// Reads an element whose children are all skipped; returns its attributes
/// and, with `keep_text`, the last text it held.
fn read_plain(node: &String, tokens: &mut TokenCursor, keep_text: bool) -> (r: (
    Vec<(String, String)>,
    Option<String>,
))
    ensures
        ({
            let w = plain_walk(
                cursor_tokens(old(tokens)),
                node@,
                start_plain_walk(old(tokens).pos as int),
                keep_text,
            );
            &&& attrs_view(r.0@) == w.attrs
            &&& w.text == match r.1 {
                Some(t) => Some(t@),
                None => None::<Seq<char>>,
            }
            &&& final(tokens).pos == w.pos
        }),
        final(tokens).tokens@ == old(tokens).tokens@,
{
    let ghost toks = cursor_tokens(tokens);
    let ghost orig = tokens.tokens@;
    let ghost goal = plain_walk(toks, node@, start_plain_walk(tokens.pos as int), keep_text);
    let mut attributes: Vec<(String, String)> = Vec::new();
    let mut text: Option<String> = None;
    let mut looking = true;
    assert(attrs_view(attributes@) =~= Seq::empty());
    loop
        invariant
            toks == cursor_tokens(tokens),
            tokens.tokens@ == orig,
            plain_walk(
                toks,
                node@,
                PlainWalk {
                    text: match text {
                        Some(t) => Some(t@),
                        None => None::<Seq<char>>,
                    },
                    attrs: attrs_view(attributes@),
                    looking,
                    pos: tokens.pos as int,
                },
                keep_text,
            ) == goal,
        ensures
            goal == (PlainWalk {
                text: match text {
                    Some(t) => Some(t@),
                    None => None::<Seq<char>>,
                },
                attrs: attrs_view(attributes@),
                looking,
                pos: tokens.pos as int,
            }),
        decreases toks.len() - tokens.pos,
    {
        let t = match tokens.peek() {
            Some(t) => copy_token(t),
            None => {
                break ;
            },
        };
        match t {
            Tokens::ParameterName(name) => {
                if looking {
                    tokens.next();
                    read_attribute(tokens, name, &mut attributes);
                    continue ;
                } else {
                    tokens.next();
                }
            },
            Tokens::Text(t) => {
                looking = false;
                if keep_text {
                    text = Some(t);
                }
            },
            Tokens::CloseNode(close) => {
                if same_text(&close, node.as_str()) {
                    break ;
                }
            },
            _ => {
                looking = false;
            },
        }
        tokens.next();
    }
    (attributes, text)
}

impl Element<Category> {
    /// Reads a category element whose opening token is `token`.
    pub fn serialize(token: Tokens, tokens: &mut TokenCursor) -> (r: Self)
        requires
            token is OpenNode,
        ensures
            ({
                let w = plain_walk(
                    cursor_tokens(old(tokens)),
                    token@->OpenNode_0,
                    start_plain_walk(old(tokens).pos as int),
                    false,
                );
                &&& r.name@ == token@->OpenNode_0
                &&& attrs_view(r.attributes@) == w.attrs
                &&& final(tokens).pos == w.pos
            }),
            final(tokens).tokens@ == old(tokens).tokens@,
    {
        let node = match token {
            Tokens::OpenNode(n) => n,
            _ => String::new(),
        };
        let (attributes, _) = read_plain(&node, tokens, false);
        Element { name: node, attributes, data: Category }
    }
}

impl Element<Link> {
    /// Reads a link element whose opening token is `token`.
    pub fn serialize(token: Tokens, tokens: &mut TokenCursor) -> (r: Self)
        requires
            token is OpenNode,
        ensures
            ({
                let w = plain_walk(
                    cursor_tokens(old(tokens)),
                    token@->OpenNode_0,
                    start_plain_walk(old(tokens).pos as int),
                    true,
                );
                &&& r.name@ == token@->OpenNode_0
                &&& attrs_view(r.attributes@) == w.attrs
                &&& w.text == match r.data.0 {
                    Some(t) => Some(t@),
                    None => None::<Seq<char>>,
                }
                &&& final(tokens).pos == w.pos
            }),
            final(tokens).tokens@ == old(tokens).tokens@,
    {
        let node = match token {
            Tokens::OpenNode(n) => n,
            _ => String::new(),
        };
        let (attributes, text) = read_plain(&node, tokens, true);
        Element { name: node, attributes, data: Link(text) }
    }
}


/// The state of a walk through a person construct.
pub struct PersonWalk {
    pub name: TextElement,
    pub uri: Option<TextElement>,
    pub email: Option<TextElement>,
    pub attrs: Attrs,
    pub looking: bool,
    pub pos: int,
}

pub open spec fn start_person_walk(pos: int) -> PersonWalk {
    PersonWalk {
        name: empty_text_element(),
        uri: None,
        email: None,
        attrs: Seq::empty(),
        looking: true,
        pos,
    }
}

/// Reads a person named `node`: its `name`, `uri` and `email` children (the
/// last of each wins), up to (not past) the first `CloseNode(node)`.
pub open spec fn person_walk(toks: Seq<Token>, node: Seq<char>, w: PersonWalk) -> PersonWalk
    decreases toks.len() - w.pos,
{
    if w.pos < 0 || w.pos >= toks.len() {
        w
    } else {
        match toks[w.pos] {
            Token::ParameterName(n) => {
                if w.looking {
                    person_walk(
                        toks,
                        node,
                        PersonWalk {
                            attrs: with_attribute(toks, w.pos, n, w.attrs),
                            pos: after_attribute(toks, w.pos),
                            ..w
                        },
                    )
                } else {
                    person_walk(
                        toks,
                        node,
                        PersonWalk { pos: min_int(w.pos + 2, toks.len() as int), ..w },
                    )
                }
            },
            Token::OpenNode(child) => {
                if child == tag_name() || child == tag_uri() || child == tag_email() {
                    let (e, end) = text_element_at(toks, w.pos);
                    let next = min_int(end + 1, toks.len() as int);
                    if next <= w.pos {
                        w
                    } else {
                        let w1 = PersonWalk { looking: false, pos: next, ..w };
                        person_walk(
                            toks,
                            node,
                            if child == tag_name() {
                                PersonWalk { name: e, ..w1 }
                            } else if child == tag_uri() {
                                PersonWalk { uri: Some(e), ..w1 }
                            } else {
                                PersonWalk { email: Some(e), ..w1 }
                            },
                        )
                    }
                } else {
                    person_walk(toks, node, PersonWalk { looking: false, pos: w.pos + 1, ..w })
                }
            },
            Token::CloseNode(c) => {
                if c == node {
                    w
                } else {
                    person_walk(toks, node, PersonWalk { pos: w.pos + 1, ..w })
                }
            },
            _ => person_walk(toks, node, PersonWalk { looking: false, pos: w.pos + 1, ..w }),
        }
    }
}

pub open spec fn person_view(p: &Person, attrs: Attrs, looking: bool, pos: int) -> PersonWalk {
    PersonWalk {
        name: text_element_view(&p.name),
        uri: opt_text_element_view(&p.uri),
        email: opt_text_element_view(&p.email),
        attrs,
        looking,
        pos,
    }
}

impl Element<Person> {
    /// Reads a person element whose opening token is `token`.
    pub fn serialize(token: Tokens, tokens: &mut TokenCursor) -> (r: Self)
        requires
            token is OpenNode,
        ensures
            ({
                let w = person_walk(
                    cursor_tokens(old(tokens)),
                    token@->OpenNode_0,
                    start_person_walk(old(tokens).pos as int),
                );
                &&& r.name@ == token@->OpenNode_0
                &&& attrs_view(r.attributes@) == w.attrs
                &&& text_element_view(&r.data.name) == w.name
                &&& opt_text_element_view(&r.data.uri) == w.uri
                &&& opt_text_element_view(&r.data.email) == w.email
                &&& final(tokens).pos == w.pos
            }),
            final(tokens).tokens@ == old(tokens).tokens@,
    {
        let node = match token {
            Tokens::OpenNode(n) => n,
            _ => String::new(),
        };
        let ghost toks = cursor_tokens(tokens);
        let ghost orig = tokens.tokens@;
        let ghost goal = person_walk(toks, node@, start_person_walk(tokens.pos as int));
        let mut person = Person { name: empty_text_element_value(), uri: None, email: None };
        let mut attributes: Vec<(String, String)> = Vec::new();
        let mut looking = true;
        assert(attrs_view(attributes@) =~= Seq::empty());
        loop
            invariant
                toks == cursor_tokens(tokens),
                tokens.tokens@ == orig,
                person_walk(
                    toks,
                    node@,
                    person_view(&person, attrs_view(attributes@), looking, tokens.pos as int),
                ) == goal,
            ensures
                goal == person_view(&person, attrs_view(attributes@), looking, tokens.pos as int),
            decreases toks.len() - tokens.pos,
        {
            let t = match tokens.peek() {
                Some(t) => copy_token(t),
                None => {
                    break ;
                },
            };
            match t {
                Tokens::ParameterName(name) => {
                    if looking {
                        tokens.next();
                        read_attribute(tokens, name, &mut attributes);
                        continue ;
                    } else {
                        tokens.next();
                    }
                },
                Tokens::OpenNode(child) => {
                    looking = false;
                    if is_name(&child) {
                        person.name = read_text_child(tokens);
                        continue ;
                    } else if is_uri(&child) {
                        person.uri = Some(read_text_child(tokens));
                        continue ;
                    } else if is_email(&child) {
                        person.email = Some(read_text_child(tokens));
                        continue ;
                    }
                },
                Tokens::CloseNode(close) => {
                    if same_text(&close, node.as_str()) {
                        break ;
                    }
                },
                _ => {
                    looking = false;
                },
            }
            tokens.next();
        }
        Element { name: node, attributes, data: person }
    }
}


/// The value of a person element.
pub struct PersonElement {
    pub name: Seq<char>,
    pub attrs: Attrs,
    pub person: TextElement,
    pub uri: Option<TextElement>,
    pub email: Option<TextElement>,
}

pub open spec fn person_element_view(e: &Element<Person>) -> PersonElement {
    PersonElement {
        name: e.name@,
        attrs: attrs_view(e.attributes@),
        person: text_element_view(&e.data.name),
        uri: opt_text_element_view(&e.data.uri),
        email: opt_text_element_view(&e.data.email),
    }
}

pub open spec fn persons_view(v: Seq<Element<Person>>) -> Seq<PersonElement> {
    v.map_values(|e: Element<Person>| person_element_view(&e))
}

pub open spec fn person_element_at(toks: Seq<Token>, pos: int) -> PersonElement {
    let name = toks[pos]->OpenNode_0;
    let w = person_walk(toks, name, start_person_walk(pos + 1));
    PersonElement { name, attrs: w.attrs, person: w.name, uri: w.uri, email: w.email }
}

pub open spec fn after_person_child(toks: Seq<Token>, pos: int) -> int {
    min_int(
        person_walk(toks, toks[pos]->OpenNode_0, start_person_walk(pos + 1)).pos + 1,
        toks.len() as int,
    )
}

/// The value of a category or link element: its name, attributes and text.
pub struct PlainElement {
    pub name: Seq<char>,
    pub attrs: Attrs,
    pub text: Option<Seq<char>>,
}

pub open spec fn category_element_view(e: &Element<Category>) -> PlainElement {
    PlainElement { name: e.name@, attrs: attrs_view(e.attributes@), text: None }
}

pub open spec fn categories_view(v: Seq<Element<Category>>) -> Seq<PlainElement> {
    v.map_values(|e: Element<Category>| category_element_view(&e))
}

pub open spec fn link_element_view(e: &Element<Link>) -> PlainElement {
    PlainElement {
        name: e.name@,
        attrs: attrs_view(e.attributes@),
        text: match e.data.0 {
            Some(t) => Some(t@),
            None => None,
        },
    }
}

pub open spec fn links_view(v: Seq<Element<Link>>) -> Seq<PlainElement> {
    v.map_values(|e: Element<Link>| link_element_view(&e))
}

pub open spec fn plain_element_at(toks: Seq<Token>, pos: int, keep_text: bool) -> PlainElement {
    let name = toks[pos]->OpenNode_0;
    let w = plain_walk(toks, name, start_plain_walk(pos + 1), keep_text);
    PlainElement { name, attrs: w.attrs, text: if keep_text { w.text } else { None } }
}

pub open spec fn after_plain_child(toks: Seq<Token>, pos: int, keep_text: bool) -> int {
    min_int(
        plain_walk(toks, toks[pos]->OpenNode_0, start_plain_walk(pos + 1), keep_text).pos + 1,
        toks.len() as int,
    )
}

proof fn lemma_plain_walk_facts(toks: Seq<Token>, node: Seq<char>, w: PlainWalk, keep_text: bool)
    ensures
        plain_walk(toks, node, w, keep_text).pos >= w.pos,
        w.pos <= toks.len() ==> plain_walk(toks, node, w, keep_text).pos <= toks.len(),
        !keep_text ==> plain_walk(toks, node, w, keep_text).text == w.text,
    decreases toks.len() - w.pos,
{
    if 0 <= w.pos < toks.len() {
        match toks[w.pos] {
            Token::ParameterName(n) => {
                if w.looking {
                    lemma_plain_walk_facts(
                        toks,
                        node,
                        PlainWalk {
                            attrs: with_attribute(toks, w.pos, n, w.attrs),
                            pos: after_attribute(toks, w.pos),
                            ..w
                        },
                        keep_text,
                    );
                } else {
                    lemma_plain_walk_facts(
                        toks,
                        node,
                        PlainWalk { pos: min_int(w.pos + 2, toks.len() as int), ..w },
                        keep_text,
                    );
                }
            },
            Token::Text(t) => {
                lemma_plain_walk_facts(
                    toks,
                    node,
                    PlainWalk {
                        looking: false,
                        text: if keep_text {
                            Some(t)
                        } else {
                            w.text
                        },
                        pos: w.pos + 1,
                        ..w
                    },
                    keep_text,
                );
            },
            Token::CloseNode(c) => {
                if c != node {
                    lemma_plain_walk_facts(toks, node, PlainWalk { pos: w.pos + 1, ..w }, keep_text);
                }
            },
            _ => {
                lemma_plain_walk_facts(
                    toks,
                    node,
                    PlainWalk { looking: false, pos: w.pos + 1, ..w },
                    keep_text,
                );
            },
        }
    }
}

proof fn lemma_person_walk_facts(toks: Seq<Token>, node: Seq<char>, w: PersonWalk)
    ensures
        person_walk(toks, node, w).pos >= w.pos,
        w.pos <= toks.len() ==> person_walk(toks, node, w).pos <= toks.len(),
    decreases toks.len() - w.pos,
{
    if 0 <= w.pos < toks.len() {
        match toks[w.pos] {
            Token::ParameterName(n) => {
                if w.looking {
                    lemma_person_walk_facts(
                        toks,
                        node,
                        PersonWalk {
                            attrs: with_attribute(toks, w.pos, n, w.attrs),
                            pos: after_attribute(toks, w.pos),
                            ..w
                        },
                    );
                } else {
                    lemma_person_walk_facts(
                        toks,
                        node,
                        PersonWalk { pos: min_int(w.pos + 2, toks.len() as int), ..w },
                    );
                }
            },
            Token::OpenNode(child) => {
                lemma_text_walk_advances(toks, toks[w.pos]->OpenNode_0, start_text_walk(w.pos + 1));
                if child == tag_name() || child == tag_uri() || child == tag_email() {
                    let (e, end) = text_element_at(toks, w.pos);
                    let next = min_int(end + 1, toks.len() as int);
                    let w1 = PersonWalk { looking: false, pos: next, ..w };
                    lemma_person_walk_facts(
                        toks,
                        node,
                        if child == tag_name() {
                            PersonWalk { name: e, ..w1 }
                        } else if child == tag_uri() {
                            PersonWalk { uri: Some(e), ..w1 }
                        } else {
                            PersonWalk { email: Some(e), ..w1 }
                        },
                    );
                } else {
                    lemma_person_walk_facts(toks, node, PersonWalk { looking: false, pos: w.pos + 1, ..w });
                }
            },
            Token::CloseNode(c) => {
                if c != node {
                    lemma_person_walk_facts(toks, node, PersonWalk { pos: w.pos + 1, ..w });
                }
            },
            _ => {
                lemma_person_walk_facts(toks, node, PersonWalk { looking: false, pos: w.pos + 1, ..w });
            },
        }
    }
}

proof fn lemma_atom_child_facts(toks: Seq<Token>, pos: int)
    requires
        0 <= pos < toks.len(),
    ensures
        pos < after_person_child(toks, pos) <= toks.len(),
        pos < after_plain_child(toks, pos, true) <= toks.len(),
        pos < after_plain_child(toks, pos, false) <= toks.len(),
        pos < after_text_child(toks, pos) <= toks.len(),
{
    let name = toks[pos]->OpenNode_0;
    lemma_person_walk_facts(toks, name, start_person_walk(pos + 1));
    lemma_plain_walk_facts(toks, name, start_plain_walk(pos + 1), true);
    lemma_plain_walk_facts(toks, name, start_plain_walk(pos + 1), false);
    lemma_text_walk_advances(toks, name, start_text_walk(pos + 1));
}

fn read_person_child(tokens: &mut TokenCursor) -> (r: Element<Person>)
    requires
        old(tokens).pos < old(tokens).tokens@.len(),
        cursor_tokens(old(tokens))[old(tokens).pos as int] is OpenNode,
    ensures
        person_element_view(&r) == person_element_at(cursor_tokens(old(tokens)), old(tokens).pos as int),
        final(tokens).pos == after_person_child(cursor_tokens(old(tokens)), old(tokens).pos as int),
        final(tokens).tokens@ == old(tokens).tokens@,
{
    let ghost toks = cursor_tokens(tokens);
    let ghost p = tokens.pos as int;
    let t = tokens.next().unwrap();
    let e = Element::<Person>::serialize(t, tokens);
    proof {
        lemma_person_walk_facts(toks, toks[p]->OpenNode_0, start_person_walk(p + 1));
    }
    tokens.next();
    e
}

fn read_category_child(tokens: &mut TokenCursor) -> (r: Element<Category>)
    requires
        old(tokens).pos < old(tokens).tokens@.len(),
        cursor_tokens(old(tokens))[old(tokens).pos as int] is OpenNode,
    ensures
        category_element_view(&r) == plain_element_at(cursor_tokens(old(tokens)), old(tokens).pos as int, false),
        final(tokens).pos == after_plain_child(cursor_tokens(old(tokens)), old(tokens).pos as int, false),
        final(tokens).tokens@ == old(tokens).tokens@,
{
    let ghost toks = cursor_tokens(tokens);
    let ghost p = tokens.pos as int;
    let t = tokens.next().unwrap();
    let e = Element::<Category>::serialize(t, tokens);
    proof {
        lemma_plain_walk_facts(toks, toks[p]->OpenNode_0, start_plain_walk(p + 1), false);
    }
    tokens.next();
    e
}

fn read_link_child(tokens: &mut TokenCursor) -> (r: Element<Link>)
    requires
        old(tokens).pos < old(tokens).tokens@.len(),
        cursor_tokens(old(tokens))[old(tokens).pos as int] is OpenNode,
    ensures
        link_element_view(&r) == plain_element_at(cursor_tokens(old(tokens)), old(tokens).pos as int, true),
        final(tokens).pos == after_plain_child(cursor_tokens(old(tokens)), old(tokens).pos as int, true),
        final(tokens).tokens@ == old(tokens).tokens@,
{
    let ghost toks = cursor_tokens(tokens);
    let ghost p = tokens.pos as int;
    let t = tokens.next().unwrap();
    let e = Element::<Link>::serialize(t, tokens);
    proof {
        lemma_plain_walk_facts(toks, toks[p]->OpenNode_0, start_plain_walk(p + 1), true);
    }
    tokens.next();
    e
}


/// An Atom entry.
#[derive(Debug, Default)]
pub struct Entry {
    pub authors: Option<Vec<Element<Person>>>,
    pub categories: Option<Vec<Element<Category>>>,
    pub content: Element<String>,
    pub contributors: Option<Vec<Element<Person>>>,
    pub id: Element<String>,
    pub links: Option<Vec<Element<Link>>>,
    pub published: Option<Element<String>>,
    pub rights: Option<Element<String>>,
    pub summary: Option<Element<String>>,
    pub title: Element<String>,
    pub updated: Element<String>,
}

/// The body of an Atom feed.
#[derive(Debug, Default)]
pub struct Inner {
    pub authors: Option<Vec<Element<Person>>>,
    pub categories: Option<Vec<Element<Category>>>,
    pub contributors: Option<Vec<Element<Person>>>,
    pub generator: Option<Element<String>>,
    pub icon: Option<Element<String>>,
    pub id: Element<String>,
    pub links: Option<Vec<Element<Link>>>,
    pub logo: Option<Element<String>>,
    pub rights: Option<Element<String>>,
    pub subtitle: Option<Element<String>>,
    pub title: Element<String>,
    pub updated: Element<String>,
    pub entries: Vec<Element<Option<Entry>>>,
}

pub open spec fn opt_persons(o: &Option<Vec<Element<Person>>>) -> Seq<PersonElement> {
    match o {
        Some(v) => persons_view(v@),
        None => Seq::empty(),
    }
}

pub open spec fn opt_categories(o: &Option<Vec<Element<Category>>>) -> Seq<PlainElement> {
    match o {
        Some(v) => categories_view(v@),
        None => Seq::empty(),
    }
}

pub open spec fn opt_links(o: &Option<Vec<Element<Link>>>) -> Seq<PlainElement> {
    match o {
        Some(v) => links_view(v@),
        None => Seq::empty(),
    }
}

/// A list is kept only when it is not empty.
pub open spec fn no_empty_list<T>(o: Option<Vec<T>>) -> bool {
    o matches Some(v) ==> v@.len() > 0
}

pub open spec fn entry_data(e: &Entry) -> EntryData {
    EntryData {
        authors: opt_persons(&e.authors),
        categories: opt_categories(&e.categories),
        content: text_element_view(&e.content),
        contributors: opt_persons(&e.contributors),
        id: text_element_view(&e.id),
        links: opt_links(&e.links),
        published: opt_text_element_view(&e.published),
        rights: opt_text_element_view(&e.rights),
        summary: opt_text_element_view(&e.summary),
        title: text_element_view(&e.title),
        updated: text_element_view(&e.updated),
    }
}

pub open spec fn entry_lists_kept(e: &Entry) -> bool {
    &&& no_empty_list(e.authors)
    &&& no_empty_list(e.categories)
    &&& no_empty_list(e.contributors)
    &&& no_empty_list(e.links)
}

/// The value of an entry element; an entry with attributes and no title
/// holds nothing.
pub struct EntryElement {
    pub name: Seq<char>,
    pub attrs: Attrs,
    pub data: Option<EntryData>,
}

pub open spec fn entry_element_view(e: &Element<Option<Entry>>) -> EntryElement {
    EntryElement {
        name: e.name@,
        attrs: attrs_view(e.attributes@),
        data: match &e.data {
            Some(en) => Some(entry_data(en)),
            None => None,
        },
    }
}

pub open spec fn entries_view(v: Seq<Element<Option<Entry>>>) -> Seq<EntryElement> {
    v.map_values(|e: Element<Option<Entry>>| entry_element_view(&e))
}

/// What an entry walk that ended in `w` holds.
pub open spec fn entry_result(w: EntryWalk) -> Option<EntryData> {
    if w.attrs.len() > 0 && w.data.title.data.len() == 0 {
        None
    } else {
        Some(w.data)
    }
}

pub open spec fn entry_element_at(toks: Seq<Token>, pos: int) -> EntryElement {
    let name = toks[pos]->OpenNode_0;
    let w = entry_walk(toks, name, start_entry_walk(pos + 1));
    EntryElement { name, attrs: w.attrs, data: entry_result(w) }
}

pub open spec fn after_entry_child(toks: Seq<Token>, pos: int) -> int {
    min_int(
        entry_walk(toks, toks[pos]->OpenNode_0, start_entry_walk(pos + 1)).pos + 1,
        toks.len() as int,
    )
}

proof fn lemma_entry_child_facts(toks: Seq<Token>, pos: int)
    requires
        0 <= pos < toks.len(),
    ensures
        pos < after_person_child(toks, pos) <= toks.len(),
        pos < after_plain_child(toks, pos, true) <= toks.len(),
        pos < after_plain_child(toks, pos, false) <= toks.len(),
        pos < after_text_child(toks, pos) <= toks.len(),
{
    lemma_atom_child_facts(toks, pos);
}

/// The value of an entry.
pub struct EntryData {
    pub authors: Seq<PersonElement>,
    pub categories: Seq<PlainElement>,
    pub content: TextElement,
    pub contributors: Seq<PersonElement>,
    pub id: TextElement,
    pub links: Seq<PlainElement>,
    pub published: Option<TextElement>,
    pub rights: Option<TextElement>,
    pub summary: Option<TextElement>,
    pub title: TextElement,
    pub updated: TextElement,
}

pub open spec fn empty_entry_data() -> EntryData {
    EntryData {
        authors: Seq::empty(),
        categories: Seq::empty(),
        content: empty_text_element(),
        contributors: Seq::empty(),
        id: empty_text_element(),
        links: Seq::empty(),
        published: None,
        rights: None,
        summary: None,
        title: empty_text_element(),
        updated: empty_text_element(),
    }
}

/// A child `child` opening at `pos`: the value after it, and where the cursor goes.
pub open spec fn entry_child(toks: Seq<Token>, pos: int, d: EntryData, child: Seq<char>) -> (EntryData, int) {
    if child == tag_author() {
        (EntryData { authors: d.authors.push(person_element_at(toks, pos)), ..d }, after_person_child(toks, pos))
    } else if child == tag_category() {
        (EntryData { categories: d.categories.push(plain_element_at(toks, pos, false)), ..d }, after_plain_child(toks, pos, false))
    } else if child == tag_content() {
        (EntryData { content: text_element_at(toks, pos).0, ..d }, after_text_child(toks, pos))
    } else if child == tag_contributor() {
        (EntryData { contributors: d.contributors.push(person_element_at(toks, pos)), ..d }, after_person_child(toks, pos))
    } else if child == tag_id() {
        (EntryData { id: text_element_at(toks, pos).0, ..d }, after_text_child(toks, pos))
    } else if child == tag_link() {
        (EntryData { links: d.links.push(plain_element_at(toks, pos, true)), ..d }, after_plain_child(toks, pos, true))
    } else if child == tag_published() {
        (EntryData { published: Some(text_element_at(toks, pos).0), ..d }, after_text_child(toks, pos))
    } else if child == tag_rights() {
        (EntryData { rights: Some(text_element_at(toks, pos).0), ..d }, after_text_child(toks, pos))
    } else if child == tag_summary() {
        (EntryData { summary: Some(text_element_at(toks, pos).0), ..d }, after_text_child(toks, pos))
    } else if child == tag_title() {
        (EntryData { title: text_element_at(toks, pos).0, ..d }, after_text_child(toks, pos))
    } else if child == tag_updated() {
        (EntryData { updated: text_element_at(toks, pos).0, ..d }, after_text_child(toks, pos))
    } else {
        (d, pos + 1)
    }
}

pub struct EntryWalk {
    pub data: EntryData,
    pub attrs: Attrs,
    pub looking: bool,
    pub pos: int,
}

pub open spec fn start_entry_walk(pos: int) -> EntryWalk {
    EntryWalk { data: empty_entry_data(), attrs: Seq::empty(), looking: true, pos }
}

pub open spec fn entry_walk(toks: Seq<Token>, node: Seq<char>, w: EntryWalk) -> EntryWalk
    decreases toks.len() - w.pos,
{
    if w.pos < 0 || w.pos >= toks.len() {
        w
    } else {
        match toks[w.pos] {
            Token::ParameterName(n) => {
                if w.looking {
                    entry_walk(
                        toks,
                        node, EntryWalk {
                            attrs: with_attribute(toks, w.pos, n, w.attrs),
                            pos: after_attribute(toks, w.pos),
                            ..w
                        },
                    )
                } else {
                    entry_walk(
                        toks,
                        node, EntryWalk { pos: min_int(w.pos + 2, toks.len() as int), ..w },
                    )
                }
            },
            Token::OpenNode(child) => {
                let (d, next) = entry_child(toks, w.pos, w.data, child);
                if next <= w.pos {
                    w
                } else {
                    entry_walk(toks, node, EntryWalk { data: d, looking: false, pos: next, ..w })
                }
            },
            Token::CloseNode(c) => {
                if c == node {
                    w
                } else {
                    entry_walk(toks, node, EntryWalk { pos: w.pos + 1, ..w })
                }
            },
            _ => entry_walk(toks, node, EntryWalk { looking: false, pos: w.pos + 1, ..w }),
        }
    }
}

proof fn lemma_entry_walk_facts(toks: Seq<Token>, node: Seq<char>, w: EntryWalk)
    ensures
        entry_walk(toks, node, w).pos >= w.pos,
        w.pos <= toks.len() ==> entry_walk(toks, node, w).pos <= toks.len(),
    decreases toks.len() - w.pos,
{
    if 0 <= w.pos < toks.len() {
        match toks[w.pos] {
            Token::ParameterName(n) => {
                if w.looking {
                    lemma_entry_walk_facts(
                        toks,
                        node, EntryWalk {
                            attrs: with_attribute(toks, w.pos, n, w.attrs),
                            pos: after_attribute(toks, w.pos),
                            ..w
                        },
                    );
                } else {
                    lemma_entry_walk_facts(
                        toks,
                        node, EntryWalk { pos: min_int(w.pos + 2, toks.len() as int), ..w },
                    );
                }
            },
            Token::OpenNode(child) => {
                lemma_entry_child_facts(toks, w.pos);
                let (d, next) = entry_child(toks, w.pos, w.data, child);
                lemma_entry_walk_facts(toks, node, EntryWalk { data: d, looking: false, pos: next, ..w });
            },
            Token::CloseNode(c) => {
                if !(c == node) {
                    lemma_entry_walk_facts(toks, node, EntryWalk { pos: w.pos + 1, ..w });
                }
            },
            _ => {
                lemma_entry_walk_facts(toks, node, EntryWalk { looking: false, pos: w.pos + 1, ..w });
            },
        }
    }
}

/// The value held by `r` and the lists gathered beside it.
pub open spec fn entry_parts(r: &Entry, authors: Seq<Element<Person>>, categories: Seq<Element<Category>>, contributors: Seq<Element<Person>>, links: Seq<Element<Link>>) -> EntryData {
    EntryData {
        authors: persons_view(authors),
        categories: categories_view(categories),
        content: text_element_view(&r.content),
        contributors: persons_view(contributors),
        id: text_element_view(&r.id),
        links: links_view(links),
        published: opt_text_element_view(&r.published),
        rights: opt_text_element_view(&r.rights),
        summary: opt_text_element_view(&r.summary),
        title: text_element_view(&r.title),
        updated: text_element_view(&r.updated),
    }
}

/// Reads the child whose opening token, `child`, is under the cursor.
fn read_entry_child_into(
    entry: &mut Entry, authors: &mut Vec<Element<Person>>, categories: &mut Vec<Element<Category>>, contributors: &mut Vec<Element<Person>>, links: &mut Vec<Element<Link>>,
    child: &String,
    tokens: &mut TokenCursor,
)
    requires
        old(tokens).pos < old(tokens).tokens@.len(),
        cursor_tokens(old(tokens))[old(tokens).pos as int] == Token::OpenNode(child@),
    ensures
        ({
            let (d, next) = entry_child(
                cursor_tokens(old(tokens)),
                old(tokens).pos as int,
                entry_parts(old(entry), old(authors)@, old(categories)@, old(contributors)@, old(links)@),
                child@,
            );
            &&& entry_parts(final(entry), final(authors)@, final(categories)@, final(contributors)@, final(links)@) == d
            &&& final(tokens).pos == next
        }),
        final(tokens).tokens@ == old(tokens).tokens@,
{
    if is_author(child) {
        let ghost before = authors@;
        let e = read_person_child(tokens);
        authors.push(e);
        assert(persons_view(authors@) =~= persons_view(before).push(person_element_view(&e)));
    } else if is_category(child) {
        let ghost before = categories@;
        let e = read_category_child(tokens);
        categories.push(e);
        assert(categories_view(categories@) =~= categories_view(before).push(category_element_view(&e)));
    } else if is_content(child) {
        entry.content = read_text_child(tokens);
    } else if is_contributor(child) {
        let ghost before = contributors@;
        let e = read_person_child(tokens);
        contributors.push(e);
        assert(persons_view(contributors@) =~= persons_view(before).push(person_element_view(&e)));
    } else if is_id(child) {
        entry.id = read_text_child(tokens);
    } else if is_link(child) {
        let ghost before = links@;
        let e = read_link_child(tokens);
        links.push(e);
        assert(links_view(links@) =~= links_view(before).push(link_element_view(&e)));
    } else if is_published(child) {
        entry.published = Some(read_text_child(tokens));
    } else if is_rights(child) {
        entry.rights = Some(read_text_child(tokens));
    } else if is_summary(child) {
        entry.summary = Some(read_text_child(tokens));
    } else if is_title(child) {
        entry.title = read_text_child(tokens);
    } else if is_updated(child) {
        entry.updated = read_text_child(tokens);
    } else {
        tokens.next();
    }
}

proof fn lemma_inner_child_facts(toks: Seq<Token>, pos: int)
    requires
        0 <= pos < toks.len(),
    ensures
        pos < after_person_child(toks, pos) <= toks.len(),
        pos < after_plain_child(toks, pos, true) <= toks.len(),
        pos < after_plain_child(toks, pos, false) <= toks.len(),
        pos < after_text_child(toks, pos) <= toks.len(),
        pos < after_entry_child(toks, pos) <= toks.len(),
{
    lemma_atom_child_facts(toks, pos);
    lemma_entry_walk_facts(toks, toks[pos]->OpenNode_0, start_entry_walk(pos + 1));
}

fn read_entry_child(tokens: &mut TokenCursor) -> (r: Element<Option<Entry>>)
    requires
        old(tokens).pos < old(tokens).tokens@.len(),
        cursor_tokens(old(tokens))[old(tokens).pos as int] is OpenNode,
    ensures
        entry_element_view(&r) == entry_element_at(cursor_tokens(old(tokens)), old(tokens).pos as int),
        final(tokens).pos == after_entry_child(cursor_tokens(old(tokens)), old(tokens).pos as int),
        final(tokens).tokens@ == old(tokens).tokens@,
{
    let ghost toks = cursor_tokens(tokens);
    let ghost p = tokens.pos as int;
    let t = tokens.next().unwrap();
    let e = Element::<Option<Entry>>::serialize(t, tokens);
    proof {
        lemma_entry_walk_facts(toks, toks[p]->OpenNode_0, start_entry_walk(p + 1));
    }
    tokens.next();
    e
}

impl Element<Option<Entry>> {
    /// Reads an entry element whose opening token is `token`. An entry with
    /// attributes and an empty title holds nothing.
    pub fn serialize(token: Tokens, tokens: &mut TokenCursor) -> (r: Self)
        requires
            token is OpenNode,
        ensures
            ({
                let w = entry_walk(
                    cursor_tokens(old(tokens)),
                    token@->OpenNode_0,
                    start_entry_walk(old(tokens).pos as int),
                );
                &&& r.name@ == token@->OpenNode_0
                &&& attrs_view(r.attributes@) == w.attrs
                &&& entry_element_view(&r).data == entry_result(w)
                &&& (r.data matches Some(e) ==> entry_lists_kept(&e))
                &&& final(tokens).pos == w.pos
            }),
            final(tokens).tokens@ == old(tokens).tokens@,
    {
        let node = match token {
            Tokens::OpenNode(n) => n,
            _ => String::new(),
        };
        let ghost toks = cursor_tokens(tokens);
        let ghost orig = tokens.tokens@;
        let ghost goal = entry_walk(toks, node@, start_entry_walk(tokens.pos as int));
        let mut entry = Entry {
            authors: None,
            categories: None,
            content: empty_text_element_value(),
            contributors: None,
            id: empty_text_element_value(),
            links: None,
            published: None,
            rights: None,
            summary: None,
            title: empty_text_element_value(),
            updated: empty_text_element_value(),
        };
        let mut attributes: Vec<(String, String)> = Vec::new();
        let mut looking = true;
        let mut authors: Vec<Element<Person>> = Vec::new();
        let mut categories: Vec<Element<Category>> = Vec::new();
        let mut contributors: Vec<Element<Person>> = Vec::new();
        let mut links: Vec<Element<Link>> = Vec::new();
        assert(attrs_view(attributes@) =~= Seq::empty());
        assert(persons_view(authors@) =~= Seq::empty());
        assert(categories_view(categories@) =~= Seq::empty());
        assert(links_view(links@) =~= Seq::empty());
        loop
            invariant
                toks == cursor_tokens(tokens),
                tokens.tokens@ == orig,
                entry_walk(
                    toks,
                    node@,
                    EntryWalk {
                        data: entry_parts(&entry, authors@, categories@, contributors@, links@),
                        attrs: attrs_view(attributes@),
                        looking,
                        pos: tokens.pos as int,
                    },
                ) == goal,
            ensures
                goal == (EntryWalk {
                    data: entry_parts(&entry, authors@, categories@, contributors@, links@),
                    attrs: attrs_view(attributes@),
                    looking,
                    pos: tokens.pos as int,
                }),
            decreases toks.len() - tokens.pos,
        {
            let t = match tokens.peek() {
                Some(t) => copy_token(t),
                None => {
                    break ;
                },
            };
            match t {
                Tokens::ParameterName(name) => {
                    if looking {
                        tokens.next();
                        read_attribute(tokens, name, &mut attributes);
                        continue ;
                    } else {
                        tokens.next();
                    }
                },
                Tokens::OpenNode(child) => {
                    proof {
                        lemma_entry_child_facts(toks, tokens.pos as int);
                    }
                    looking = false;
                    read_entry_child_into(
                        &mut entry,
                        &mut authors,
                        &mut categories,
                        &mut contributors,
                        &mut links,
                        &child,
                        tokens,
                    );
                    continue ;
                },
                Tokens::CloseNode(close) => {
                    if node == close {
                        break ;
                    }
                },
                _ => {
                    looking = false;
                },
            }
            tokens.next();
        }
        let ghost parts = entry_parts(&entry, authors@, categories@, contributors@, links@);
        let ghost (a0, c0, k0, l0) = (authors@, categories@, contributors@, links@);
        entry.authors = kept(authors);
        entry.categories = kept(categories);
        entry.contributors = kept(contributors);
        entry.links = kept(links);
        assert(opt_persons(&entry.authors) =~= persons_view(a0));
        assert(opt_categories(&entry.categories) =~= categories_view(c0));
        assert(opt_persons(&entry.contributors) =~= persons_view(k0));
        assert(opt_links(&entry.links) =~= links_view(l0));
        assert(entry_data(&entry) == parts);
        let data = if attributes.len() > 0 && entry.title.data.as_str().is_empty() {
            None
        } else {
            Some(entry)
        };
        Element { name: node, attributes, data }
    }
}

/// The value of the body of a feed.
pub struct InnerData {
    pub authors: Seq<PersonElement>,
    pub categories: Seq<PlainElement>,
    pub contributors: Seq<PersonElement>,
    pub generator: Option<TextElement>,
    pub icon: Option<TextElement>,
    pub id: TextElement,
    pub links: Seq<PlainElement>,
    pub logo: Option<TextElement>,
    pub rights: Option<TextElement>,
    pub subtitle: Option<TextElement>,
    pub title: TextElement,
    pub updated: TextElement,
    pub entries: Seq<EntryElement>,
}

pub open spec fn empty_inner_data() -> InnerData {
    InnerData {
        authors: Seq::empty(),
        categories: Seq::empty(),
        contributors: Seq::empty(),
        generator: None,
        icon: None,
        id: empty_text_element(),
        links: Seq::empty(),
        logo: None,
        rights: None,
        subtitle: None,
        title: empty_text_element(),
        updated: empty_text_element(),
        entries: Seq::empty(),
    }
}

/// A child `child` opening at `pos`: the value after it, and where the cursor goes.
pub open spec fn inner_child(toks: Seq<Token>, pos: int, d: InnerData, child: Seq<char>) -> (InnerData, int) {
    if child == tag_author() {
        (InnerData { authors: d.authors.push(person_element_at(toks, pos)), ..d }, after_person_child(toks, pos))
    } else if child == tag_category() {
        (InnerData { categories: d.categories.push(plain_element_at(toks, pos, false)), ..d }, after_plain_child(toks, pos, false))
    } else if child == tag_contributor() {
        (InnerData { contributors: d.contributors.push(person_element_at(toks, pos)), ..d }, after_person_child(toks, pos))
    } else if child == tag_generator() {
        (InnerData { generator: Some(text_element_at(toks, pos).0), ..d }, after_text_child(toks, pos))
    } else if child == tag_icon() {
        (InnerData { icon: Some(text_element_at(toks, pos).0), ..d }, after_text_child(toks, pos))
    } else if child == tag_id() {
        (InnerData { id: text_element_at(toks, pos).0, ..d }, after_text_child(toks, pos))
    } else if child == tag_link() {
        (InnerData { links: d.links.push(plain_element_at(toks, pos, true)), ..d }, after_plain_child(toks, pos, true))
    } else if child == tag_logo() {
        (InnerData { logo: Some(text_element_at(toks, pos).0), ..d }, after_text_child(toks, pos))
    } else if child == tag_rights() {
        (InnerData { rights: Some(text_element_at(toks, pos).0), ..d }, after_text_child(toks, pos))
    } else if child == tag_subtitle() {
        (InnerData { subtitle: Some(text_element_at(toks, pos).0), ..d }, after_text_child(toks, pos))
    } else if child == tag_title() {
        (InnerData { title: text_element_at(toks, pos).0, ..d }, after_text_child(toks, pos))
    } else if child == tag_updated() {
        (InnerData { updated: text_element_at(toks, pos).0, ..d }, after_text_child(toks, pos))
    } else if child == tag_entry() {
        (InnerData { entries: d.entries.push(entry_element_at(toks, pos)), ..d }, after_entry_child(toks, pos))
    } else {
        (d, pos + 1)
    }
}

pub struct InnerWalk {
    pub data: InnerData,
    pub attrs: Attrs,
    pub looking: bool,
    pub pos: int,
}

pub open spec fn start_inner_walk(pos: int) -> InnerWalk {
    InnerWalk { data: empty_inner_data(), attrs: Seq::empty(), looking: true, pos }
}

pub open spec fn inner_walk(toks: Seq<Token>, w: InnerWalk) -> InnerWalk
    decreases toks.len() - w.pos,
{
    if w.pos < 0 || w.pos >= toks.len() {
        w
    } else {
        match toks[w.pos] {
            Token::ParameterName(n) => {
                if w.looking {
                    inner_walk(
                        toks,
                        InnerWalk {
                            attrs: with_attribute(toks, w.pos, n, w.attrs),
                            pos: after_attribute(toks, w.pos),
                            ..w
                        },
                    )
                } else {
                    inner_walk(
                        toks,
                        InnerWalk { pos: min_int(w.pos + 2, toks.len() as int), ..w },
                    )
                }
            },
            Token::OpenNode(child) => {
                let (d, next) = inner_child(toks, w.pos, w.data, child);
                if next <= w.pos {
                    w
                } else {
                    inner_walk(toks, InnerWalk { data: d, looking: false, pos: next, ..w })
                }
            },
            Token::CloseNode(c) => {
                if c == tag_feed() {
                    w
                } else {
                    inner_walk(toks, InnerWalk { pos: w.pos + 1, ..w })
                }
            },
            _ => inner_walk(toks, InnerWalk { looking: false, pos: w.pos + 1, ..w }),
        }
    }
}

proof fn lemma_inner_walk_facts(toks: Seq<Token>, w: InnerWalk)
    ensures
        inner_walk(toks, w).pos >= w.pos,
        w.pos <= toks.len() ==> inner_walk(toks, w).pos <= toks.len(),
    decreases toks.len() - w.pos,
{
    if 0 <= w.pos < toks.len() {
        match toks[w.pos] {
            Token::ParameterName(n) => {
                if w.looking {
                    lemma_inner_walk_facts(
                        toks,
                        InnerWalk {
                            attrs: with_attribute(toks, w.pos, n, w.attrs),
                            pos: after_attribute(toks, w.pos),
                            ..w
                        },
                    );
                } else {
                    lemma_inner_walk_facts(
                        toks,
                        InnerWalk { pos: min_int(w.pos + 2, toks.len() as int), ..w },
                    );
                }
            },
            Token::OpenNode(child) => {
                lemma_inner_child_facts(toks, w.pos);
                let (d, next) = inner_child(toks, w.pos, w.data, child);
                lemma_inner_walk_facts(toks, InnerWalk { data: d, looking: false, pos: next, ..w });
            },
            Token::CloseNode(c) => {
                if !(c == tag_feed()) {
                    lemma_inner_walk_facts(toks, InnerWalk { pos: w.pos + 1, ..w });
                }
            },
            _ => {
                lemma_inner_walk_facts(toks, InnerWalk { looking: false, pos: w.pos + 1, ..w });
            },
        }
    }
}

/// The value held by `r` and the lists gathered beside it.
pub open spec fn inner_parts(r: &Inner, authors: Seq<Element<Person>>, categories: Seq<Element<Category>>, contributors: Seq<Element<Person>>, links: Seq<Element<Link>>, entries: Seq<Element<Option<Entry>>>) -> InnerData {
    InnerData {
        authors: persons_view(authors),
        categories: categories_view(categories),
        contributors: persons_view(contributors),
        generator: opt_text_element_view(&r.generator),
        icon: opt_text_element_view(&r.icon),
        id: text_element_view(&r.id),
        links: links_view(links),
        logo: opt_text_element_view(&r.logo),
        rights: opt_text_element_view(&r.rights),
        subtitle: opt_text_element_view(&r.subtitle),
        title: text_element_view(&r.title),
        updated: text_element_view(&r.updated),
        entries: entries_view(entries),
    }
}

/// Reads the child whose opening token, `child`, is under the cursor.
fn read_inner_child_into(
    inner: &mut Inner, authors: &mut Vec<Element<Person>>, categories: &mut Vec<Element<Category>>, contributors: &mut Vec<Element<Person>>, links: &mut Vec<Element<Link>>, entries: &mut Vec<Element<Option<Entry>>>,
    child: &String,
    tokens: &mut TokenCursor,
)
    requires
        old(tokens).pos < old(tokens).tokens@.len(),
        cursor_tokens(old(tokens))[old(tokens).pos as int] == Token::OpenNode(child@),
    ensures
        ({
            let (d, next) = inner_child(
                cursor_tokens(old(tokens)),
                old(tokens).pos as int,
                inner_parts(old(inner), old(authors)@, old(categories)@, old(contributors)@, old(links)@, old(entries)@),
                child@,
            );
            &&& inner_parts(final(inner), final(authors)@, final(categories)@, final(contributors)@, final(links)@, final(entries)@) == d
            &&& final(tokens).pos == next
        }),
        final(tokens).tokens@ == old(tokens).tokens@,
{
    if is_author(child) {
        let ghost before = authors@;
        let e = read_person_child(tokens);
        authors.push(e);
        assert(persons_view(authors@) =~= persons_view(before).push(person_element_view(&e)));
    } else if is_category(child) {
        let ghost before = categories@;
        let e = read_category_child(tokens);
        categories.push(e);
        assert(categories_view(categories@) =~= categories_view(before).push(category_element_view(&e)));
    } else if is_contributor(child) {
        let ghost before = contributors@;
        let e = read_person_child(tokens);
        contributors.push(e);
        assert(persons_view(contributors@) =~= persons_view(before).push(person_element_view(&e)));
    } else if is_generator(child) {
        inner.generator = Some(read_text_child(tokens));
    } else if is_icon(child) {
        inner.icon = Some(read_text_child(tokens));
    } else if is_id(child) {
        inner.id = read_text_child(tokens);
    } else if is_link(child) {
        let ghost before = links@;
        let e = read_link_child(tokens);
        links.push(e);
        assert(links_view(links@) =~= links_view(before).push(link_element_view(&e)));
    } else if is_logo(child) {
        inner.logo = Some(read_text_child(tokens));
    } else if is_rights(child) {
        inner.rights = Some(read_text_child(tokens));
    } else if is_subtitle(child) {
        inner.subtitle = Some(read_text_child(tokens));
    } else if is_title(child) {
        inner.title = read_text_child(tokens);
    } else if is_updated(child) {
        inner.updated = read_text_child(tokens);
    } else if is_entry(child) {
        let ghost before = entries@;
        let e = read_entry_child(tokens);
        entries.push(e);
        assert(entries_view(entries@) =~= entries_view(before).push(entry_element_view(&e)));
    } else {
        tokens.next();
    }
}

pub open spec fn inner_data(i: &Inner) -> InnerData {
    InnerData {
        authors: opt_persons(&i.authors),
        categories: opt_categories(&i.categories),
        contributors: opt_persons(&i.contributors),
        generator: opt_text_element_view(&i.generator),
        icon: opt_text_element_view(&i.icon),
        id: text_element_view(&i.id),
        links: opt_links(&i.links),
        logo: opt_text_element_view(&i.logo),
        rights: opt_text_element_view(&i.rights),
        subtitle: opt_text_element_view(&i.subtitle),
        title: text_element_view(&i.title),
        updated: text_element_view(&i.updated),
        entries: entries_view(i.entries@),
    }
}

impl Inner {
    /// Reads the body of an Atom feed from the cursor up to (not past) the
    /// first `CloseNode("feed")`.
    pub fn serialize(tokens: &mut TokenCursor) -> (r: Self)
        ensures
            ({
                let w = inner_walk(cursor_tokens(old(tokens)), start_inner_walk(old(tokens).pos as int));
                &&& inner_data(&r) == w.data
                &&& no_empty_list(r.authors)
                &&& no_empty_list(r.categories)
                &&& no_empty_list(r.contributors)
                &&& no_empty_list(r.links)
                &&& final(tokens).pos == w.pos
            }),
            final(tokens).tokens@ == old(tokens).tokens@,
    {
        let ghost toks = cursor_tokens(tokens);
        let ghost orig = tokens.tokens@;
        let ghost goal = inner_walk(toks, start_inner_walk(tokens.pos as int));
        let mut inner = Inner {
            authors: None,
            categories: None,
            contributors: None,
            generator: None,
            icon: None,
            id: empty_text_element_value(),
            links: None,
            logo: None,
            rights: None,
            subtitle: None,
            title: empty_text_element_value(),
            updated: empty_text_element_value(),
            entries: Vec::new(),
        };
        let mut attributes: Vec<(String, String)> = Vec::new();
        let mut looking = true;
        let mut authors: Vec<Element<Person>> = Vec::new();
        let mut categories: Vec<Element<Category>> = Vec::new();
        let mut contributors: Vec<Element<Person>> = Vec::new();
        let mut links: Vec<Element<Link>> = Vec::new();
        let mut entries: Vec<Element<Option<Entry>>> = Vec::new();
        assert(attrs_view(attributes@) =~= Seq::empty());
        assert(persons_view(authors@) =~= Seq::empty());
        assert(categories_view(categories@) =~= Seq::empty());
        assert(links_view(links@) =~= Seq::empty());
        assert(entries_view(entries@) =~= Seq::empty());
        loop
            invariant
                toks == cursor_tokens(tokens),
                tokens.tokens@ == orig,
                inner_walk(
                    toks,
                    InnerWalk {
                        data: inner_parts(&inner, authors@, categories@, contributors@, links@, entries@),
                        attrs: attrs_view(attributes@),
                        looking,
                        pos: tokens.pos as int,
                    },
                ) == goal,
            ensures
                goal == (InnerWalk {
                    data: inner_parts(&inner, authors@, categories@, contributors@, links@, entries@),
                    attrs: attrs_view(attributes@),
                    looking,
                    pos: tokens.pos as int,
                }),
            decreases toks.len() - tokens.pos,
        {
            let t = match tokens.peek() {
                Some(t) => copy_token(t),
                None => {
                    break ;
                },
            };
            match t {
                Tokens::ParameterName(name) => {
                    if looking {
                        tokens.next();
                        read_attribute(tokens, name, &mut attributes);
                        continue ;
                    } else {
                        tokens.next();
                    }
                },
                Tokens::OpenNode(child) => {
                    proof {
                        lemma_inner_child_facts(toks, tokens.pos as int);
                    }
                    looking = false;
                    read_inner_child_into(
                        &mut inner,
                        &mut authors,
                        &mut categories,
                        &mut contributors,
                        &mut links,
                        &mut entries,
                        &child,
                        tokens,
                    );
                    continue ;
                },
                Tokens::CloseNode(close) => {
                    if is_feed(&close) {
                        break ;
                    }
                },
                _ => {
                    looking = false;
                },
            }
            tokens.next();
        }
        let ghost parts = inner_parts(&inner, authors@, categories@, contributors@, links@, entries@);
        let ghost (a0, c0, k0, l0) = (authors@, categories@, contributors@, links@);
        inner.authors = kept(authors);
        inner.categories = kept(categories);
        inner.contributors = kept(contributors);
        inner.links = kept(links);
        inner.entries = entries;
        assert(opt_persons(&inner.authors) =~= persons_view(a0));
        assert(opt_categories(&inner.categories) =~= categories_view(c0));
        assert(opt_persons(&inner.contributors) =~= persons_view(k0));
        assert(opt_links(&inner.links) =~= links_view(l0));
        assert(inner_data(&inner) == parts);
        inner
    }
}


/// An Atom feed: the attributes of its root element and its body.
#[derive(Debug, Default)]
pub struct Feed {
    pub specs: Option<Vec<(String, String)>>,
    pub contents: Inner,
}

impl Feed {
    /// Reads an Atom feed from a document. After the first `feed` opening
    /// tag one token is passed over; the attributes that then lead are the
    /// feed's, and its body follows.
    pub fn serialize(input: &str) -> (r: Result<Feed, FeedError>)
        requires
            input@.len() < usize::MAX,
        ensures
            ({
                let toks = document_tokens(input@);
                let k = first_open(toks, tag_feed(), 0);
                let (pairs, end) = leading_pairs(toks, k + 2, Seq::empty());
                &&& (k == toks.len() <==> r == Err::<Feed, FeedError>(FeedError::MissingRoot))
                &&& (k + 1 == toks.len() <==> r == Err::<Feed, FeedError>(FeedError::Truncated))
                &&& (k + 1 < toks.len() ==> r is Ok)
                &&& (r matches Ok(f) ==> {
                    &&& opt_pairs(&f.specs) == pairs
                    &&& no_empty_list(f.specs)
                    &&& inner_data(&f.contents) == inner_walk(toks, start_inner_walk(end)).data
                })
            }),
    {
        let mut cursor = document_cursor(input);
        let ghost toks = cursor_tokens(&cursor);
        proof {
            crate::elements::lemma_first_open_bounds(toks, tag_feed(), 0);
            reveal_strlit("feed");
        }
        let name = string_of("feed");
        assert(name@ =~= tag_feed());
        if !skip_past_open(&mut cursor, &name) {
            return Err(FeedError::MissingRoot);
        }
        if cursor.next().is_none() {
            return Err(FeedError::Truncated);
        }
        let specs = read_leading_pairs(&mut cursor);
        let ghost pairs = specs@;
        let contents = Inner::serialize(&mut cursor);
        let specs = kept(specs);
        assert(opt_pairs(&specs) =~= attrs_view(pairs));
        Ok(Feed { specs, contents })
    }
}

} // verus!
