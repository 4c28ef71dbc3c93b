//! Reading feed elements out of a token stream.
//!
//! A reader walks the tokens with one token of lookahead. Each element
//! reader is stated as a walk over the token sequence (`text_walk`,
//! `plain_walk`, `person_walk`) and proved to follow it.
use vstd::prelude::*;

use crate::lexer::lex_units;
use crate::tokenizer::{token_views, tokenize_model, Token, Tokens};

verus! {

/// A forward cursor over a token sequence, with one token of lookahead.
pub struct TokenCursor {
    pub tokens: Vec<Tokens>,
    pub pos: usize,
}

pub open spec fn cursor_tokens(c: &TokenCursor) -> Seq<Token> {
    token_views(c.tokens@)
}

/// A copy of `t` with the same value.
pub fn copy_token(t: &Tokens) -> (r: Tokens)
    ensures
        r@ == t@,
{
    match t {
        Tokens::SimpleNode(s) => Tokens::SimpleNode(s.clone()),
        Tokens::OpenNode(s) => Tokens::OpenNode(s.clone()),
        Tokens::ParameterName(s) => Tokens::ParameterName(s.clone()),
        Tokens::ParameterValue(s) => Tokens::ParameterValue(s.clone()),
        Tokens::CloseNode(s) => Tokens::CloseNode(s.clone()),
        Tokens::Text(s) => Tokens::Text(s.clone()),
    }
}

impl TokenCursor {
    pub fn new(tokens: Vec<Tokens>) -> (r: Self)
        ensures
            r.tokens@ == tokens@,
            r.pos == 0,
    {
        TokenCursor { tokens, pos: 0 }
    }

    /// The token under the cursor, if any.
    pub fn peek(&self) -> (r: Option<&Tokens>)
        ensures
            self.pos < self.tokens@.len() ==> (r matches Some(t) && *t == self.tokens@[self.pos as int]),
            self.pos >= self.tokens@.len() ==> r is None,
    {
        if self.pos < self.tokens.len() {
            Some(&self.tokens[self.pos])
        } else {
            None
        }
    }

    /// Takes the token under the cursor and moves past it.
    pub fn next(&mut self) -> (r: Option<Tokens>)
        ensures
            final(self).tokens@ == old(self).tokens@,
            old(self).pos < old(self).tokens@.len() ==> {
                &&& r matches Some(t) && t@ == old(self).tokens@[old(self).pos as int]@
                &&& final(self).pos == old(self).pos + 1
            },
            old(self).pos >= old(self).tokens@.len() ==> r is None && final(self).pos == old(self).pos,
    {
        if self.pos < self.tokens.len() {
            let t = copy_token(&self.tokens[self.pos]);
            self.pos = self.pos + 1;
            Some(t)
        } else {
            None
        }
    }
}

/// A feed element: its name, its attributes in order, and what it holds.
#[derive(Debug, Default)]
pub struct Element<T> {
    pub name: String,
    pub attributes: Vec<(String, String)>,
    pub data: T,
}

pub type Attrs = Seq<(Seq<char>, Seq<char>)>;

pub open spec fn attrs_view(v: Seq<(String, String)>) -> Attrs {
    v.map_values(|p: (String, String)| (p.0@, p.1@))
}

pub open spec fn min_int(a: int, b: int) -> int {
    if a < b {
        a
    } else {
        b
    }
}

/// Where the cursor stands after reading the attribute name at `pos`: past
/// its value, or, when no value follows, past the two tokens after it.
pub open spec fn after_attribute(toks: Seq<Token>, pos: int) -> int {
    if pos + 1 < toks.len() && toks[pos + 1] is ParameterValue {
        pos + 2
    } else {
        min_int(pos + 3, toks.len() as int)
    }
}

/// The attributes after reading the attribute name `name` at `pos`.
pub open spec fn with_attribute(toks: Seq<Token>, pos: int, name: Seq<char>, attrs: Attrs) -> Attrs {
    if pos + 1 < toks.len() && toks[pos + 1] is ParameterValue {
        attrs.push((name, toks[pos + 1]->ParameterValue_0))
    } else {
        attrs
    }
}

/// The state of a walk through a text element.
pub struct TextWalk {
    pub content: Seq<char>,
    pub attrs: Attrs,
    pub looking: bool,
    pub pos: int,
}

/// Reads a text element named `node`: attributes while they lead, the last
/// text seen as its content, up to (not past) the first `CloseNode(node)`.
pub open spec fn text_walk(toks: Seq<Token>, node: Seq<char>, w: TextWalk) -> TextWalk
    decreases toks.len() - w.pos,
{
    if w.pos < 0 || w.pos >= toks.len() {
        w
    } else {
        match toks[w.pos] {
            Token::ParameterName(n) => {
                if w.looking {
                    text_walk(
                        toks,
                        node,
                        TextWalk {
                            attrs: with_attribute(toks, w.pos, n, w.attrs),
                            pos: after_attribute(toks, w.pos),
                            ..w
                        },
                    )
                } else {
                    text_walk(toks, node, TextWalk { pos: w.pos + 1, ..w })
                }
            },
            Token::Text(t) => text_walk(
                toks,
                node,
                TextWalk { looking: false, content: t, pos: w.pos + 1, ..w },
            ),
            Token::CloseNode(c) => {
                if c == node {
                    TextWalk { looking: false, ..w }
                } else {
                    text_walk(toks, node, TextWalk { looking: false, pos: w.pos + 1, ..w })
                }
            },
            _ => text_walk(toks, node, TextWalk { looking: false, pos: w.pos + 1, ..w }),
        }
    }
}

pub open spec fn start_text_walk(pos: int) -> TextWalk {
    TextWalk { content: Seq::empty(), attrs: Seq::empty(), looking: true, pos }
}

pub proof fn lemma_text_walk_advances(toks: Seq<Token>, node: Seq<char>, w: TextWalk)
    ensures
        text_walk(toks, node, w).pos >= w.pos,
        w.pos <= toks.len() ==> text_walk(toks, node, w).pos <= toks.len(),
    decreases toks.len() - w.pos,
{
    if 0 <= w.pos < toks.len() {
        match toks[w.pos] {
            Token::ParameterName(n) => {
                if w.looking {
                    lemma_text_walk_advances(
                        toks,
                        node,
                        TextWalk {
                            attrs: with_attribute(toks, w.pos, n, w.attrs),
                            pos: after_attribute(toks, w.pos),
                            ..w
                        },
                    );
                } else {
                    lemma_text_walk_advances(toks, node, TextWalk { pos: w.pos + 1, ..w });
                }
            },
            Token::Text(t) => {
                lemma_text_walk_advances(
                    toks,
                    node,
                    TextWalk { looking: false, content: t, pos: w.pos + 1, ..w },
                );
            },
            Token::CloseNode(c) => {
                if c != node {
                    lemma_text_walk_advances(
                        toks,
                        node,
                        TextWalk { looking: false, pos: w.pos + 1, ..w },
                    );
                }
            },
            _ => {
                lemma_text_walk_advances(toks, node, TextWalk { looking: false, pos: w.pos + 1, ..w });
            },
        }
    }
}

/// Reads the attribute whose name the cursor has just passed, as `text_walk`
/// and the other walks do when attributes still lead.
pub(crate) fn read_attribute(tokens: &mut TokenCursor, name: String, attributes: &mut Vec<(String, String)>)
    requires
        old(tokens).pos >= 1,
        old(tokens).pos - 1 < old(tokens).tokens@.len(),
    ensures
        final(tokens).tokens@ == old(tokens).tokens@,
        final(tokens).pos == after_attribute(cursor_tokens(old(tokens)), old(tokens).pos - 1),
        attrs_view(final(attributes)@) == with_attribute(
            cursor_tokens(old(tokens)),
            old(tokens).pos - 1,
            name@,
            attrs_view(old(attributes)@),
        ),
{
    let ghost toks = cursor_tokens(tokens);
    let ghost before = attributes@;
    match tokens.next() {
        Some(Tokens::ParameterValue(value)) => {
            attributes.push((name, value));
            assert(attrs_view(attributes@) =~= attrs_view(before).push((name@, value@)));
        },
        _ => {
            tokens.next();
        },
    }
}

impl Element<String> {
    /// Reads a text element whose opening token is `token`.
    pub fn serialize(token: Tokens, tokens: &mut TokenCursor) -> (r: Self)
        requires
            token is OpenNode,
        ensures
            ({
                let w = text_walk(
                    cursor_tokens(old(tokens)),
                    token@->OpenNode_0,
                    start_text_walk(old(tokens).pos as int),
                );
                &&& r.name@ == token@->OpenNode_0
                &&& attrs_view(r.attributes@) == w.attrs
                &&& r.data@ == w.content
                &&& final(tokens).pos == w.pos
            }),
            final(tokens).tokens@ == old(tokens).tokens@,
    {
        let node = match token {
            Tokens::OpenNode(n) => n,
            _ => String::new(),
        };
        let ghost toks = cursor_tokens(tokens);
        let ghost orig = tokens.tokens@;
        let ghost goal = text_walk(toks, node@, start_text_walk(tokens.pos as int));
        let mut content = String::new();
        let mut attributes: Vec<(String, String)> = Vec::new();
        let mut looking = true;
        assert(attrs_view(attributes@) =~= Seq::empty());
        loop
            invariant
                toks == cursor_tokens(tokens),
                tokens.tokens@ == orig,
                text_walk(
                    toks,
                    node@,
                    TextWalk {
                        content: content@,
                        attrs: attrs_view(attributes@),
                        looking,
                        pos: tokens.pos as int,
                    },
                ) == goal,
            ensures
                goal == (TextWalk {
                    content: content@,
                    attrs: attrs_view(attributes@),
                    looking,
                    pos: tokens.pos as int,
                }),
            decreases toks.len() - tokens.pos,
        {
            let t = match tokens.peek() {
                Some(t) => copy_token(t),
                None => {
                    break ;
                },
            };
            match t {
                Tokens::ParameterName(name) => {
                    if looking {
                        tokens.next();
                        read_attribute(tokens, name, &mut attributes);
                        continue ;
                    }
                },
                Tokens::Text(text) => {
                    looking = false;
                    content = text;
                },
                Tokens::CloseNode(c_node) => {
                    looking = false;
                    if node == c_node {
                        break ;
                    }
                },
                _ => {
                    looking = false;
                },
            }
            tokens.next();
        }
        Element { name: node, attributes, data: content }
    }
}


/// The value of a text element.
pub struct TextElement {
    pub name: Seq<char>,
    pub attrs: Attrs,
    pub data: Seq<char>,
}

pub open spec fn text_element_view(e: &Element<String>) -> TextElement {
    TextElement { name: e.name@, attrs: attrs_view(e.attributes@), data: e.data@ }
}

/// The text element whose opening token stands at `pos`, and where its reader stops.
pub open spec fn text_element_at(toks: Seq<Token>, pos: int) -> (TextElement, int) {
    let name = toks[pos]->OpenNode_0;
    let w = text_walk(toks, name, start_text_walk(pos + 1));
    (TextElement { name, attrs: w.attrs, data: w.content }, w.pos)
}

pub open spec fn empty_text_element() -> TextElement {
    TextElement { name: Seq::empty(), attrs: Seq::empty(), data: Seq::empty() }
}

pub open spec fn opt_text_element_view(o: &Option<Element<String>>) -> Option<TextElement> {
    match o {
        Some(e) => Some(text_element_view(e)),
        None => None,
    }
}

/// An element with no name, attributes or text.
pub fn empty_text_element_value() -> (r: Element<String>)
    ensures
        text_element_view(&r) == empty_text_element(),
{
    let r = Element { name: String::new(), attributes: Vec::new(), data: String::new() };
    assert(attrs_view(r.attributes@) =~= Seq::empty());
    r
}

/// Where the reader of a text child that opens at `pos` leaves the cursor.
pub open spec fn after_text_child(toks: Seq<Token>, pos: int) -> int {
    min_int(text_element_at(toks, pos).1 + 1, toks.len() as int)
}

/// Whether `a` holds the same characters as `b`.
pub fn same_text(a: &String, b: &str) -> (r: bool)
    ensures
        r == (a@ == b@),
{
    let x = crate::text::chars_of(a.as_str());
    let y = crate::text::chars_of(b);
    if x.len() != y.len() {
        return false;
    }
    let mut i: usize = 0;
    while i < x.len()
        invariant
            x@ == a@,
            y@ == b@,
            x@.len() == y@.len(),
            i <= x@.len(),
            forall|j: int| 0 <= j < i ==> x@[j] == y@[j],
        decreases x@.len() - i,
    {
        if x[i] != y[i] {
            return false;
        }
        i = i + 1;
    }
    assert(x@ =~= y@);
    true
}

/// Reads the text element whose opening token is under the cursor, then
/// moves past the token that stopped it.
pub fn read_text_child(tokens: &mut TokenCursor) -> (r: Element<String>)
    requires
        old(tokens).pos < old(tokens).tokens@.len(),
        cursor_tokens(old(tokens))[old(tokens).pos as int] is OpenNode,
    ensures
        ({
            let (e, end) = text_element_at(cursor_tokens(old(tokens)), old(tokens).pos as int);
            &&& text_element_view(&r) == e
            &&& final(tokens).pos == min_int(end + 1, old(tokens).tokens@.len() as int)
        }),
        final(tokens).pos > old(tokens).pos,
        final(tokens).tokens@ == old(tokens).tokens@,
{
    let ghost toks = cursor_tokens(tokens);
    let ghost p = tokens.pos as int;
    let t = tokens.next().unwrap();
    let e = Element::<String>::serialize(t, tokens);
    proof {
        lemma_text_walk_advances(toks, toks[p]->OpenNode_0, start_text_walk(p + 1));
        assert(attrs_view(e.attributes@) == text_element_at(toks, p).0.attrs);
    }
    tokens.next();
    e
}


/// Why a feed document could not be read.
#[derive(Clone, Copy, Debug, PartialEq, Eq, Structural)]
pub enum FeedError {
    /// No opening tag of the feed's root element.
    MissingRoot,
    /// The tokens end right after the root's opening tag.
    Truncated,
    /// The RSS root is not followed by a `channel` element.
    MissingChannel,
}

/// The index of the first `OpenNode(name)` at or after `from`, or the length.
pub open spec fn first_open(toks: Seq<Token>, name: Seq<char>, from: int) -> int
    decreases toks.len() - from,
{
    if from < 0 || from >= toks.len() {
        toks.len() as int
    } else if toks[from] == Token::OpenNode(name) {
        from
    } else {
        first_open(toks, name, from + 1)
    }
}

pub proof fn lemma_first_open_bounds(toks: Seq<Token>, name: Seq<char>, from: int)
    requires
        0 <= from,
    ensures
        from <= first_open(toks, name, from) || first_open(toks, name, from) == toks.len(),
        first_open(toks, name, from) <= toks.len(),
        first_open(toks, name, from) < toks.len() ==> toks[first_open(toks, name, from)]
            == Token::OpenNode(name),
    decreases toks.len() - from,
{
    if from < toks.len() && toks[from] != Token::OpenNode(name) {
        lemma_first_open_bounds(toks, name, from + 1);
    }
}

/// Moves the cursor past the first `OpenNode(name)` from where it stands;
/// returns whether there was one.
pub fn skip_past_open(tokens: &mut TokenCursor, name: &String) -> (found: bool)
    ensures
        ({
            let k = first_open(cursor_tokens(old(tokens)), name@, old(tokens).pos as int);
            &&& found == (k < old(tokens).tokens@.len())
            &&& found ==> final(tokens).pos == k + 1
        }),
        final(tokens).tokens@ == old(tokens).tokens@,
{
    let ghost toks = cursor_tokens(tokens);
    let ghost orig = tokens.tokens@;
    let ghost goal = first_open(toks, name@, tokens.pos as int);
    loop
        invariant
            toks == cursor_tokens(tokens),
            tokens.tokens@ == orig,
            orig == old(tokens).tokens@,
            goal == first_open(cursor_tokens(old(tokens)), name@, old(tokens).pos as int),
            first_open(toks, name@, tokens.pos as int) == goal,
        decreases toks.len() - tokens.pos,
    {
        let t = tokens.next();
        match t {
            None => {
                return false;
            },
            Some(t) => {
                if let Tokens::OpenNode(n) = t {
                    if n == *name {
                        return true;
                    }
                }
            },
        }
    }
}

/// The name/value pairs that lead at `pos`: each `ParameterName` and the
/// value after it, if one follows; and where they end.
pub open spec fn leading_pairs(toks: Seq<Token>, pos: int, pairs: Attrs) -> (Attrs, int)
    decreases toks.len() - pos,
{
    if 0 <= pos < toks.len() && toks[pos] is ParameterName {
        leading_pairs(
            toks,
            min_int(pos + 2, toks.len() as int),
            with_attribute(toks, pos, toks[pos]->ParameterName_0, pairs),
        )
    } else {
        (pairs, pos)
    }
}

/// Reads the name/value pairs that lead at the cursor.
pub fn read_leading_pairs(tokens: &mut TokenCursor) -> (r: Vec<(String, String)>)
    ensures
        ({
            let (pairs, end) = leading_pairs(cursor_tokens(old(tokens)), old(tokens).pos as int, Seq::empty());
            &&& attrs_view(r@) == pairs
            &&& final(tokens).pos == end
        }),
        final(tokens).tokens@ == old(tokens).tokens@,
{
    let ghost toks = cursor_tokens(tokens);
    let ghost orig = tokens.tokens@;
    let ghost goal = leading_pairs(toks, tokens.pos as int, Seq::empty());
    let mut pairs: Vec<(String, String)> = Vec::new();
    assert(attrs_view(pairs@) =~= Seq::empty());
    loop
        invariant
            toks == cursor_tokens(tokens),
            tokens.tokens@ == orig,
            leading_pairs(toks, tokens.pos as int, attrs_view(pairs@)) == goal,
        ensures
            goal == (attrs_view(pairs@), tokens.pos as int),
        decreases toks.len() - tokens.pos,
    {
        let name = match tokens.peek() {
            Some(Tokens::ParameterName(name)) => name.clone(),
            _ => {
                break ;
            },
        };
        let ghost before = pairs@;
        tokens.next();
        match tokens.next() {
            Some(Tokens::ParameterValue(value)) => {
                pairs.push((name, value));
                assert(attrs_view(pairs@) =~= attrs_view(before).push((name@, value@)));
            },
            _ => {},
        }
    }
    pairs
}


/// The tokens of a whole document.
pub open spec fn document_tokens(input: Seq<char>) -> Seq<Token> {
    tokenize_model(lex_units(input)).tokens
}

/// A string holding the characters of `s`.
pub fn string_of(s: &str) -> (r: String)
    ensures
        r@ == s@,
{
    let chars = crate::text::chars_of(s);
    let r = crate::text::string_from_range(&chars, 0, chars.len());
    assert(chars@.subrange(0, chars@.len() as int) =~= chars@);
    r
}

/// `Some(v)` for a list that is not empty.
pub fn kept<T>(v: Vec<T>) -> (r: Option<Vec<T>>)
    ensures
        v@.len() == 0 ==> r is None,
        v@.len() > 0 ==> r == Some(v),
{
    if v.len() == 0 {
        None
    } else {
        Some(v)
    }
}

pub open spec fn opt_pairs(o: &Option<Vec<(String, String)>>) -> Attrs {
    match o {
        Some(v) => attrs_view(v@),
        None => Seq::empty(),
    }
}

/// The tokens of `input`, behind a cursor.
pub fn document_cursor(input: &str) -> (r: TokenCursor)
    requires
        input@.len() < usize::MAX,
    ensures
        cursor_tokens(&r) == document_tokens(input@),
        r.pos == 0,
{
    // Both stages are total: their error arms are never taken.
    let lexed = match crate::lexer::lex(input) {
        Ok(l) => l,
        Err(_) => Vec::new(),
    };
    let tokens = match crate::tokenizer::tokenize(lexed.as_slice()) {
        Ok(t) => t,
        Err(_) => Vec::new(),
    };
    TokenCursor::new(tokens)
}

} // verus!
