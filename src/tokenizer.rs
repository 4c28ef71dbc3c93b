//! The second stage: lexical units to span-free structural tokens.
//!
//! As for the lexer, the behaviour is a state machine (`tok_step`, run by
//! `tok_from`), and `tokenize` is proved to produce exactly its tokens.
use vstd::prelude::*;

use crate::lexer::{unit_views, LexUnit, Lexicals};
use crate::text::{push_char, trim, trimmed};

verus! {

/// A structural token.
#[derive(Clone, Debug, PartialEq)]
pub enum Tokens {
    /// A one-shot declarative node, such as the xml version line.
    SimpleNode(String),
    OpenNode(String),
    ParameterName(String),
    ParameterValue(String),
    CloseNode(String),
    Text(String),
}

/// A tree shape for consumers that assemble nodes from tokens.
#[derive(Debug)]
pub enum Ast {
    /// Takes an element node.
    DescriptorNode(Box<Tokens>),
    /// A name, a series of attributes, and any child nodes.
    ElementNode(String, Vec<Box<Tokens>>, Vec<Box<Tokens>>),
    /// An attribute name and its text node.
    Attribute(String, Box<Tokens>),
    TextNode(String),
}

/// Failures of the tokenizer. The tokenizer is total: no input produces one.
#[derive(Clone, Copy, Debug, PartialEq, Eq, Structural)]
pub enum TokenizeError {
    UnmatchedClose,
    StackUnderflow,
    NameMismatch,
}

/// The mathematical value of a token.
pub enum Token {
    SimpleNode(Seq<char>),
    OpenNode(Seq<char>),
    ParameterName(Seq<char>),
    ParameterValue(Seq<char>),
    CloseNode(Seq<char>),
    Text(Seq<char>),
}

impl View for Tokens {
    type V = Token;

    open spec fn view(&self) -> Token {
        match self {
            Tokens::SimpleNode(s) => Token::SimpleNode(s@),
            Tokens::OpenNode(s) => Token::OpenNode(s@),
            Tokens::ParameterName(s) => Token::ParameterName(s@),
            Tokens::ParameterValue(s) => Token::ParameterValue(s@),
            Tokens::CloseNode(s) => Token::CloseNode(s@),
            Tokens::Text(s) => Token::Text(s@),
        }
    }
}

pub open spec fn token_views(v: Seq<Tokens>) -> Seq<Token> {
    v.map_values(|t: Tokens| t@)
}

pub open spec fn string_views(v: Seq<String>) -> Seq<Seq<char>> {
    v.map_values(|s: String| s@)
}

/// The value given to an attribute written without one.
pub open spec fn true_text() -> Seq<char> {
    seq!['t', 'r', 'u', 'e']
}

/// The tokenizer's modes, its stack of open node names, and the name of the
/// node whose tag is being read.
pub struct TokState {
    pub in_simple: bool,
    pub in_node: bool,
    pub in_close: bool,
    pub param_value: bool,
    pub stack: Seq<Seq<char>>,
    pub current: Seq<char>,
}

pub open spec fn initial_tok_state() -> TokState {
    TokState {
        in_simple: false,
        in_node: false,
        in_close: false,
        param_value: false,
        stack: Seq::empty(),
        current: Seq::empty(),
    }
}

pub struct TokStep {
    pub state: TokState,
    pub out: Seq<Token>,
    pub next: int,
}

pub open spec fn tok_to(state: TokState, out: Seq<Token>, next: int) -> TokStep {
    TokStep { state, out, next }
}

pub open spec fn next_is_equals(units: Seq<LexUnit>, i: int) -> bool {
    i + 1 < units.len() && units[i + 1] is Equals
}

/// A text unit read inside a tag (`simple` for a declaration): a parameter
/// name before `=`, a value after one, a bare attribute when the node has
/// already been named, and otherwise the node's own name.
pub open spec fn text_in_tag(
    units: Seq<LexUnit>,
    i: int,
    st: TokState,
    tr: Seq<char>,
    simple: bool,
) -> TokStep {
    if next_is_equals(units, i) {
        tok_to(st, seq![Token::ParameterName(tr)], i + 1)
    } else if st.param_value {
        tok_to(TokState { param_value: false, ..st }, seq![Token::ParameterValue(tr)], i + 1)
    } else if st.stack.len() > 0 && st.stack.last() == st.current && st.stack.last() != tr {
        tok_to(st, seq![Token::ParameterName(tr), Token::ParameterValue(true_text())], i + 1)
    } else {
        tok_to(
            TokState { stack: st.stack.push(tr), current: tr, ..st },
            seq![
                if simple {
                    Token::SimpleNode(tr)
                } else {
                    Token::OpenNode(tr)
                },
            ],
            i + 1,
        )
    }
}

/// A text unit, trimmed to `tr`, read in state `st`.
pub open spec fn text_step(units: Seq<LexUnit>, i: int, st: TokState, tr: Seq<char>) -> TokStep {
    if st.in_node {
        text_in_tag(units, i, st, tr, false)
    } else if st.in_close {
        if st.stack.len() > 0 {
            tok_to(
                TokState { stack: st.stack.drop_last(), current: st.stack.last(), ..st },
                seq![Token::CloseNode(tr)],
                i + 1,
            )
        } else {
            tok_to(TokState { current: Seq::empty(), ..st }, Seq::empty(), i + 1)
        }
    } else if st.in_simple {
        text_in_tag(units, i, st, tr, true)
    } else if tr.len() > 0 {
        tok_to(st, seq![Token::Text(tr)], i + 1)
    } else {
        tok_to(st, Seq::empty(), i + 1)
    }
}

/// `/` inside a tag closes the node it opened; elsewhere it starts a closing tag.
pub open spec fn slash_step(i: int, st: TokState) -> TokStep {
    if st.in_node {
        if st.stack.len() > 0 {
            tok_to(
                TokState {
                    in_node: false,
                    stack: st.stack.drop_last(),
                    current: st.stack.last(),
                    ..st
                },
                seq![Token::CloseNode(st.stack.last())],
                i + 1,
            )
        } else {
            tok_to(TokState { in_node: false, current: Seq::empty(), ..st }, Seq::empty(), i + 1)
        }
    } else {
        tok_to(TokState { in_close: true, ..st }, Seq::empty(), i + 1)
    }
}

/// One step of the tokenizer on the unit at index `i`.
pub open spec fn tok_step(units: Seq<LexUnit>, i: int, st: TokState) -> TokStep {
    let has_next = i + 1 < units.len();
    match units[i] {
        LexUnit::OpenArrow(_) => {
            if has_next && units[i + 1] is Question {
                tok_to(TokState { in_simple: true, ..st }, Seq::empty(), i + 1)
            } else if has_next && !(units[i + 1] is CloseFSlash) {
                tok_to(TokState { in_node: true, ..st }, Seq::empty(), i + 1)
            } else {
                tok_to(st, Seq::empty(), i + 1)
            }
        },
        LexUnit::CloseArrow(_) => tok_to(
            TokState {
                current: Seq::empty(),
                in_close: false,
                in_node: false,
                in_simple: false,
                ..st
            },
            Seq::empty(),
            i + 1,
        ),
        LexUnit::ImmediateClose(_) => tok_to(
            TokState {
                in_simple: false,
                stack: if st.stack.len() > 0 {
                    st.stack.drop_last()
                } else {
                    st.stack
                },
                ..st
            },
            Seq::empty(),
            i + 1,
        ),
        LexUnit::CloseFSlash(_) => slash_step(i, st),
        LexUnit::RightSquareBracket(_) => {
            if has_next && units[i + 1] is CloseArrow {
                tok_to(st, Seq::empty(), i + 2)
            } else {
                tok_to(st, Seq::empty(), i + 1)
            }
        },
        LexUnit::Bang(_) => {
            let s1 = if has_next && units[i + 1] is LeftSquareBracket {
                st
            } else {
                TokState { in_simple: true, ..st }
            };
            if s1.in_node {
                tok_to(TokState { in_node: false, current: Seq::empty(), ..s1 }, Seq::empty(), i + 1)
            } else {
                tok_to(s1, Seq::empty(), i + 1)
            }
        },
        LexUnit::Equals(_) => {
            if st.in_node || st.in_simple {
                tok_to(TokState { param_value: true, ..st }, Seq::empty(), i + 1)
            } else {
                tok_to(st, Seq::empty(), i + 1)
            }
        },
        LexUnit::Text(t, _) => text_step(units, i, st, trim(t)),
        _ => tok_to(st, Seq::empty(), i + 1),
    }
}

/// The tokens of a run and the state it ends in.
pub struct TokRun {
    pub tokens: Seq<Token>,
    pub state: TokState,
}

/// The run from index `i` on, starting in state `st`.
pub open spec fn tok_from(units: Seq<LexUnit>, i: int, st: TokState) -> TokRun
    decreases units.len() - i,
{
    if i < 0 || i >= units.len() {
        TokRun { tokens: Seq::empty(), state: st }
    } else {
        let step = tok_step(units, i, st);
        if step.next <= i {
            TokRun { tokens: Seq::empty(), state: st }
        } else {
            let rest = tok_from(units, step.next, step.state);
            TokRun { tokens: step.out + rest.tokens, state: rest.state }
        }
    }
}

/// The run of the tokenizer over the whole of `units`.
pub open spec fn tokenize_model(units: Seq<LexUnit>) -> TokRun {
    tok_from(units, 0, initial_tok_state())
}

/// The literal `true`, built character by character.
fn true_string() -> (r: String)
    ensures
        r@ == true_text(),
{
    let mut r = String::new();
    push_char(&mut r, 't');
    push_char(&mut r, 'r');
    push_char(&mut r, 'u');
    push_char(&mut r, 'e');
    assert(r@ =~= true_text());
    r
}

proof fn lemma_token_views_push(v: Seq<Tokens>, t: Tokens)
    ensures
        token_views(v.push(t)) == token_views(v).push(t@),
{
    assert(token_views(v.push(t)) =~= token_views(v).push(t@));
}

proof fn lemma_string_views_push(v: Seq<String>, s: String)
    ensures
        string_views(v.push(s)) == string_views(v).push(s@),
{
    assert(string_views(v.push(s)) =~= string_views(v).push(s@));
}

proof fn lemma_string_views_drop_last(v: Seq<String>)
    requires
        v.len() > 0,
    ensures
        string_views(v.drop_last()) == string_views(v).drop_last(),
        string_views(v).last() == v.last()@,
{
    assert(string_views(v.drop_last()) =~= string_views(v).drop_last());
}

/// The tokenizer's modes, its stack of open node names and the current node.
struct TokCursor {
    in_simple: bool,
    in_node: bool,
    in_close: bool,
    param_value: bool,
    stack: Vec<String>,
    current: String,
}

impl TokCursor {
    spec fn model(&self) -> TokState {
        TokState {
            in_simple: self.in_simple,
            in_node: self.in_node,
            in_close: self.in_close,
            param_value: self.param_value,
            stack: string_views(self.stack@),
            current: self.current@,
        }
    }

    fn emit(out: &mut Vec<Tokens>, t: Tokens)
        ensures
            token_views(final(out)@) == token_views(old(out)@).push(t@),
    {
        let ghost before = out@;
        out.push(t);
        proof {
            lemma_token_views_push(before, t);
        }
    }

    /// Pops the innermost open node name, if there is one.
    fn pop_name(&mut self) -> (r: Option<String>)
        ensures
            old(self).model().stack.len() > 0 ==> {
                &&& r matches Some(name) && name@ == old(self).model().stack.last()
                &&& final(self).model() == (TokState {
                    stack: old(self).model().stack.drop_last(),
                    ..old(self).model()
                })
            },
            old(self).model().stack.len() == 0 ==> r is None && final(self).model() == old(self).model(),
    {
        let ghost before = self.stack@;
        let r = self.stack.pop();
        proof {
            if before.len() > 0 {
                lemma_string_views_drop_last(before);
                assert(self.stack@ == before.drop_last());
            }
        }
        r
    }

    fn text_in_tag(
        &mut self,
        lexed: &[Lexicals],
        i: usize,
        tr: String,
        simple: bool,
        out: &mut Vec<Tokens>,
    )
        requires
            i < lexed@.len(),
        ensures
            ({
                let st = text_in_tag(unit_views(lexed@), i as int, old(self).model(), tr@, simple);
                &&& final(self).model() == st.state
                &&& token_views(final(out)@) == token_views(old(out)@) + st.out
            }),
    {
        let ghost units = unit_views(lexed@);
        let ghost before = token_views(out@);
        let next_eq = lexed.len() - i > 1 && matches!(lexed[i + 1], Lexicals::Equals(_));
        assert(next_eq == next_is_equals(units, i as int));
        if next_eq {
            Self::emit(out, Tokens::ParameterName(tr));
            assert(token_views(out@) =~= before + seq![Token::ParameterName(tr@)]);
        } else if self.param_value {
            self.param_value = false;
            Self::emit(out, Tokens::ParameterValue(tr));
            assert(token_views(out@) =~= before + seq![Token::ParameterValue(tr@)]);
        } else if self.stack.len() > 0 && self.stack[self.stack.len() - 1] == self.current
            && self.stack[self.stack.len() - 1] != tr {
            proof {
                lemma_string_views_drop_last(self.stack@);
            }
            Self::emit(out, Tokens::ParameterName(tr));
            Self::emit(out, Tokens::ParameterValue(true_string()));
            assert(token_views(out@) =~= before + seq![
                Token::ParameterName(tr@),
                Token::ParameterValue(true_text()),
            ]);
        } else {
            proof {
                if self.stack@.len() > 0 {
                    lemma_string_views_drop_last(self.stack@);
                }
                lemma_string_views_push(self.stack@, tr);
            }
            self.stack.push(tr.clone());
            self.current = tr.clone();
            let t = if simple {
                Tokens::SimpleNode(tr)
            } else {
                Tokens::OpenNode(tr)
            };
            Self::emit(out, t);
            assert(token_views(out@) =~= before + seq![t@]);
        }
    }

    fn text(&mut self, lexed: &[Lexicals], i: usize, t: &String, out: &mut Vec<Tokens>)
        requires
            i < lexed@.len(),
        ensures
            ({
                let st = text_step(unit_views(lexed@), i as int, old(self).model(), trim(t@));
                &&& final(self).model() == st.state
                &&& token_views(final(out)@) == token_views(old(out)@) + st.out
            }),
    {
        let ghost before = token_views(out@);
        let tr = trimmed(t);
        if self.in_node {
            self.text_in_tag(lexed, i, tr, false, out);
        } else if self.in_close {
            match self.pop_name() {
                Some(name) => {
                    self.current = name;
                    Self::emit(out, Tokens::CloseNode(tr));
                    assert(token_views(out@) =~= before + seq![Token::CloseNode(tr@)]);
                },
                None => {
                    self.current = String::new();
                    assert(token_views(out@) =~= before + Seq::<Token>::empty());
                },
            }
        } else if self.in_simple {
            self.text_in_tag(lexed, i, tr, true, out);
        } else if !tr.as_str().is_empty() {
            Self::emit(out, Tokens::Text(tr));
            assert(token_views(out@) =~= before + seq![Token::Text(tr@)]);
        } else {
            assert(token_views(out@) =~= before + Seq::<Token>::empty());
        }
    }

    fn slash(&mut self, out: &mut Vec<Tokens>)
        ensures
            ({
                let st = slash_step(0, old(self).model());
                &&& final(self).model() == st.state
                &&& token_views(final(out)@) == token_views(old(out)@) + st.out
            }),
    {
        let ghost before = token_views(out@);
        if self.in_node {
            self.in_node = false;
            match self.pop_name() {
                Some(name) => {
                    self.current = name.clone();
                    Self::emit(out, Tokens::CloseNode(name));
                    assert(token_views(out@) =~= before + seq![Token::CloseNode(name@)]);
                },
                None => {
                    self.current = String::new();
                    assert(token_views(out@) =~= before + Seq::<Token>::empty());
                },
            }
        } else {
            self.in_close = true;
            assert(token_views(out@) =~= before + Seq::<Token>::empty());
        }
    }

    /// One step on the unit at index `i`; returns the index of the next unit to read.
    fn step(&mut self, lexed: &[Lexicals], i: usize, out: &mut Vec<Tokens>) -> (next: usize)
        requires
            i < lexed@.len(),
        ensures
            ({
                let st = tok_step(unit_views(lexed@), i as int, old(self).model());
                &&& final(self).model() == st.state
                &&& next == st.next
                &&& token_views(final(out)@) == token_views(old(out)@) + st.out
            }),
            i < next <= lexed@.len(),
    {
        let ghost units = unit_views(lexed@);
        let ghost before = token_views(out@);
        let has_next = lexed.len() - i > 1;
        match &lexed[i] {
            Lexicals::OpenArrow(_) => {
                if has_next && matches!(lexed[i + 1], Lexicals::Question(_)) {
                    self.in_simple = true;
                } else if has_next && !matches!(lexed[i + 1], Lexicals::CloseFSlash(_)) {
                    self.in_node = true;
                }
                assert(token_views(out@) =~= before + Seq::<Token>::empty());
                i + 1
            },
            Lexicals::CloseArrow(_) => {
                self.current = String::new();
                self.in_close = false;
                self.in_node = false;
                self.in_simple = false;
                assert(token_views(out@) =~= before + Seq::<Token>::empty());
                i + 1
            },
            Lexicals::ImmediateClose(_) => {
                self.in_simple = false;
                let _ = self.pop_name();
                assert(token_views(out@) =~= before + Seq::<Token>::empty());
                i + 1
            },
            Lexicals::CloseFSlash(_) => {
                self.slash(out);
                i + 1
            },
            Lexicals::RightSquareBracket(_) => {
                assert(token_views(out@) =~= before + Seq::<Token>::empty());
                if has_next && matches!(lexed[i + 1], Lexicals::CloseArrow(_)) {
                    i + 2
                } else {
                    i + 1
                }
            },
            Lexicals::Bang(_) => {
                if !(has_next && matches!(lexed[i + 1], Lexicals::LeftSquareBracket(_))) {
                    self.in_simple = true;
                }
                if self.in_node {
                    self.in_node = false;
                    self.current = String::new();
                }
                assert(token_views(out@) =~= before + Seq::<Token>::empty());
                i + 1
            },
            Lexicals::Equals(_) => {
                if self.in_node || self.in_simple {
                    self.param_value = true;
                }
                assert(token_views(out@) =~= before + Seq::<Token>::empty());
                i + 1
            },
            Lexicals::Text(t, _) => {
                self.text(lexed, i, t, out);
                i + 1
            },
            _ => {
                assert(token_views(out@) =~= before + Seq::<Token>::empty());
                i + 1
            },
        }
    }
}

/// Tokenizes `lexed` and also returns the names still open at the end, innermost last.
pub fn tokenize_with_open_nodes(lexed: &[Lexicals]) -> (r: (Vec<Tokens>, Vec<String>))
    ensures
        token_views(r.0@) == tokenize_model(unit_views(lexed@)).tokens,
        string_views(r.1@) == tokenize_model(unit_views(lexed@)).state.stack,
{
    let ghost units = unit_views(lexed@);
    let n = lexed.len();
    let mut cur = TokCursor {
        in_simple: false,
        in_node: false,
        in_close: false,
        param_value: false,
        stack: Vec::new(),
        current: String::new(),
    };
    let mut out: Vec<Tokens> = Vec::new();
    let mut i: usize = 0;
    assert(string_views(cur.stack@) =~= Seq::empty());
    assert(cur.model() == initial_tok_state());
    assert(token_views(out@) + tokenize_model(units).tokens =~= tokenize_model(units).tokens);
    while i < n
        invariant
            n == lexed@.len(),
            units == unit_views(lexed@),
            i <= n,
            token_views(out@) + tok_from(units, i as int, cur.model()).tokens == tokenize_model(
                units,
            ).tokens,
            tok_from(units, i as int, cur.model()).state == tokenize_model(units).state,
        decreases n - i,
    {
        let ghost st = cur.model();
        let ghost step = tok_step(units, i as int, st);
        let ghost before = token_views(out@);
        let next = cur.step(lexed, i, &mut out);
        proof {
            let rest = tok_from(units, step.next, step.state);
            assert(tok_from(units, i as int, st).tokens == step.out + rest.tokens);
            assert(before + (step.out + rest.tokens) =~= (before + step.out) + rest.tokens);
        }
        i = next;
    }
    proof {
        assert(token_views(out@) + tok_from(units, i as int, cur.model()).tokens =~= token_views(
            out@,
        ));
    }
    (out, cur.stack)
}

/// Turns lexical units into structural tokens, with one unit of lookahead.
pub fn tokenize(lexed: &[Lexicals]) -> (r: Result<Vec<Tokens>, TokenizeError>)
    ensures
        r matches Ok(tokens) && token_views(tokens@) == tokenize_model(unit_views(lexed@)).tokens,
{
    let (tokens, _) = tokenize_with_open_nodes(lexed);
    Ok(tokens)
}

} // verus!
