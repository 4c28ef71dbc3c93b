//! Rendering the markup held in a feed's text (an item's description, an
//! entry's content) as plain lines.
use vstd::prelude::*;

use crate::elements::{cursor_tokens, document_cursor, document_tokens};
use crate::tags::{is_a, is_br, is_p, is_span, tag_a, tag_br, tag_p, tag_span};
use crate::text::{chars_of, push_char, string_from_range};
use crate::tokenizer::{string_views, Token, Tokens};

verus! {

/// `s` with every match of `from`, taken left to right without overlap,
/// replaced by `to`.
pub open spec fn replace_all(s: Seq<char>, from: Seq<char>, to: Seq<char>) -> Seq<char>
    decreases s.len(),
{
    if from.len() == 0 || s.len() < from.len() {
        s
    } else if s.subrange(0, from.len() as int) == from {
        to + replace_all(s.subrange(from.len() as int, s.len() as int), from, to)
    } else {
        seq![s[0]] + replace_all(s.drop_first(), from, to)
    }
}

/// The entities that feed text escapes, decoded; `&amp;` only in content.
pub open spec fn decoded(s: Seq<char>, is_content: bool) -> Seq<char> {
    let s0 = if is_content {
        replace_all(s, "&amp;"@, "&"@)
    } else {
        s
    };
    let s1 = replace_all(s0, "&#xA;"@, "\n"@);
    let s2 = replace_all(s1, "&lt;"@, "<"@);
    let s3 = replace_all(s2, "&gt;"@, ">"@);
    let s4 = replace_all(s3, "&apos;"@, "'"@);
    let s5 = replace_all(s4, "&#39;"@, "'"@);
    let s6 = replace_all(s5, "&quot;"@, "\""@);
    replace_all(s6, "&#34;"@, "\""@)
}

/// Whether `from` occurs in `s` at index `i`.
fn matches_at(s: &Vec<char>, i: usize, from: &Vec<char>) -> (r: bool)
    requires
        i + from@.len() <= s@.len(),
    ensures
        r == (s@.subrange(i as int, i + from@.len()) == from@),
{
    let n = s.len();
    let mut j: usize = 0;
    while j < from.len()
        invariant
            n == s@.len(),
            i + from@.len() <= s@.len(),
            j <= from@.len(),
            forall|k: int| 0 <= k < j ==> s@[i + k] == from@[k],
        decreases from@.len() - j,
    {
        if s[i + j] != from[j] {
            assert(s@.subrange(i as int, i + from@.len())[j as int] != from@[j as int]);
            return false;
        }
        j = j + 1;
    }
    assert(s@.subrange(i as int, i + from@.len()) =~= from@);
    true
}

/// Appends the characters of `tail` to `out`.
fn append_chars(out: &mut Vec<char>, tail: &Vec<char>)
    ensures
        final(out)@ == old(out)@ + tail@,
{
    let ghost start = out@;
    let mut k: usize = 0;
    while k < tail.len()
        invariant
            k <= tail@.len(),
            out@ == start + tail@.subrange(0, k as int),
        decreases tail@.len() - k,
    {
        out.push(tail[k]);
        assert(tail@.subrange(0, k + 1) =~= tail@.subrange(0, k as int).push(tail@[k as int]));
        k = k + 1;
    }
    assert(tail@.subrange(0, tail@.len() as int) =~= tail@);
}

/// `s` with every match of `from` replaced by `to`.
fn replace_chars(s: &Vec<char>, from: &Vec<char>, to: &Vec<char>) -> (r: Vec<char>)
    requires
        from@.len() > 0,
    ensures
        r@ == replace_all(s@, from@, to@),
{
    let n = s.len();
    let m = from.len();
    let mut out: Vec<char> = Vec::new();
    let mut i: usize = 0;
    assert(s@.subrange(0, n as int) =~= s@);
    assert(out@ + replace_all(s@, from@, to@) =~= replace_all(s@, from@, to@));
    while i < n
        invariant
            n == s@.len(),
            m == from@.len() > 0,
            i <= n,
            out@ + replace_all(s@.subrange(i as int, n as int), from@, to@) == replace_all(
                s@,
                from@,
                to@,
            ),
        decreases n - i,
    {
        let ghost rest = s@.subrange(i as int, n as int);
        let ghost before = out@;
        if n - i >= m && matches_at(s, i, from) {
            assert(rest.subrange(0, m as int) =~= s@.subrange(i as int, i + m));
            assert(rest.subrange(m as int, rest.len() as int) =~= s@.subrange(i + m, n as int));
            assert(replace_all(rest, from@, to@) == to@ + replace_all(
                rest.subrange(m as int, rest.len() as int),
                from@,
                to@,
            ));
            append_chars(&mut out, to);
            assert(before + (to@ + replace_all(s@.subrange(i + m, n as int), from@, to@)) =~= out@
                + replace_all(s@.subrange(i + m, n as int), from@, to@));
            i = i + m;
        } else {
            assert(rest.drop_first() =~= s@.subrange(i + 1, n as int));
            proof {
                if rest.len() < m {
                    assert(seq![rest[0]] + rest.drop_first() =~= rest);
                    assert(replace_all(rest.drop_first(), from@, to@) == rest.drop_first());
                } else {
                    assert(rest.subrange(0, m as int) =~= s@.subrange(i as int, i + m));
                }
            }
            assert(replace_all(rest, from@, to@) == seq![rest[0]] + replace_all(
                rest.drop_first(),
                from@,
                to@,
            ));
            out.push(s[i]);
            assert(before + (seq![rest[0]] + replace_all(rest.drop_first(), from@, to@)) =~= out@
                + replace_all(rest.drop_first(), from@, to@));
            i = i + 1;
        }
    }
    assert(s@.subrange(n as int, n as int) =~= Seq::<char>::empty());
    assert(out@ + Seq::<char>::empty() =~= out@);
    out
}

/// `s` with `from` replaced by `to`, where `from` is not empty.
fn replace_text(s: &Vec<char>, from: &str, to: &str) -> (r: Vec<char>)
    requires
        from@.len() > 0,
    ensures
        r@ == replace_all(s@, from@, to@),
{
    replace_chars(s, &chars_of(from), &chars_of(to))
}

/// Decodes the entities that feed text escapes; `&amp;` only where
/// `is_content`.
pub fn decode_entities(content: &str, is_content: bool) -> (r: String)
    ensures
        r@ == decoded(content@, is_content),
{
    proof {
        reveal_strlit("&amp;");
        reveal_strlit("&#xA;");
        reveal_strlit("&lt;");
        reveal_strlit("&gt;");
        reveal_strlit("&apos;");
        reveal_strlit("&#39;");
        reveal_strlit("&quot;");
        reveal_strlit("&#34;");
    }
    let mut out = chars_of(content);
    if is_content {
        out = replace_text(&out, "&amp;", "&");
    }
    out = replace_text(&out, "&#xA;", "\n");
    out = replace_text(&out, "&lt;", "<");
    out = replace_text(&out, "&gt;", ">");
    out = replace_text(&out, "&apos;", "'");
    out = replace_text(&out, "&#39;", "'");
    out = replace_text(&out, "&quot;", "\"");
    out = replace_text(&out, "&#34;", "\"");
    let r = string_from_range(&out, 0, out.len());
    assert(out@.subrange(0, out@.len() as int) =~= out@);
    r
}

/// The lines of `s`, split at each newline; `line` is what precedes `s` on its first line.
pub open spec fn split_from(s: Seq<char>, line: Seq<char>) -> Seq<Seq<char>>
    decreases s.len(),
{
    if s.len() == 0 {
        seq![line]
    } else if s[0] == '\n' {
        seq![line] + split_from(s.drop_first(), Seq::empty())
    } else {
        split_from(s.drop_first(), line.push(s[0]))
    }
}

/// The lines of `s`, as `str::split('\n')` gives them.
pub open spec fn split_lines(s: Seq<char>) -> Seq<Seq<char>> {
    split_from(s, Seq::empty())
}

/// Appends the lines of `s` to `lines`.
fn push_lines(lines: &mut Vec<String>, s: &String)
    ensures
        string_views(final(lines)@) == string_views(old(lines)@) + split_lines(s@),
{
    let chars = chars_of(s.as_str());
    let n = chars.len();
    let mut line = String::new();
    let mut i: usize = 0;
    let ghost start = string_views(lines@);
    assert(chars@.subrange(0, n as int) =~= chars@);
    while i < n
        invariant
            n == chars@.len(),
            chars@ == s@,
            i <= n,
            string_views(lines@) + split_from(chars@.subrange(i as int, n as int), line@) == start
                + split_lines(s@),
        decreases n - i,
    {
        let ghost rest = chars@.subrange(i as int, n as int);
        let ghost before = string_views(lines@);
        assert(rest.drop_first() =~= chars@.subrange(i + 1, n as int));
        if chars[i] == '\n' {
            let mut done = String::new();
            std::mem::swap(&mut done, &mut line);
            let ghost old_lines = lines@;
            lines.push(done);
            assert(string_views(lines@) =~= string_views(old_lines).push(done@));
            assert(before + (seq![done@] + split_from(rest.drop_first(), Seq::empty())) =~= string_views(lines@)
                + split_from(rest.drop_first(), Seq::empty()));
        } else {
            push_char(&mut line, chars[i]);
        }
        i = i + 1;
    }
    let ghost old_lines = lines@;
    let ghost last = line@;
    lines.push(line);
    proof {
        assert(chars@.subrange(n as int, n as int) =~= Seq::<char>::empty());
        assert(string_views(lines@) =~= string_views(old_lines).push(last));
    }
}


/// What the line renderer holds: the open element names, the text of the
/// current block, and the finished lines.
pub struct LinesState {
    pub open: Seq<Seq<char>>,
    pub text: Seq<char>,
    pub lines: Seq<Seq<char>>,
}

/// One token of content. `br` breaks the line; `a` outside a paragraph
/// starts a new line; `span` is transparent; closing the innermost open
/// element ends the block, whose decoded text becomes lines.
pub open spec fn lines_step(st: LinesState, t: Token) -> LinesState {
    match t {
        Token::OpenNode(n) => {
            if n == tag_br() {
                LinesState { text: st.text.push('\n'), ..st }
            } else {
                let text = if n == tag_a() && !st.open.contains(tag_p()) && st.text.len() > 0 {
                    st.text.push('\n')
                } else {
                    st.text
                };
                if n == tag_span() {
                    LinesState { text, ..st }
                } else {
                    LinesState { open: st.open.push(n), text, ..st }
                }
            }
        },
        Token::Text(t) => LinesState { text: st.text + t, ..st },
        Token::CloseNode(n) => {
            if st.open.len() > 0 && st.open.last() == n {
                LinesState {
                    open: st.open.drop_last(),
                    text: Seq::empty(),
                    lines: st.lines + split_lines(decoded(st.text, true)),
                }
            } else {
                st
            }
        },
        _ => st,
    }
}

pub open spec fn lines_from(tokens: Seq<Token>, i: int, st: LinesState) -> LinesState
    decreases tokens.len() - i,
{
    if 0 <= i < tokens.len() {
        lines_from(tokens, i + 1, lines_step(st, tokens[i]))
    } else {
        st
    }
}

/// The lines that `content` renders to.
pub open spec fn rendered_lines(content: Seq<char>) -> Seq<Seq<char>> {
    lines_from(
        document_tokens(content),
        0,
        LinesState { open: Seq::empty(), text: Seq::empty(), lines: Seq::empty() },
    ).lines
}

/// Appends the characters of `tail` to `s`.
fn append_text(s: &mut String, tail: &String)
    ensures
        final(s)@ == old(s)@ + tail@,
{
    let chars = chars_of(tail.as_str());
    let ghost start = s@;
    let mut k: usize = 0;
    while k < chars.len()
        invariant
            k <= chars@.len(),
            s@ == start + chars@.subrange(0, k as int),
        decreases chars@.len() - k,
    {
        push_char(s, chars[k]);
        assert(chars@.subrange(0, k + 1) =~= chars@.subrange(0, k as int).push(chars@[k as int]));
        k = k + 1;
    }
    assert(chars@.subrange(0, chars@.len() as int) =~= chars@);
}

/// Whether a paragraph is among the open names.
fn has_paragraph(open: &Vec<String>) -> (r: bool)
    ensures
        r == string_views(open@).contains(tag_p()),
{
    let mut i: usize = 0;
    while i < open.len()
        invariant
            i <= open@.len(),
            forall|j: int| 0 <= j < i ==> string_views(open@)[j] != tag_p(),
        decreases open@.len() - i,
    {
        if is_p(&open[i]) {
            assert(string_views(open@)[i as int] == tag_p());
            return true;
        }
        i = i + 1;
    }
    false
}

/// Renders the markup in `content` (an item's description, say) as plain lines.
pub fn content_lines(content: &str) -> (r: Vec<String>)
    requires
        content@.len() < usize::MAX,
    ensures
        string_views(r@) == rendered_lines(content@),
{
    let cursor = document_cursor(content);
    let ghost toks = cursor_tokens(&cursor);
    let tokens = &cursor.tokens;
    let mut open: Vec<String> = Vec::new();
    let mut text = String::new();
    let mut lines: Vec<String> = Vec::new();
    let ghost init = LinesState { open: Seq::empty(), text: Seq::empty(), lines: Seq::empty() };
    assert(string_views(open@) =~= Seq::empty());
    assert(string_views(lines@) =~= Seq::empty());
    let mut i: usize = 0;
    while i < tokens.len()
        invariant
            toks == crate::tokenizer::token_views(tokens@),
            i <= tokens@.len(),
            lines_from(
                toks,
                i as int,
                LinesState { open: string_views(open@), text: text@, lines: string_views(lines@) },
            ) == lines_from(toks, 0, init),
        decreases tokens@.len() - i,
    {
        let ghost st = LinesState {
            open: string_views(open@),
            text: text@,
            lines: string_views(lines@),
        };
        match &tokens[i] {
            Tokens::OpenNode(n) => {
                if is_br(n) {
                    push_char(&mut text, '\n');
                } else {
                    if is_a(n) && !has_paragraph(&open) && !text.as_str().is_empty() {
                        push_char(&mut text, '\n');
                    }
                    if !is_span(n) {
                        let ghost before = open@;
                        open.push(n.clone());
                        assert(string_views(open@) =~= string_views(before).push(n@));
                    }
                }
            },
            Tokens::Text(t) => {
                append_text(&mut text, t);
            },
            Tokens::CloseNode(n) => {
                if open.len() > 0 && open[open.len() - 1] == *n {
                    let ghost before = open@;
                    open.pop();
                    assert(string_views(open@) =~= string_views(before).drop_last());
                    let decoded_text = decode_entities(text.as_str(), true);
                    push_lines(&mut lines, &decoded_text);
                    text = String::new();
                }
            },
            _ => {},
        }
        assert(lines_step(st, toks[i as int]) == (LinesState {
            open: string_views(open@),
            text: text@,
            lines: string_views(lines@),
        }));
        i = i + 1;
    }
    lines
}

} // verus!
