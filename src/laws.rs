//! Properties of the two stages, proved over their models.
use vstd::prelude::*;

use crate::lexer::{
    accumulate, column_at, flush_out, initial_lex_state, lemma_position_bounds, lex_from,
    lex_model, lex_step, lex_units, row_at, span_of, LexState, LexUnit, Placed,
};
use crate::text::{is_white_space, trim, trim_start};
use crate::tokenizer::{
    initial_tok_state, text_in_tag, tok_from, tok_step, tokenize_model, true_text, Token,
    TokState,
};

verus! {

/// The number of characters a placed unit covers.
pub open spec fn extent(p: Placed) -> int {
    p.unit.span().length as int
}

pub open spec fn end_of(p: Placed) -> int {
    p.start + extent(p)
}

/// `b` follows `a` in the source, or `b` is a text run that began before `a`
/// and was still pending when `a` was emitted.
pub open spec fn pair_ok(a: Placed, b: Placed) -> bool {
    ||| b.start >= end_of(a)
    ||| (b.unit is Text && b.start < a.start)
}

/// Each unit's span gives the row and column of its first character.
pub open spec fn placed_at(chars: Seq<char>, p: Placed) -> bool {
    &&& 0 <= p.start < chars.len()
    &&& 1 <= extent(p)
    &&& p.unit.span().row == row_at(chars, p.start) as usize
    &&& p.unit.span().column == column_at(chars, p.start) as usize
}

/// `s` is ordered as `pair_ok` says, placed as `placed_at` says, and follows `prev`.
pub open spec fn chain_ok(chars: Seq<char>, prev: Option<Placed>, s: Seq<Placed>) -> bool {
    &&& forall|k: int| 0 <= k < s.len() ==> placed_at(chars, #[trigger] s[k])
    &&& forall|k: int| 0 <= k < s.len() - 1 ==> pair_ok(#[trigger] s[k], s[k + 1])
    &&& (prev matches Some(p) ==> (s.len() > 0 ==> pair_ok(p, s[0])))
}

/// What holds of the lexer's state before index `i`, after it emitted `prev` last.
pub open spec fn run_inv(chars: Seq<char>, i: int, st: LexState, prev: Option<Placed>) -> bool {
    &&& chars.len() < usize::MAX
    &&& 0 <= i <= chars.len()
    &&& 0 <= st.text_start
    &&& st.text_end <= i
    &&& (st.pending.len() > 0 ==> st.text_start < st.text_end)
    &&& (prev matches Some(p) ==> end_of(p) <= i)
    &&& (prev matches Some(p) ==> (st.pending.len() > 0 ==> (end_of(p) <= st.text_start
        || st.text_start < p.start)))
}

pub open spec fn last_of(prev: Option<Placed>, s: Seq<Placed>) -> Option<Placed> {
    if s.len() > 0 {
        Some(s.last())
    } else {
        prev
    }
}

proof fn lemma_chain_concat(chars: Seq<char>, prev: Option<Placed>, a: Seq<Placed>, b: Seq<Placed>)
    requires
        chain_ok(chars, prev, a),
        chain_ok(chars, last_of(prev, a), b),
    ensures
        chain_ok(chars, prev, a + b),
{
    let s = a + b;
    assert forall|k: int| 0 <= k < s.len() implies placed_at(chars, #[trigger] s[k]) by {
        if k >= a.len() {
            assert(s[k] == b[k - a.len()]);
        }
    }
    assert forall|k: int| 0 <= k < s.len() - 1 implies pair_ok(#[trigger] s[k], s[k + 1]) by {
        if k + 1 < a.len() {
        } else if k + 1 == a.len() {
            assert(s[k] == a.last());
            assert(s[k + 1] == b[0]);
        } else {
            assert(s[k] == b[k - a.len()]);
            assert(s[k + 1] == b[k + 1 - a.len()]);
        }
    }
}

proof fn lemma_span_fits(chars: Seq<char>, i: int, len: int)
    requires
        chars.len() < usize::MAX,
        0 <= i < chars.len(),
        1 <= len <= chars.len(),
    ensures
        span_of(chars, i, len).row as int == row_at(chars, i),
        span_of(chars, i, len).column as int == column_at(chars, i),
        span_of(chars, i, len).length as int == len,
{
    lemma_position_bounds(chars, i);
}

/// One step keeps the run's invariant and emits units that chain on.
#[verifier::spinoff_prover]
#[verifier::rlimit(100)]
proof fn lemma_step_ordered(chars: Seq<char>, i: int, st: LexState, prev: Option<Placed>)
    requires
        run_inv(chars, i, st, prev),
        i < chars.len(),
    ensures
        ({
            let step = lex_step(chars, i, st);
            &&& chain_ok(chars, prev, step.out)
            &&& run_inv(chars, step.next, step.state, last_of(prev, step.out))
            &&& i < step.next
        }),
{
    let step = lex_step(chars, i, st);
    let c = chars[i];
    lemma_span_fits(chars, i, 1);
    if i + 1 < chars.len() {
        lemma_span_fits(chars, i + 1, 1);
        lemma_span_fits(chars, i, 2);
    }
    if st.pending.len() > 0 {
        lemma_span_fits(chars, st.text_start, i - st.text_start);
    }
    if c == '<' {
        let s1 = LexState {
            in_tag: true,
            in_decl: st.in_decl || (i + 1 < chars.len() && chars[i + 1] == '?'),
            naming: true,
            ..st
        };
        assert(flush_out(chars, s1, i) == flush_out(chars, st, i));
    } else if c == '"' {
        let s1 = LexState { in_quote: !st.in_quote, ..st };
        assert(flush_out(chars, s1, i) == flush_out(chars, st, i));
    } else if c == '[' || c == ']' {
        let left = c == '[';
        let s1 = if left && st.in_tag {
            LexState { in_tag: false, in_bracket: true, ..st }
        } else if !left && st.in_bracket {
            LexState { in_bracket: false, in_tag: true, ..st }
        } else {
            st
        };
        assert(flush_out(chars, s1, i) == flush_out(chars, st, i));
    }
}

proof fn lemma_run_ordered(chars: Seq<char>, i: int, st: LexState, prev: Option<Placed>)
    requires
        run_inv(chars, i, st, prev),
    ensures
        chain_ok(chars, prev, lex_from(chars, i, st)),
    decreases chars.len() - i,
{
    if i < chars.len() {
        let step = lex_step(chars, i, st);
        lemma_step_ordered(chars, i, st, prev);
        lemma_run_ordered(chars, step.next, step.state, last_of(prev, step.out));
        lemma_chain_concat(chars, prev, step.out, lex_from(chars, step.next, step.state));
    }
}

/// On one row, columns advance with the characters.
pub proof fn lemma_same_row_columns(chars: Seq<char>, a: int, b: int)
    requires
        0 <= a <= b,
        row_at(chars, a) == row_at(chars, b),
    ensures
        column_at(chars, b) == column_at(chars, a) + (b - a),
        forall|j: int| a <= j < b ==> chars[j] != '\n',
    decreases b - a,
{
    if a < b {
        lemma_row_monotone(chars, a, b - 1);
        assert(row_at(chars, b - 1) <= row_at(chars, b));
        if chars[b - 1] == '\n' {
            assert(row_at(chars, b) == row_at(chars, b - 1) + 1);
        }
        lemma_same_row_columns(chars, a, b - 1);
    }
}

pub proof fn lemma_row_monotone(chars: Seq<char>, a: int, b: int)
    requires
        0 <= a <= b,
    ensures
        row_at(chars, a) <= row_at(chars, b),
    decreases b - a,
{
    if a < b {
        lemma_row_monotone(chars, a, b - 1);
    }
}

/// Consecutive lexical units on one row do not overlap: the second begins at
/// or after the column where the first ends. The one exception is a text run
/// that was still pending when a marker inside it was emitted (`a>b<c>`,
/// where the `>` stands outside a tag, or a `!` or `?` within a name): that
/// run is emitted after the marker but begins before it, and so at a
/// smaller column.
pub proof fn lemma_spans_do_not_overlap(chars: Seq<char>, k: int)
    requires
        chars.len() < usize::MAX,
        0 <= k,
        k + 1 < lex_units(chars).len(),
    ensures
        ({
            let a = lex_units(chars)[k];
            let b = lex_units(chars)[k + 1];
            a.span().row == b.span().row ==> {
                ||| b.span().column >= a.span().column + a.span().length
                ||| (b is Text && b.span().column < a.span().column)
            }
        }),
{
    let m = lex_model(chars);
    lemma_run_ordered(chars, 0, initial_lex_state(), None);
    assert(placed_at(chars, m[k]));
    assert(placed_at(chars, m[k + 1]));
    assert(pair_ok(m[k], m[k + 1]));
    let a = m[k];
    let b = m[k + 1];
    lemma_position_bounds(chars, a.start);
    lemma_position_bounds(chars, b.start);
    if a.unit.span().row == b.unit.span().row {
        if a.start <= b.start {
            lemma_same_row_columns(chars, a.start, b.start);
        } else {
            lemma_same_row_columns(chars, b.start, a.start);
        }
    }
}


/// No text run is emitted after a marker that stands inside it on its row:
/// no `!`, `?`, or (outside markup) `"` or `>` falls within a pending run of
/// text on the run's own row.
pub open spec fn text_runs_uninterrupted(chars: Seq<char>) -> bool {
    let m = lex_model(chars);
    forall|k: int|
        0 <= k < m.len() - 1 && (#[trigger] m[k + 1]).unit.span().row == m[k].unit.span().row
            ==> !(m[k + 1].unit is Text && m[k + 1].start < m[k].start)
}

/// Span non-overlap: on input whose text runs are not interrupted on their
/// own row, each lexical unit begins at or after the column where the one
/// before it on the same row ends.
pub proof fn lemma_spans_do_not_overlap_uninterrupted(chars: Seq<char>, k: int)
    requires
        chars.len() < usize::MAX,
        text_runs_uninterrupted(chars),
        0 <= k,
        k + 1 < lex_units(chars).len(),
    ensures
        ({
            let a = lex_units(chars)[k].span();
            let b = lex_units(chars)[k + 1].span();
            a.row == b.row ==> b.column >= a.column + a.length
        }),
{
    let m = lex_model(chars);
    lemma_spans_do_not_overlap(chars, k);
    lemma_run_ordered(chars, 0, initial_lex_state(), None);
    assert(placed_at(chars, m[k]));
    assert(placed_at(chars, m[k + 1]));
    lemma_position_bounds(chars, m[k].start);
    lemma_position_bounds(chars, m[k + 1].start);
    if m[k].unit.span().row == m[k + 1].unit.span().row {
        assert(!(m[k + 1].unit is Text && m[k + 1].start < m[k].start));
        if m[k].start <= m[k + 1].start {
            lemma_same_row_columns(chars, m[k].start, m[k + 1].start);
        }
    }
}

/// Without a newline in `chars[a..b]`, rows stay put and columns count on.
proof fn lemma_no_newline_between(chars: Seq<char>, a: int, b: int)
    requires
        0 <= a <= b,
        forall|j: int| a <= j < b ==> chars[j] != '\n',
    ensures
        row_at(chars, b) == row_at(chars, a),
        column_at(chars, b) == column_at(chars, a) + (b - a),
    decreases b - a,
{
    if a < b {
        lemma_no_newline_between(chars, a, b - 1);
    }
}

/// The number of newlines in `chars[..i]`.
pub open spec fn newlines_before(chars: Seq<char>, i: int) -> nat
    decreases i,
{
    if i <= 0 {
        0
    } else {
        newlines_before(chars, i - 1) + if chars[i - 1] == '\n' {
            1nat
        } else {
            0nat
        }
    }
}

proof fn lemma_row_counts_newlines(chars: Seq<char>, i: int)
    ensures
        row_at(chars, i) == 1 + newlines_before(chars, i),
    decreases i,
{
    if i > 0 {
        lemma_row_counts_newlines(chars, i - 1);
    }
}

/// Where every unit stands: its row is one more than the newlines before its
/// first character, and its column counts from the last newline before that
/// character (index `j`), or from the start of the input as if a newline
/// stood at index -1.
pub proof fn lemma_unit_position(chars: Seq<char>, k: int)
    requires
        chars.len() < usize::MAX,
        0 <= k < lex_model(chars).len(),
    ensures
        ({
            let s = lex_model(chars)[k].start;
            let span = lex_units(chars)[k].span();
            &&& 0 <= s < chars.len()
            &&& span.row == 1 + newlines_before(chars, s)
            &&& (forall|q: int| 0 <= q < s ==> chars[q] != '\n') ==> span.column == s + 1
            &&& forall|j: int|
                0 <= j < s && chars[j] == '\n' && (forall|q: int| j < q < s ==> chars[q] != '\n')
                    ==> span.column == s - j
        }),
{
    let m = lex_model(chars);
    lemma_run_ordered(chars, 0, initial_lex_state(), None);
    let s = m[k].start;
    assert(placed_at(chars, m[k]));
    lemma_position_bounds(chars, s);
    lemma_row_counts_newlines(chars, s);
    if forall|q: int| 0 <= q < s ==> chars[q] != '\n' {
        lemma_no_newline_between(chars, 0, s);
    }
    assert forall|j: int|
        0 <= j < s && chars[j] == '\n' && (forall|q: int| j < q < s ==> chars[q] != '\n')
            implies lex_units(chars)[k].span().column == s - j by {
        lemma_no_newline_between(chars, j + 1, s);
    }
}

/// Every newline moves to the next row and counts columns from 0 again: a
/// unit that begins after the newline at `n`, with no newline in between,
/// stands one row below it (and one row below any earlier unit that began
/// on the newline's row), at the column that counts from the newline.
pub proof fn lemma_newline_starts_row(chars: Seq<char>, n: int, k: int)
    requires
        chars.len() < usize::MAX,
        0 <= n < chars.len(),
        chars[n] == '\n',
        0 <= k < lex_model(chars).len(),
        n < lex_model(chars)[k].start,
        forall|j: int| n < j < lex_model(chars)[k].start ==> chars[j] != '\n',
    ensures
        lex_units(chars)[k].span().row == row_at(chars, n) + 1,
        lex_units(chars)[k].span().column == lex_model(chars)[k].start - n,
        forall|j: int|
            0 <= j < k && lex_model(chars)[j].start <= n && (forall|q: int|
                lex_model(chars)[j].start <= q < n ==> chars[q] != '\n') ==> lex_units(
                chars,
            )[k].span().row == #[trigger] lex_units(chars)[j].span().row + 1,
{
    let m = lex_model(chars);
    lemma_run_ordered(chars, 0, initial_lex_state(), None);
    let s = m[k].start;
    assert(placed_at(chars, m[k]));
    lemma_no_newline_between(chars, n + 1, s);
    lemma_position_bounds(chars, s);
    assert forall|j: int|
        0 <= j < k && m[j].start <= n && (forall|q: int| m[j].start <= q < n ==> chars[q]
            != '\n') implies lex_units(chars)[k].span().row == #[trigger] lex_units(
        chars,
    )[j].span().row + 1 by {
        assert(placed_at(chars, m[j]));
        lemma_no_newline_between(chars, m[j].start, n);
        lemma_position_bounds(chars, m[j].start);
    }
}


/// The open names after token `t`, or `None` where `t` closes a node that is
/// not the innermost one open (or is a declaration).
pub open spec fn nest_step(stack: Seq<Seq<char>>, t: Token) -> Option<Seq<Seq<char>>> {
    match t {
        Token::OpenNode(n) => Some(stack.push(n)),
        Token::CloseNode(n) => {
            if stack.len() > 0 && stack.last() == n {
                Some(stack.drop_last())
            } else {
                None
            }
        },
        Token::SimpleNode(_) => None,
        _ => Some(stack),
    }
}

/// The names left open after `tokens`, starting from `stack`, where every
/// closing token names the innermost open node; `None` otherwise.
pub open spec fn nest_from(stack: Seq<Seq<char>>, tokens: Seq<Token>) -> Option<Seq<Seq<char>>>
    decreases tokens.len(),
{
    if tokens.len() == 0 {
        Some(stack)
    } else {
        match nest_step(stack, tokens[0]) {
            Some(s) => nest_from(s, tokens.drop_first()),
            None => None,
        }
    }
}

/// Every opening token has a matching closing token, properly nested.
pub open spec fn properly_nested(tokens: Seq<Token>) -> bool {
    nest_from(Seq::empty(), tokens) == Some(Seq::<Seq<char>>::empty())
}

proof fn lemma_nest_concat(stack: Seq<Seq<char>>, a: Seq<Token>, b: Seq<Token>)
    ensures
        nest_from(stack, a + b) == match nest_from(stack, a) {
            Some(s) => nest_from(s, b),
            None => None,
        },
    decreases a.len(),
{
    if a.len() > 0 {
        assert((a + b).drop_first() == a.drop_first() + b);
        assert((a + b)[0] == a[0]);
        match nest_step(stack, a[0]) {
            Some(s) => lemma_nest_concat(s, a.drop_first(), b),
            None => {},
        }
    } else {
        assert(a + b == b);
    }
}

proof fn lemma_nest_short(stack: Seq<Seq<char>>, out: Seq<Token>)
    requires
        out.len() <= 2,
    ensures
        out.len() == 0 ==> nest_from(stack, out) == Some(stack),
        out.len() == 1 ==> nest_from(stack, out) == nest_step(stack, out[0]),
        out.len() == 2 ==> nest_from(stack, out) == match nest_step(stack, out[0]) {
            Some(s) => nest_step(s, out[1]),
            None => None,
        },
{
    if out.len() == 1 {
        assert(out.drop_first().len() == 0);
    } else if out.len() == 2 {
        assert(out.drop_first().drop_first().len() == 0);
        assert(out.drop_first()[0] == out[1]);
        match nest_step(stack, out[0]) {
            Some(s) => {
                assert(nest_from(s, out.drop_first()) == match nest_step(s, out[1]) {
                    Some(s2) => nest_from(s2, out.drop_first().drop_first()),
                    None => None,
                });
            },
            None => {},
        }
    }
}

/// One step of the tokenizer moves its stack as its tokens do.
proof fn lemma_step_nest(units: Seq<LexUnit>, i: int, st: TokState)
    requires
        0 <= i < units.len(),
        !(units[i] is ImmediateClose),
    ensures
        ({
            let step = tok_step(units, i, st);
            &&& nest_from(st.stack, step.out) matches Some(s) ==> s == step.state.stack
            &&& i < step.next
        }),
{
    let step = tok_step(units, i, st);
    match units[i] {
        LexUnit::Text(t, _) => {
            let tr = trim(t);
            if st.in_node || (!st.in_close && st.in_simple) {
                let tag = text_in_tag(units, i, st, tr, !st.in_node);
                assert(tag == step);
                lemma_nest_short(st.stack, tag.out);
            } else {
                lemma_nest_short(st.stack, step.out);
            }
        },
        _ => {
            lemma_nest_short(st.stack, step.out);
        },
    }
}

proof fn lemma_run_nest(units: Seq<LexUnit>, i: int, st: TokState)
    requires
        0 <= i,
        forall|j: int| i <= j < units.len() ==> !(#[trigger] units[j] is ImmediateClose),
    ensures
        nest_from(st.stack, tok_from(units, i, st).tokens) matches Some(s) ==> s == tok_from(
            units,
            i,
            st,
        ).state.stack,
    decreases units.len() - i,
{
    if i < units.len() {
        let step = tok_step(units, i, st);
        lemma_step_nest(units, i, st);
        lemma_run_nest(units, step.next, step.state);
        let rest = tok_from(units, step.next, step.state);
        lemma_nest_concat(st.stack, step.out, rest.tokens);
    }
}

/// Stack balance. Unless a `?>` pops a name without a token, the
/// tokenizer's stack of open names is exactly what its tokens leave open:
/// every node opened and not yet closed, innermost last. So for well-formed
/// input, where every opening token has a matching closing token properly
/// nested, the stack is empty when the tokenizer finishes.
pub proof fn lemma_stack_balance(units: Seq<LexUnit>)
    requires
        forall|j: int| 0 <= j < units.len() ==> !(#[trigger] units[j] is ImmediateClose),
    ensures
        nest_from(Seq::empty(), tokenize_model(units).tokens) matches Some(s) ==> s
            == tokenize_model(units).state.stack,
        properly_nested(tokenize_model(units).tokens) ==> tokenize_model(units).state.stack.len()
            == 0,
{
    lemma_run_nest(units, 0, crate::tokenizer::initial_tok_state());
}


/// A character the lexer always adds to the pending text: neither a markup
/// character nor white space.
pub open spec fn is_name_char(c: char) -> bool {
    &&& !is_white_space(c)
    &&& c != '<' && c != '>' && c != '?' && c != '[' && c != ']'
    &&& c != '!' && c != '=' && c != '"' && c != '/'
}

/// A tag or attribute name: one or more name characters.
pub open spec fn is_name(n: Seq<char>) -> bool {
    n.len() > 0 && forall|j: int| 0 <= j < n.len() ==> is_name_char(#[trigger] n[j])
}

pub open spec fn with_pending(st: LexState, chars: Seq<char>, i: int, m: int) -> LexState {
    LexState {
        pending: st.pending + chars.subrange(i, i + m),
        text_start: if st.pending.len() == 0 && m > 0 {
            i
        } else {
            st.text_start
        },
        text_end: if m > 0 {
            i + m
        } else {
            st.text_end
        },
        ..st
    }
}

/// A run of name characters only joins the pending text.
proof fn lemma_name_run(chars: Seq<char>, i: int, st: LexState, m: int)
    requires
        0 <= i,
        0 <= m,
        i + m <= chars.len(),
        forall|j: int| i <= j < i + m ==> is_name_char(#[trigger] chars[j]),
    ensures
        lex_from(chars, i, st) == lex_from(chars, i + m, with_pending(st, chars, i, m)),
    decreases m,
{
    if m == 0 {
        assert(st.pending + chars.subrange(i, i) =~= st.pending);
        assert(with_pending(st, chars, i, m) == st);
    } else {
        let c = chars[i];
        assert(is_name_char(c));
        let st1 = accumulate(st, c, i);
        assert(lex_step(chars, i, st).out == Seq::<Placed>::empty());
        assert(lex_from(chars, i, st) =~= lex_from(chars, i + 1, st1));
        lemma_name_run(chars, i + 1, st1, m - 1);
        assert(st1.pending + chars.subrange(i + 1, i + m) =~= st.pending + chars.subrange(i, i + m));
        assert(with_pending(st1, chars, i + 1, m - 1) == with_pending(st, chars, i, m));
    }
}

proof fn lemma_name_is_trimmed(n: Seq<char>)
    requires
        is_name(n),
    ensures
        trim(n) == n,
{
    assert(!is_white_space(n[0]));
    assert(trim_start(n) == n);
    assert(!is_white_space(n.last()));
}

/// The lexer's state right after `<` that opens a tag whose name follows.
pub open spec fn tag_state() -> LexState {
    LexState {
        in_tag: true,
        in_bracket: false,
        in_decl: false,
        naming: true,
        in_quote: false,
        pending: Seq::empty(),
        text_start: 0,
        text_end: 0,
    }
}

/// The boolean attribute shorthand: `<t a>`, with names `t` and `a` that
/// differ, yields `OpenNode(t)`, `ParameterName(a)`, `ParameterValue("true")`.
#[verifier::spinoff_prover]
#[verifier::rlimit(100)]
pub proof fn lemma_bare_attribute_is_true(t: Seq<char>, a: Seq<char>)
    requires
        is_name(t),
        is_name(a),
        t != a,
    ensures
        tokenize_model(lex_units(seq!['<'] + t + seq![' '] + a + seq!['>'])).tokens == seq![
            Token::OpenNode(t),
            Token::ParameterName(a),
            Token::ParameterValue(true_text()),
        ],
{
    let chars = seq!['<'] + t + seq![' '] + a + seq!['>'];
    let lt = t.len() as int;
    let la = a.len() as int;
    assert(chars.len() == lt + la + 3);
    assert(chars[0] == '<');
    assert(chars[1] == t[0]);
    assert(chars[lt + 1] == ' ');
    assert(chars[lt + 2 + la] == '>');
    assert(chars.subrange(1, 1 + lt) =~= t);
    assert(chars.subrange(lt + 2, lt + 2 + la) =~= a);
    assert forall|j: int| 1 <= j < 1 + lt implies is_name_char(#[trigger] chars[j]) by {
        assert(chars[j] == t[j - 1]);
    }
    assert forall|j: int| lt + 2 <= j < lt + 2 + la implies is_name_char(#[trigger] chars[j]) by {
        assert(chars[j] == a[j - lt - 2]);
    }
    let s0 = initial_lex_state();
    let s1 = tag_state();
    let open = seq![Placed { unit: LexUnit::OpenArrow(span_of(chars, 0, 1)), start: 0 }];
    assert(lex_step(chars, 0, s0).state == s1);
    assert(lex_step(chars, 0, s0).out =~= open);
    assert(lex_from(chars, 0, s0) == open + lex_from(chars, 1, s1));
    lemma_name_run(chars, 1, s1, lt);
    let s2 = with_pending(s1, chars, 1, lt);
    assert(s2.pending =~= t);
    let s3 = LexState { pending: Seq::empty(), naming: false, ..s2 };
    let name = seq![Placed { unit: LexUnit::Text(t, span_of(chars, 1, lt)), start: 1 }];
    assert(lex_step(chars, lt + 1, s2).state == s3);
    assert(lex_step(chars, lt + 1, s2).out =~= name);
    assert(lex_from(chars, lt + 1, s2) == name + lex_from(chars, lt + 2, s3));
    lemma_name_run(chars, lt + 2, s3, la);
    let s4 = with_pending(s3, chars, lt + 2, la);
    assert(s4.pending =~= a);
    let last = seq![
        Placed { unit: LexUnit::Text(a, span_of(chars, lt + 2, la)), start: lt + 2 },
        Placed { unit: LexUnit::CloseArrow(span_of(chars, lt + 2 + la, 1)), start: lt + 2 + la },
    ];
    assert(lex_step(chars, lt + 2 + la, s4).out =~= last);
    let s5 = lex_step(chars, lt + 2 + la, s4).state;
    assert(lex_from(chars, lt + 3 + la, s5) == Seq::<Placed>::empty());
    assert(lex_from(chars, lt + 2 + la, s4) == last + Seq::<Placed>::empty());
    assert(lex_from(chars, lt + 2 + la, s4) =~= last);
    let m = lex_model(chars);
    assert(m =~= open + (name + last));
    let u = lex_units(chars);
    assert(u =~= seq![
        LexUnit::OpenArrow(span_of(chars, 0, 1)),
        LexUnit::Text(t, span_of(chars, 1, lt)),
        LexUnit::Text(a, span_of(chars, lt + 2, la)),
        LexUnit::CloseArrow(span_of(chars, lt + 2 + la, 1)),
    ]);
    lemma_name_is_trimmed(t);
    lemma_name_is_trimmed(a);
    let k0 = initial_tok_state();
    let k1 = TokState { in_node: true, ..k0 };
    let k2 = TokState { stack: seq![t], current: t, ..k1 };
    assert(k1.stack.push(t) =~= seq![t]);
    assert(tok_step(u, 0, k0).state == k1);
    assert(tok_step(u, 1, k1).state == k2);
    assert(tok_step(u, 1, k1).out =~= seq![Token::OpenNode(t)]);
    assert(tok_step(u, 2, k2).out =~= seq![Token::ParameterName(a), Token::ParameterValue(true_text())]);
    let k3 = tok_step(u, 3, k2).state;
    assert(tok_from(u, 4, k3).tokens =~= Seq::<Token>::empty());
    assert(tok_from(u, 3, k2).tokens =~= Seq::<Token>::empty());
    assert(tok_from(u, 2, k2).tokens =~= seq![Token::ParameterName(a), Token::ParameterValue(true_text())]);
    assert(tok_from(u, 1, k1).tokens =~= seq![
        Token::OpenNode(t),
        Token::ParameterName(a),
        Token::ParameterValue(true_text()),
    ]);
    assert(tok_from(u, 0, k0).tokens =~= tok_from(u, 1, k1).tokens);
}


/// `<n/>` written with the self-closing slash.
pub open spec fn self_closed(n: Seq<char>) -> Seq<char> {
    seq!['<'] + n + seq!['/', '>']
}

/// `<n></n>` written with an explicit closing tag.
pub open spec fn explicitly_closed(n: Seq<char>) -> Seq<char> {
    seq!['<'] + n + seq!['>', '<', '/'] + n + seq!['>']
}

#[verifier::spinoff_prover]
#[verifier::rlimit(100)]
proof fn lemma_self_closed_tokens(n: Seq<char>)
    requires
        is_name(n),
    ensures
        tokenize_model(lex_units(self_closed(n))).tokens == seq![Token::OpenNode(n), Token::CloseNode(n)],
{
    let chars = self_closed(n);
    let l = n.len() as int;
    assert(chars.len() == l + 3);
    assert(chars[0] == '<');
    assert(chars[1] == n[0]);
    assert(chars[l + 1] == '/');
    assert(chars[l + 2] == '>');
    assert(chars.subrange(1, 1 + l) =~= n);
    assert forall|j: int| 1 <= j < 1 + l implies is_name_char(#[trigger] chars[j]) by {
        assert(chars[j] == n[j - 1]);
    }
    let s0 = initial_lex_state();
    let s1 = tag_state();
    let open = seq![Placed { unit: LexUnit::OpenArrow(span_of(chars, 0, 1)), start: 0 }];
    assert(lex_step(chars, 0, s0).state == s1);
    assert(lex_step(chars, 0, s0).out =~= open);
    assert(lex_from(chars, 0, s0) == open + lex_from(chars, 1, s1));
    lemma_name_run(chars, 1, s1, l);
    let s2 = with_pending(s1, chars, 1, l);
    assert(s2.pending =~= n);
    let s3 = LexState { pending: Seq::empty(), naming: false, ..s2 };
    let slash = seq![
        Placed { unit: LexUnit::Text(n, span_of(chars, 1, l)), start: 1 },
        Placed { unit: LexUnit::CloseFSlash(span_of(chars, l + 1, 1)), start: l + 1 },
    ];
    assert(lex_step(chars, l + 1, s2).state == s3);
    assert(lex_step(chars, l + 1, s2).out =~= slash);
    assert(lex_from(chars, l + 1, s2) == slash + lex_from(chars, l + 2, s3));
    let close = seq![Placed { unit: LexUnit::CloseArrow(span_of(chars, l + 2, 1)), start: l + 2 }];
    assert(lex_step(chars, l + 2, s3).out =~= close);
    let s4 = lex_step(chars, l + 2, s3).state;
    assert(lex_from(chars, l + 3, s4) == Seq::<Placed>::empty());
    assert(lex_from(chars, l + 2, s3) == close + Seq::<Placed>::empty());
    let u = lex_units(chars);
    assert(lex_model(chars) =~= open + (slash + close));
    assert(u =~= seq![
        LexUnit::OpenArrow(span_of(chars, 0, 1)),
        LexUnit::Text(n, span_of(chars, 1, l)),
        LexUnit::CloseFSlash(span_of(chars, l + 1, 1)),
        LexUnit::CloseArrow(span_of(chars, l + 2, 1)),
    ]);
    lemma_name_is_trimmed(n);
    let k0 = initial_tok_state();
    let k1 = TokState { in_node: true, ..k0 };
    let k2 = TokState { stack: seq![n], current: n, ..k1 };
    assert(k1.stack.push(n) =~= seq![n]);
    assert(tok_step(u, 0, k0).state == k1);
    assert(tok_step(u, 1, k1).state == k2);
    assert(tok_step(u, 1, k1).out =~= seq![Token::OpenNode(n)]);
    assert(tok_step(u, 2, k2).out =~= seq![Token::CloseNode(n)]);
    let k3 = tok_step(u, 2, k2).state;
    let k4 = tok_step(u, 3, k3).state;
    assert(tok_from(u, 4, k4).tokens =~= Seq::<Token>::empty());
    assert(tok_from(u, 3, k3).tokens =~= Seq::<Token>::empty());
    assert(tok_from(u, 2, k2).tokens =~= seq![Token::CloseNode(n)]);
    assert(tok_from(u, 1, k1).tokens =~= seq![Token::OpenNode(n), Token::CloseNode(n)]);
    assert(tok_from(u, 0, k0).tokens =~= tok_from(u, 1, k1).tokens);
}

#[verifier::spinoff_prover]
#[verifier::rlimit(100)]
proof fn lemma_explicitly_closed_tokens(n: Seq<char>)
    requires
        is_name(n),
    ensures
        tokenize_model(lex_units(explicitly_closed(n))).tokens == seq![
            Token::OpenNode(n),
            Token::CloseNode(n),
        ],
{
    let chars = explicitly_closed(n);
    let l = n.len() as int;
    assert(chars.len() == 2 * l + 5);
    assert(chars[0] == '<');
    assert(chars[1] == n[0]);
    assert(chars[l + 1] == '>');
    assert(chars[l + 2] == '<');
    assert(chars[l + 3] == '/');
    assert(chars[2 * l + 4] == '>');
    assert(chars.subrange(1, 1 + l) =~= n);
    assert(chars.subrange(l + 4, 2 * l + 4) =~= n);
    assert forall|j: int| 1 <= j < 1 + l implies is_name_char(#[trigger] chars[j]) by {
        assert(chars[j] == n[j - 1]);
    }
    assert forall|j: int| l + 4 <= j < 2 * l + 4 implies is_name_char(#[trigger] chars[j]) by {
        assert(chars[j] == n[j - l - 4]);
    }
    let s0 = initial_lex_state();
    let s1 = tag_state();
    let open = seq![Placed { unit: LexUnit::OpenArrow(span_of(chars, 0, 1)), start: 0 }];
    assert(lex_step(chars, 0, s0).state == s1);
    assert(lex_step(chars, 0, s0).out =~= open);
    assert(lex_from(chars, 0, s0) == open + lex_from(chars, 1, s1));
    lemma_name_run(chars, 1, s1, l);
    let s2 = with_pending(s1, chars, 1, l);
    assert(s2.pending =~= n);
    let s3 = LexState { in_tag: false, naming: false, pending: Seq::empty(), ..s2 };
    let first = seq![
        Placed { unit: LexUnit::Text(n, span_of(chars, 1, l)), start: 1 },
        Placed { unit: LexUnit::CloseArrow(span_of(chars, l + 1, 1)), start: l + 1 },
    ];
    assert(lex_step(chars, l + 1, s2).state == s3);
    assert(lex_step(chars, l + 1, s2).out =~= first);
    assert(lex_from(chars, l + 1, s2) == first + lex_from(chars, l + 2, s3));
    let s4 = LexState { in_tag: true, naming: true, ..s3 };
    let closing = seq![
        Placed { unit: LexUnit::OpenArrow(span_of(chars, l + 2, 1)), start: l + 2 },
        Placed { unit: LexUnit::CloseFSlash(span_of(chars, l + 3, 1)), start: l + 3 },
    ];
    assert(lex_step(chars, l + 2, s3).state == s4);
    assert(lex_step(chars, l + 2, s3).out =~= closing);
    assert(lex_step(chars, l + 2, s3).next == l + 4);
    assert(lex_from(chars, l + 2, s3) == closing + lex_from(chars, l + 4, s4));
    lemma_name_run(chars, l + 4, s4, l);
    let s5 = with_pending(s4, chars, l + 4, l);
    assert(s5.pending =~= n);
    let last = seq![
        Placed { unit: LexUnit::Text(n, span_of(chars, l + 4, l)), start: l + 4 },
        Placed { unit: LexUnit::CloseArrow(span_of(chars, 2 * l + 4, 1)), start: 2 * l + 4 },
    ];
    assert(lex_step(chars, 2 * l + 4, s5).out =~= last);
    let s6 = lex_step(chars, 2 * l + 4, s5).state;
    assert(lex_from(chars, 2 * l + 5, s6) == Seq::<Placed>::empty());
    assert(lex_from(chars, 2 * l + 4, s5) == last + Seq::<Placed>::empty());
    let u = lex_units(chars);
    assert(lex_model(chars) =~= open + (first + (closing + last)));
    assert(u =~= seq![
        LexUnit::OpenArrow(span_of(chars, 0, 1)),
        LexUnit::Text(n, span_of(chars, 1, l)),
        LexUnit::CloseArrow(span_of(chars, l + 1, 1)),
        LexUnit::OpenArrow(span_of(chars, l + 2, 1)),
        LexUnit::CloseFSlash(span_of(chars, l + 3, 1)),
        LexUnit::Text(n, span_of(chars, l + 4, l)),
        LexUnit::CloseArrow(span_of(chars, 2 * l + 4, 1)),
    ]);
    lemma_name_is_trimmed(n);
    let k0 = initial_tok_state();
    let k1 = TokState { in_node: true, ..k0 };
    let k2 = TokState { stack: seq![n], current: n, ..k1 };
    assert(k1.stack.push(n) =~= seq![n]);
    assert(tok_step(u, 0, k0).state == k1);
    assert(tok_step(u, 1, k1).state == k2);
    assert(tok_step(u, 1, k1).out =~= seq![Token::OpenNode(n)]);
    let k3 = TokState { in_node: false, current: Seq::empty(), ..k2 };
    assert(tok_step(u, 2, k2).state == k3);
    assert(tok_step(u, 3, k3).state == k3);
    let k4 = TokState { in_close: true, ..k3 };
    assert(tok_step(u, 4, k3).state == k4);
    assert(tok_step(u, 5, k4).out =~= seq![Token::CloseNode(n)]);
    let k5 = tok_step(u, 5, k4).state;
    let k6 = tok_step(u, 6, k5).state;
    assert(tok_from(u, 7, k6).tokens =~= Seq::<Token>::empty());
    assert(tok_from(u, 6, k5).tokens =~= Seq::<Token>::empty());
    assert(tok_from(u, 5, k4).tokens =~= seq![Token::CloseNode(n)]);
    assert(tok_from(u, 4, k3).tokens =~= seq![Token::CloseNode(n)]);
    assert(tok_from(u, 3, k3).tokens =~= seq![Token::CloseNode(n)]);
    assert(tok_from(u, 2, k2).tokens =~= seq![Token::CloseNode(n)]);
    assert(tok_from(u, 1, k1).tokens =~= seq![Token::OpenNode(n), Token::CloseNode(n)]);
    assert(tok_from(u, 0, k0).tokens =~= tok_from(u, 1, k1).tokens);
}

/// `<t a="v"` , the opening of a tag with one quoted attribute.
pub open spec fn attr_open(t: Seq<char>, a: Seq<char>, v: Seq<char>) -> Seq<char> {
    seq!['<'] + t + seq![' '] + a + seq!['=', '"'] + v + seq!['"']
}

/// The lexer's state right after the closing quote of `attr_open`.
pub open spec fn after_attr_open(t: Seq<char>, a: Seq<char>, v: Seq<char>) -> LexState {
    LexState {
        in_tag: true,
        in_bracket: false,
        in_decl: false,
        naming: false,
        in_quote: false,
        pending: Seq::empty(),
        text_start: (t.len() + a.len() + 4) as int,
        text_end: (t.len() + a.len() + v.len() + 4) as int,
    }
}

pub open spec fn attr_open_units(chars: Seq<char>, t: Seq<char>, a: Seq<char>, v: Seq<char>) -> Seq<Placed> {
    let lt = t.len() as int;
    let la = a.len() as int;
    let lv = v.len() as int;
    let p1 = lt + 2 + la;
    seq![
        Placed { unit: LexUnit::OpenArrow(span_of(chars, 0, 1)), start: 0 },
        Placed { unit: LexUnit::Text(t, span_of(chars, 1, lt)), start: 1 },
        Placed { unit: LexUnit::Text(a, span_of(chars, lt + 2, la)), start: lt + 2 },
        Placed { unit: LexUnit::Equals(span_of(chars, p1, 1)), start: p1 },
        Placed { unit: LexUnit::DoubleQuote(span_of(chars, p1 + 1, 1)), start: p1 + 1 },
        Placed { unit: LexUnit::Text(v, span_of(chars, p1 + 2, lv)), start: p1 + 2 },
        Placed { unit: LexUnit::DoubleQuote(span_of(chars, p1 + 2 + lv, 1)), start: p1 + 2 + lv },
    ]
}

#[verifier::spinoff_prover]
#[verifier::rlimit(100)]
proof fn lemma_attr_open_lex(chars: Seq<char>, t: Seq<char>, a: Seq<char>, v: Seq<char>)
    requires
        is_name(t),
        is_name(a),
        is_name(v),
        chars.len() > attr_open(t, a, v).len(),
        chars.subrange(0, attr_open(t, a, v).len() as int) == attr_open(t, a, v),
    ensures
        lex_from(chars, 0, initial_lex_state()) == attr_open_units(chars, t, a, v) + lex_from(
            chars,
            attr_open(t, a, v).len() as int,
            after_attr_open(t, a, v),
        ),
{
    let pre = attr_open(t, a, v);
    let lt = t.len() as int;
    let la = a.len() as int;
    let lv = v.len() as int;
    let p1 = lt + 2 + la;
    let p2 = p1 + 2 + lv;
    assert(pre.len() == p2 + 1);
    assert forall|j: int| 0 <= j < pre.len() implies chars[j] == #[trigger] pre[j] by {
        assert(chars.subrange(0, pre.len() as int)[j] == chars[j]);
    }
    assert(pre[0] == '<');
    assert(pre[1] == t[0]);
    assert(pre[lt + 1] == ' ');
    assert(pre[p1] == '=');
    assert(pre[p1 + 1] == '"');
    assert(pre[p2] == '"');
    assert(chars[0] == '<');
    assert(chars[1] == t[0]);
    assert(chars[lt + 1] == ' ');
    assert(chars[p1] == '=');
    assert(chars[p1 + 1] == '"');
    assert(chars[p2] == '"');
    assert forall|j: int| 1 <= j < 1 + lt implies is_name_char(#[trigger] chars[j]) by {
        assert(pre[j] == t[j - 1]);
    }
    assert forall|j: int| lt + 2 <= j < p1 implies is_name_char(#[trigger] chars[j]) by {
        assert(pre[j] == a[j - lt - 2]);
    }
    assert forall|j: int| p1 + 2 <= j < p2 implies is_name_char(#[trigger] chars[j]) by {
        assert(pre[j] == v[j - p1 - 2]);
    }
    assert(chars.subrange(1, 1 + lt) =~= t) by {
        assert forall|j: int| 0 <= j < lt implies chars.subrange(1, 1 + lt)[j] == t[j] by {
            assert(pre[j + 1] == t[j]);
        }
    }
    assert(chars.subrange(lt + 2, p1) =~= a) by {
        assert forall|j: int| 0 <= j < la implies chars.subrange(lt + 2, p1)[j] == a[j] by {
            assert(pre[j + lt + 2] == a[j]);
        }
    }
    assert(chars.subrange(p1 + 2, p2) =~= v) by {
        assert forall|j: int| 0 <= j < lv implies chars.subrange(p1 + 2, p2)[j] == v[j] by {
            assert(pre[j + p1 + 2] == v[j]);
        }
    }
    let u = attr_open_units(chars, t, a, v);
    let s0 = initial_lex_state();
    let s1 = tag_state();
    assert(lex_step(chars, 0, s0).state == s1);
    assert(lex_step(chars, 0, s0).out =~= seq![u[0]]);
    lemma_name_run(chars, 1, s1, lt);
    let s2 = with_pending(s1, chars, 1, lt);
    assert(s2.pending =~= t);
    let s3 = LexState { pending: Seq::empty(), naming: false, ..s2 };
    assert(lex_step(chars, lt + 1, s2).state == s3);
    assert(lex_step(chars, lt + 1, s2).out =~= seq![u[1]]);
    lemma_name_run(chars, lt + 2, s3, la);
    let s4 = with_pending(s3, chars, lt + 2, la);
    assert(s4.pending =~= a);
    let s5 = LexState { pending: Seq::empty(), ..s4 };
    assert(lex_step(chars, p1, s4).state == s5);
    assert(lex_step(chars, p1, s4).out =~= seq![u[2], u[3]]);
    let s6 = LexState { in_quote: true, ..s5 };
    assert(lex_step(chars, p1 + 1, s5).state == s6);
    assert(lex_step(chars, p1 + 1, s5).out =~= seq![u[4]]);
    lemma_name_run(chars, p1 + 2, s6, lv);
    let s7 = with_pending(s6, chars, p1 + 2, lv);
    assert(s7.pending =~= v);
    assert(lex_step(chars, p2, s7).state == after_attr_open(t, a, v));
    assert(lex_step(chars, p2, s7).out =~= seq![u[5], u[6]]);
    let rest = lex_from(chars, p2 + 1, after_attr_open(t, a, v));
    assert(lex_from(chars, p2, s7) == seq![u[5], u[6]] + rest);
    assert(lex_from(chars, p1 + 1, s5) == seq![u[4]] + lex_from(chars, p1 + 2, s6));
    assert(lex_from(chars, p1, s4) == seq![u[2], u[3]] + lex_from(chars, p1 + 1, s5));
    assert(lex_from(chars, lt + 1, s2) == seq![u[1]] + lex_from(chars, lt + 2, s3));
    assert(lex_from(chars, 0, s0) == seq![u[0]] + lex_from(chars, 1, s1));
    assert(u =~= seq![u[0]] + (seq![u[1]] + (seq![u[2], u[3]] + (seq![u[4]] + seq![u[5], u[6]]))));
    assert(lex_from(chars, 0, s0) =~= u + rest);
}

/// Self-close equivalence: `<n/>` yields exactly the tokens of `<n></n>`,
/// one `OpenNode(n)` and one `CloseNode(n)`.
pub proof fn lemma_self_close_matches_close(n: Seq<char>)
    requires
        is_name(n),
    ensures
        tokenize_model(lex_units(self_closed(n))).tokens == tokenize_model(
            lex_units(explicitly_closed(n)),
        ).tokens,
        tokenize_model(lex_units(self_closed(n))).tokens == seq![
            Token::OpenNode(n),
            Token::CloseNode(n),
        ],
{
    lemma_self_closed_tokens(n);
    lemma_explicitly_closed_tokens(n);
}


/// `<t a="v"/>`.
pub open spec fn attr_self_closed(t: Seq<char>, a: Seq<char>, v: Seq<char>) -> Seq<char> {
    attr_open(t, a, v) + seq!['/', '>']
}

/// `<t a="v"></t>`.
pub open spec fn attr_explicitly_closed(t: Seq<char>, a: Seq<char>, v: Seq<char>) -> Seq<char> {
    attr_open(t, a, v) + seq!['>', '<', '/'] + t + seq!['>']
}

pub open spec fn attr_tokens(t: Seq<char>, a: Seq<char>, v: Seq<char>) -> Seq<Token> {
    seq![Token::OpenNode(t), Token::ParameterName(a), Token::ParameterValue(v), Token::CloseNode(t)]
}

/// The tokenizer's state after the units of `attr_open`, which open the tag
/// `t` and give its attribute.
proof fn lemma_attr_open_tokens(u: Seq<LexUnit>, t: Seq<char>, a: Seq<char>, v: Seq<char>)
    requires
        is_name(t),
        is_name(a),
        is_name(v),
        u.len() > 7,
        u[0] is OpenArrow,
        u[1] == LexUnit::Text(t, u[1].span()),
        u[2] == LexUnit::Text(a, u[2].span()),
        u[3] is Equals,
        u[4] is DoubleQuote,
        u[5] == LexUnit::Text(v, u[5].span()),
        u[6] is DoubleQuote,
    ensures
        ({
            let k = TokState { in_node: true, stack: seq![t], current: t, ..initial_tok_state() };
            tok_from(u, 0, initial_tok_state()).tokens == seq![
                Token::OpenNode(t),
                Token::ParameterName(a),
                Token::ParameterValue(v),
            ] + tok_from(u, 7, k).tokens
            && tok_from(u, 0, initial_tok_state()).state == tok_from(u, 7, k).state
        }),
{
    lemma_name_is_trimmed(t);
    lemma_name_is_trimmed(a);
    lemma_name_is_trimmed(v);
    let k0 = initial_tok_state();
    let k1 = TokState { in_node: true, ..k0 };
    let k2 = TokState { stack: seq![t], current: t, ..k1 };
    let k3 = TokState { param_value: true, ..k2 };
    assert(k1.stack.push(t) =~= seq![t]);
    assert(tok_step(u, 0, k0).state == k1);
    assert(tok_step(u, 1, k1).state == k2);
    assert(tok_step(u, 1, k1).out =~= seq![Token::OpenNode(t)]);
    assert(tok_step(u, 2, k2).state == k2);
    assert(tok_step(u, 2, k2).out =~= seq![Token::ParameterName(a)]);
    assert(tok_step(u, 3, k2).state == k3);
    assert(tok_step(u, 4, k3).state == k3);
    assert(tok_step(u, 5, k3).state == k2);
    assert(tok_step(u, 5, k3).out =~= seq![Token::ParameterValue(v)]);
    assert(tok_step(u, 6, k2).state == k2);
    let rest = tok_from(u, 7, k2).tokens;
    assert(tok_from(u, 6, k2).tokens =~= rest);
    assert(tok_from(u, 5, k3).tokens =~= seq![Token::ParameterValue(v)] + rest);
    assert(tok_from(u, 4, k3).tokens =~= seq![Token::ParameterValue(v)] + rest);
    assert(tok_from(u, 3, k2).tokens =~= seq![Token::ParameterValue(v)] + rest);
    assert(tok_from(u, 2, k2).tokens =~= seq![Token::ParameterName(a), Token::ParameterValue(v)]
        + rest);
    assert(tok_from(u, 1, k1).tokens =~= seq![
        Token::OpenNode(t),
        Token::ParameterName(a),
        Token::ParameterValue(v),
    ] + rest);
    assert(tok_from(u, 0, k0).tokens =~= tok_from(u, 1, k1).tokens);
}

#[verifier::spinoff_prover]
#[verifier::rlimit(100)]
proof fn lemma_attr_self_closed_tokens(t: Seq<char>, a: Seq<char>, v: Seq<char>)
    requires
        is_name(t),
        is_name(a),
        is_name(v),
    ensures
        tokenize_model(lex_units(attr_self_closed(t, a, v))).tokens == attr_tokens(t, a, v),
{
    let pre = attr_open(t, a, v);
    let chars = attr_self_closed(t, a, v);
    let p = pre.len() as int;
    assert(chars.subrange(0, p) =~= pre);
    assert(chars[p] == '/');
    assert(chars[p + 1] == '>');
    assert(chars.len() == p + 2);
    lemma_attr_open_lex(chars, t, a, v);
    let s8 = after_attr_open(t, a, v);
    let tail = seq![
        Placed { unit: LexUnit::CloseFSlash(span_of(chars, p, 1)), start: p },
        Placed { unit: LexUnit::CloseArrow(span_of(chars, p + 1, 1)), start: p + 1 },
    ];
    assert(lex_step(chars, p, s8).state == s8);
    assert(lex_step(chars, p, s8).out =~= seq![tail[0]]);
    assert(lex_step(chars, p + 1, s8).out =~= seq![tail[1]]);
    let s9 = lex_step(chars, p + 1, s8).state;
    assert(lex_from(chars, p + 2, s9) == Seq::<Placed>::empty());
    assert(lex_from(chars, p + 1, s8) =~= seq![tail[1]]);
    assert(lex_from(chars, p, s8) =~= tail);
    let m = attr_open_units(chars, t, a, v) + tail;
    assert(lex_model(chars) == m);
    let u = lex_units(chars);
    assert(u.len() == 9);
    assert(u[7] == tail[0].unit);
    assert(u[8] == tail[1].unit);
    lemma_attr_open_tokens(u, t, a, v);
    let k = TokState { in_node: true, stack: seq![t], current: t, ..initial_tok_state() };
    assert(tok_step(u, 7, k).out =~= seq![Token::CloseNode(t)]);
    let k8 = tok_step(u, 7, k).state;
    let k9 = tok_step(u, 8, k8).state;
    assert(tok_from(u, 9, k9).tokens =~= Seq::<Token>::empty());
    assert(tok_from(u, 8, k8).tokens =~= Seq::<Token>::empty());
    assert(tok_from(u, 7, k).tokens =~= seq![Token::CloseNode(t)]);
    assert(tokenize_model(u).tokens =~= attr_tokens(t, a, v));
}

#[verifier::spinoff_prover]
#[verifier::rlimit(100)]
proof fn lemma_attr_explicitly_closed_tokens(t: Seq<char>, a: Seq<char>, v: Seq<char>)
    requires
        is_name(t),
        is_name(a),
        is_name(v),
    ensures
        tokenize_model(lex_units(attr_explicitly_closed(t, a, v))).tokens == attr_tokens(t, a, v),
{
    let pre = attr_open(t, a, v);
    let chars = attr_explicitly_closed(t, a, v);
    let p = pre.len() as int;
    let lt = t.len() as int;
    assert(chars.subrange(0, p) =~= pre);
    assert(chars.len() == p + 4 + lt);
    assert(chars[p] == '>');
    assert(chars[p + 1] == '<');
    assert(chars[p + 2] == '/');
    assert(chars[p + 3 + lt] == '>');
    assert forall|j: int| p + 3 <= j < p + 3 + lt implies is_name_char(#[trigger] chars[j]) by {
        assert(chars[j] == t[j - p - 3]);
    }
    assert(chars.subrange(p + 3, p + 3 + lt) =~= t);
    lemma_attr_open_lex(chars, t, a, v);
    let s8 = after_attr_open(t, a, v);
    let s9 = LexState { in_tag: false, ..s8 };
    let s10 = LexState { in_tag: true, naming: true, ..s8 };
    let tail = seq![
        Placed { unit: LexUnit::CloseArrow(span_of(chars, p, 1)), start: p },
        Placed { unit: LexUnit::OpenArrow(span_of(chars, p + 1, 1)), start: p + 1 },
        Placed { unit: LexUnit::CloseFSlash(span_of(chars, p + 2, 1)), start: p + 2 },
        Placed { unit: LexUnit::Text(t, span_of(chars, p + 3, lt)), start: p + 3 },
        Placed { unit: LexUnit::CloseArrow(span_of(chars, p + 3 + lt, 1)), start: p + 3 + lt },
    ];
    assert(lex_step(chars, p, s8).state == s9);
    assert(lex_step(chars, p, s8).out =~= seq![tail[0]]);
    assert(lex_step(chars, p + 1, s9).state == s10);
    assert(lex_step(chars, p + 1, s9).out =~= seq![tail[1], tail[2]]);
    assert(lex_step(chars, p + 1, s9).next == p + 3);
    lemma_name_run(chars, p + 3, s10, lt);
    let s11 = with_pending(s10, chars, p + 3, lt);
    assert(s11.pending =~= t);
    assert(lex_step(chars, p + 3 + lt, s11).out =~= seq![tail[3], tail[4]]);
    let s12 = lex_step(chars, p + 3 + lt, s11).state;
    assert(lex_from(chars, p + 4 + lt, s12) == Seq::<Placed>::empty());
    assert(lex_from(chars, p + 3 + lt, s11) =~= seq![tail[3], tail[4]]);
    assert(lex_from(chars, p + 1, s9) =~= seq![tail[1], tail[2], tail[3], tail[4]]);
    assert(lex_from(chars, p, s8) =~= tail);
    let m = attr_open_units(chars, t, a, v) + tail;
    assert(lex_model(chars) == m);
    let u = lex_units(chars);
    assert(u.len() == 12);
    assert(u[7] == tail[0].unit);
    assert(u[8] == tail[1].unit);
    assert(u[9] == tail[2].unit);
    assert(u[10] == tail[3].unit);
    assert(u[11] == tail[4].unit);
    lemma_attr_open_tokens(u, t, a, v);
    lemma_name_is_trimmed(t);
    let k = TokState { in_node: true, stack: seq![t], current: t, ..initial_tok_state() };
    let k7 = TokState { in_node: false, current: Seq::empty(), ..k };
    assert(tok_step(u, 7, k).state == k7);
    assert(tok_step(u, 8, k7).state == k7);
    let k9 = TokState { in_close: true, ..k7 };
    assert(tok_step(u, 9, k7).state == k9);
    assert(tok_step(u, 10, k9).out =~= seq![Token::CloseNode(t)]);
    let k10 = tok_step(u, 10, k9).state;
    let k11 = tok_step(u, 11, k10).state;
    assert(tok_from(u, 12, k11).tokens =~= Seq::<Token>::empty());
    assert(tok_from(u, 11, k10).tokens =~= Seq::<Token>::empty());
    assert(tok_from(u, 10, k9).tokens =~= seq![Token::CloseNode(t)]);
    assert(tok_from(u, 9, k7).tokens =~= seq![Token::CloseNode(t)]);
    assert(tok_from(u, 8, k7).tokens =~= seq![Token::CloseNode(t)]);
    assert(tok_from(u, 7, k).tokens =~= seq![Token::CloseNode(t)]);
    assert(tokenize_model(u).tokens =~= attr_tokens(t, a, v));
}

/// Self-close equivalence with an attribute: `<t a="v"/>` yields exactly the
/// tokens of `<t a="v"></t>`: `OpenNode(t)`, `ParameterName(a)`,
/// `ParameterValue(v)` and one `CloseNode(t)`.
pub proof fn lemma_self_close_with_attribute(t: Seq<char>, a: Seq<char>, v: Seq<char>)
    requires
        is_name(t),
        is_name(a),
        is_name(v),
    ensures
        tokenize_model(lex_units(attr_self_closed(t, a, v))).tokens == tokenize_model(
            lex_units(attr_explicitly_closed(t, a, v)),
        ).tokens,
        tokenize_model(lex_units(attr_self_closed(t, a, v))).tokens == attr_tokens(t, a, v),
{
    lemma_attr_self_closed_tokens(t, a, v);
    lemma_attr_explicitly_closed_tokens(t, a, v);
}


/// How a token moves the count of open nodes.
pub open spec fn delta(t: Token) -> int {
    match t {
        Token::OpenNode(_) => 1,
        Token::SimpleNode(_) => 1,
        Token::CloseNode(_) => -1,
        _ => 0,
    }
}

/// The `OpenNode` and `SimpleNode` tokens of `s`, less its `CloseNode` tokens.
pub open spec fn tally(s: Seq<Token>) -> int
    decreases s.len(),
{
    if s.len() == 0 {
        0
    } else {
        tally(s.drop_last()) + delta(s.last())
    }
}

proof fn lemma_tally_concat(a: Seq<Token>, b: Seq<Token>)
    ensures
        tally(a + b) == tally(a) + tally(b),
    decreases b.len(),
{
    if b.len() == 0 {
        assert(a + b =~= a);
    } else {
        assert((a + b).drop_last() =~= a + b.drop_last());
        assert((a + b).last() == b.last());
        lemma_tally_concat(a, b.drop_last());
    }
}

proof fn lemma_tally_short(out: Seq<Token>)
    requires
        out.len() <= 2,
    ensures
        out.len() == 0 ==> tally(out) == 0,
        out.len() == 1 ==> tally(out) == delta(out[0]),
        out.len() == 2 ==> tally(out) == delta(out[0]) + delta(out[1]),
        forall|n: int| 0 <= n <= out.len() ==> #[trigger] tally(out.subrange(0, n)) == if n == 0 {
            0
        } else if n == 1 {
            delta(out[0])
        } else {
            delta(out[0]) + delta(out[1])
        },
{
    assert forall|n: int| 0 <= n <= out.len() implies #[trigger] tally(out.subrange(0, n)) == if n
        == 0 {
        0
    } else if n == 1 {
        delta(out[0])
    } else {
        delta(out[0]) + delta(out[1])
    } by {
        let q = out.subrange(0, n);
        if n == 0 {
            assert(q.len() == 0);
        } else {
            let q1 = out.subrange(0, 1);
            assert(q1.drop_last().len() == 0);
            assert(tally(q1.drop_last()) == 0);
            assert(q1.last() == out[0]);
            assert(tally(q1) == delta(out[0]));
            if n == 1 {
                assert(q =~= q1);
            } else {
                assert(q.drop_last() =~= q1);
                assert(q.last() == out[1]);
            }
        }
    }
    if out.len() == 1 {
        assert(out.subrange(0, 1) =~= out);
    } else if out.len() == 2 {
        assert(out.subrange(0, 2) =~= out);
    }
}

/// One step: its tokens move the count as the stack moves, less a name that
/// `?>` pops silently, and no prefix of them closes more than is open.
proof fn lemma_step_tally(units: Seq<LexUnit>, i: int, st: TokState)
    requires
        0 <= i < units.len(),
    ensures
        ({
            let step = tok_step(units, i, st);
            &&& tally(step.out) >= step.state.stack.len() - st.stack.len()
            &&& !(units[i] is ImmediateClose) ==> tally(step.out) == step.state.stack.len()
                - st.stack.len()
            &&& forall|n: int|
                0 <= n <= step.out.len() ==> #[trigger] tally(step.out.subrange(0, n))
                    + st.stack.len() >= 0
            &&& i < step.next
        }),
{
    let step = tok_step(units, i, st);
    match units[i] {
        LexUnit::Text(t, _) => {
            let tr = trim(t);
            if st.in_node || (!st.in_close && st.in_simple) {
                let tag = text_in_tag(units, i, st, tr, !st.in_node);
                assert(tag == step);
            }
        },
        _ => {},
    }
    lemma_tally_short(step.out);
}

proof fn lemma_run_tally(units: Seq<LexUnit>, i: int, st: TokState)
    requires
        0 <= i,
    ensures
        ({
            let run = tok_from(units, i, st);
            &&& tally(run.tokens) >= run.state.stack.len() - st.stack.len()
            &&& (forall|j: int| i <= j < units.len() ==> !(#[trigger] units[j] is ImmediateClose))
                ==> tally(run.tokens) == run.state.stack.len() - st.stack.len()
            &&& forall|n: int|
                0 <= n <= run.tokens.len() ==> #[trigger] tally(run.tokens.subrange(0, n))
                    + st.stack.len() >= 0
        }),
    decreases units.len() - i,
{
    if i < units.len() {
        let step = tok_step(units, i, st);
        lemma_step_tally(units, i, st);
        lemma_run_tally(units, step.next, step.state);
        let rest = tok_from(units, step.next, step.state);
        let all = step.out + rest.tokens;
        lemma_tally_concat(step.out, rest.tokens);
        assert forall|n: int| 0 <= n <= all.len() implies #[trigger] tally(all.subrange(0, n))
            + st.stack.len() >= 0 by {
            if n <= step.out.len() {
                assert(all.subrange(0, n) =~= step.out.subrange(0, n));
            } else {
                let m = n - step.out.len();
                assert(all.subrange(0, n) =~= step.out + rest.tokens.subrange(0, m));
                lemma_tally_concat(step.out, rest.tokens.subrange(0, m));
                assert(step.out.subrange(0, step.out.len() as int) =~= step.out);
            }
        }
    } else {
        assert forall|n: int| 0 <= n <= 0 implies #[trigger] tally(
            Seq::<Token>::empty().subrange(0, n),
        ) == 0 by {
            assert(Seq::<Token>::empty().subrange(0, n).len() == 0);
        }
    }
}

/// No closing token without an open node: in every prefix of the tokens
/// there are at least as many `OpenNode` and `SimpleNode` tokens as
/// `CloseNode` tokens, and the difference at the end is at least the number
/// of names left open. Without `?>` (which pops a name and emits nothing) it
/// is exactly that number, so where the stack ends empty the opening and
/// closing tokens are equal in number.
pub proof fn lemma_closes_never_outrun_opens(units: Seq<LexUnit>)
    ensures
        ({
            let run = tokenize_model(units);
            &&& forall|n: int|
                0 <= n <= run.tokens.len() ==> #[trigger] tally(run.tokens.subrange(0, n)) >= 0
            &&& tally(run.tokens) >= run.state.stack.len()
            &&& (forall|j: int| 0 <= j < units.len() ==> !(#[trigger] units[j] is ImmediateClose))
                ==> tally(run.tokens) == run.state.stack.len()
        }),
{
    lemma_run_tally(units, 0, initial_tok_state());
}


/// A piece of markup as the tokenizer meets it: an opening tag `<n>`, a
/// closing tag `</n>`, a self-closed tag `<n/>` (each with a name that is
/// not blank once trimmed), or a text unit; `Other` for anything else.
pub enum Piece {
    Open(Seq<char>),
    Close(Seq<char>),
    SelfClosed(Seq<char>),
    Text,
    Other,
}

pub open spec fn unit_text(u: LexUnit) -> Seq<char> {
    match u {
        LexUnit::Text(t, _) => t,
        _ => Seq::empty(),
    }
}

/// The piece that starts at unit `i`.
pub open spec fn piece_at(u: Seq<LexUnit>, i: int) -> Piece {
    if i + 2 < u.len() && u[i] is OpenArrow && u[i + 1] is Text && u[i + 2] is CloseArrow
        && trim(unit_text(u[i + 1])).len() > 0 {
        Piece::Open(trim(unit_text(u[i + 1])))
    } else if i + 3 < u.len() && u[i] is OpenArrow && u[i + 1] is CloseFSlash && u[i + 2] is Text
        && u[i + 3] is CloseArrow && trim(unit_text(u[i + 2])).len() > 0 {
        Piece::Close(trim(unit_text(u[i + 2])))
    } else if i + 3 < u.len() && u[i] is OpenArrow && u[i + 1] is Text && u[i + 2] is CloseFSlash
        && u[i + 3] is CloseArrow && trim(unit_text(u[i + 1])).len() > 0 {
        Piece::SelfClosed(trim(unit_text(u[i + 1])))
    } else if 0 <= i < u.len() && u[i] is Text {
        Piece::Text
    } else {
        Piece::Other
    }
}

/// From unit `i` on, with `open` the names opened and not yet closed, the
/// units are pieces; each closing tag names the innermost open node, and
/// every node is closed by the end.
pub open spec fn well_formed_from(u: Seq<LexUnit>, i: int, open: Seq<Seq<char>>) -> bool
    decreases u.len() - i,
{
    if i < 0 {
        false
    } else if i >= u.len() {
        open.len() == 0
    } else {
        match piece_at(u, i) {
            Piece::Open(n) => well_formed_from(u, i + 3, open.push(n)),
            Piece::Close(n) => open.len() > 0 && open.last() == n && well_formed_from(
                u,
                i + 4,
                open.drop_last(),
            ),
            Piece::SelfClosed(_) => well_formed_from(u, i + 4, open),
            Piece::Text => well_formed_from(u, i + 1, open),
            Piece::Other => false,
        }
    }
}

/// Well-formed input for the tokenizer: tags and text only, properly nested.
pub open spec fn well_formed(u: Seq<LexUnit>) -> bool {
    well_formed_from(u, 0, Seq::empty())
}

/// The tokenizer between pieces: no tag under way, no node being named.
pub open spec fn at_rest(st: TokState) -> bool {
    &&& !st.in_node
    &&& !st.in_close
    &&& !st.in_simple
    &&& !st.param_value
    &&& st.current == Seq::<char>::empty()
    &&& forall|k: int| 0 <= k < st.stack.len() ==> (#[trigger] st.stack[k]).len() > 0
}

#[verifier::spinoff_prover]
#[verifier::rlimit(100)]
proof fn lemma_well_formed_run(u: Seq<LexUnit>, i: int, st: TokState)
    requires
        well_formed_from(u, i, st.stack),
        at_rest(st),
    ensures
        nest_from(st.stack, tok_from(u, i, st).tokens) == Some(Seq::<Seq<char>>::empty()),
        tok_from(u, i, st).state.stack.len() == 0,
    decreases u.len() - i,
{
    if i >= u.len() {
        assert(st.stack =~= Seq::<Seq<char>>::empty());
    } else {
        match piece_at(u, i) {
            Piece::Open(n) => {
                let k1 = TokState { in_node: true, ..st };
                assert(tok_step(u, i, st).state == k1);
                assert(tok_step(u, i, st).out =~= Seq::<Token>::empty());
                if st.stack.len() > 0 {
                    assert(st.stack.last().len() > 0);
                }
                let k2 = TokState { stack: st.stack.push(n), current: n, ..k1 };
                assert(tok_step(u, i + 1, k1).state == k2);
                assert(tok_step(u, i + 1, k1).out =~= seq![Token::OpenNode(n)]);
                let k3 = TokState { in_node: false, current: Seq::empty(), ..k2 };
                assert(tok_step(u, i + 2, k2).state == k3);
                assert(tok_step(u, i + 2, k2).out =~= Seq::<Token>::empty());
                assert forall|k: int| 0 <= k < k3.stack.len() implies (#[trigger] k3.stack[k]).len()
                    > 0 by {
                    if k < st.stack.len() {
                        assert(k3.stack[k] == st.stack[k]);
                    }
                }
                lemma_well_formed_run(u, i + 3, k3);
                let rest = tok_from(u, i + 3, k3).tokens;
                assert(tok_from(u, i + 2, k2).tokens =~= rest);
                assert(tok_from(u, i + 1, k1).tokens =~= seq![Token::OpenNode(n)] + rest);
                assert(tok_from(u, i, st).tokens =~= seq![Token::OpenNode(n)] + rest);
                lemma_nest_concat(st.stack, seq![Token::OpenNode(n)], rest);
                lemma_nest_short(st.stack, seq![Token::OpenNode(n)]);
            },
            Piece::Close(n) => {
                assert(tok_step(u, i, st).state == st);
                let k1 = TokState { in_close: true, ..st };
                assert(tok_step(u, i + 1, st).state == k1);
                let k2 = TokState { stack: st.stack.drop_last(), current: st.stack.last(), ..k1 };
                assert(tok_step(u, i + 2, k1).state == k2);
                assert(tok_step(u, i + 2, k1).out =~= seq![Token::CloseNode(n)]);
                let k3 = TokState { in_close: false, current: Seq::empty(), ..k2 };
                assert(tok_step(u, i + 3, k2).state == k3);
                assert forall|k: int| 0 <= k < k3.stack.len() implies (#[trigger] k3.stack[k]).len()
                    > 0 by {
                    assert(k3.stack[k] == st.stack[k]);
                }
                lemma_well_formed_run(u, i + 4, k3);
                let rest = tok_from(u, i + 4, k3).tokens;
                assert(tok_from(u, i + 3, k2).tokens =~= rest);
                assert(tok_from(u, i + 2, k1).tokens =~= seq![Token::CloseNode(n)] + rest);
                assert(tok_from(u, i + 1, st).tokens =~= seq![Token::CloseNode(n)] + rest);
                assert(tok_from(u, i, st).tokens =~= seq![Token::CloseNode(n)] + rest);
                lemma_nest_concat(st.stack, seq![Token::CloseNode(n)], rest);
                lemma_nest_short(st.stack, seq![Token::CloseNode(n)]);
            },
            Piece::SelfClosed(n) => {
                let k1 = TokState { in_node: true, ..st };
                assert(tok_step(u, i, st).state == k1);
                if st.stack.len() > 0 {
                    assert(st.stack.last().len() > 0);
                }
                let k2 = TokState { stack: st.stack.push(n), current: n, ..k1 };
                assert(tok_step(u, i + 1, k1).state == k2);
                assert(tok_step(u, i + 1, k1).out =~= seq![Token::OpenNode(n)]);
                assert(k2.stack.drop_last() =~= st.stack);
                let k3 = TokState { in_node: false, current: n, ..st };
                assert(tok_step(u, i + 2, k2).state == k3);
                assert(tok_step(u, i + 2, k2).out =~= seq![Token::CloseNode(n)]);
                let k4 = TokState { current: Seq::empty(), ..k3 };
                assert(tok_step(u, i + 3, k3).state == k4);
                assert(k4 == st);
                lemma_well_formed_run(u, i + 4, st);
                let rest = tok_from(u, i + 4, st).tokens;
                let both = seq![Token::OpenNode(n), Token::CloseNode(n)];
                assert(tok_from(u, i + 3, k3).tokens =~= rest);
                assert(tok_from(u, i + 2, k2).tokens =~= seq![Token::CloseNode(n)] + rest);
                assert(tok_from(u, i + 1, k1).tokens =~= both + rest);
                assert(tok_from(u, i, st).tokens =~= both + rest);
                lemma_nest_concat(st.stack, both, rest);
                lemma_nest_short(st.stack, both);
                assert(st.stack.push(n).drop_last() =~= st.stack);
            },
            Piece::Text => {
                let step = tok_step(u, i, st);
                assert(step.state == st);
                lemma_well_formed_run(u, i + 1, st);
                let rest = tok_from(u, i + 1, st).tokens;
                assert(tok_from(u, i, st).tokens == step.out + rest);
                lemma_nest_concat(st.stack, step.out, rest);
                lemma_nest_short(st.stack, step.out);
            },
            Piece::Other => {},
        }
    }
}

proof fn lemma_nest_tally(stack: Seq<Seq<char>>, t: Seq<Token>)
    ensures
        nest_from(stack, t) matches Some(r) ==> tally(t) == r.len() - stack.len(),
    decreases t.len(),
{
    if t.len() > 0 {
        lemma_tally_concat(seq![t[0]], t.drop_first());
        assert(seq![t[0]] + t.drop_first() =~= t);
        lemma_tally_short(seq![t[0]]);
        match nest_step(stack, t[0]) {
            Some(s1) => {
                assert(s1.len() - stack.len() == delta(t[0]));
                lemma_nest_tally(s1, t.drop_first());
            },
            None => {},
        }
    }
}

/// Stack balance from well-formed input: where the units are tags and text
/// with every closing tag naming the innermost open node and every node
/// closed, the tokens' opening and closing tokens are properly nested, as
/// many as each other, and the tokenizer's stack ends empty.
pub proof fn lemma_well_formed_input_balances(u: Seq<LexUnit>)
    requires
        well_formed(u),
    ensures
        properly_nested(tokenize_model(u).tokens),
        tokenize_model(u).state.stack.len() == 0,
        tally(tokenize_model(u).tokens) == 0,
{
    let st = initial_tok_state();
    assert(at_rest(st));
    lemma_well_formed_run(u, 0, st);
    lemma_nest_tally(Seq::empty(), tokenize_model(u).tokens);
}

} // verus!
