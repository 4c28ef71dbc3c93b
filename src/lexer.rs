//! The first stage: characters to positioned lexical units.
//!
//! Inside unquoted markup a `/` first flushes the pending text, so that the
//! name in `<tag/>` is read before the self-closing mark, as in `<tag />`.
//! A text unit's span runs from its first character to its last.
//!
//! The behaviour is stated as a state machine over the input characters
//! (`lex_step`, run by `lex_from`); `lex` is proved to produce exactly the
//! units of that run.
use vstd::prelude::*;

use crate::text::{chars_of, push_char};

verus! {

/// Where a lexical unit stands in the source: the 1-based row and column of
/// its first character, and how many characters it covers.
#[derive(Clone, Copy, Debug, Default, PartialEq, Eq, Structural)]
pub struct Span {
    pub row: usize,
    pub column: usize,
    pub length: usize,
}

/// A lexical unit: a markup character or a run of text, with its span.
#[derive(Clone, Debug, PartialEq)]
pub enum Lexicals {
    OpenArrow(Span),
    CloseArrow(Span),
    ImmediateClose(Span),
    CloseFSlash(Span),
    LeftSquareBracket(Span),
    RightSquareBracket(Span),
    Bang(Span),
    Equals(Span),
    DoubleQuote(Span),
    Question(Span),
    Text(String, Span),
}

/// Failures of the lexer. The lexer is total: no input produces one.
#[derive(Clone, Copy, Debug, PartialEq, Eq, Structural)]
pub enum LexError {
    UnterminatedQuote,
    UnterminatedTag,
}

/// The mathematical value of a lexical unit.
pub enum LexUnit {
    OpenArrow(Span),
    CloseArrow(Span),
    ImmediateClose(Span),
    CloseFSlash(Span),
    LeftSquareBracket(Span),
    RightSquareBracket(Span),
    Bang(Span),
    Equals(Span),
    DoubleQuote(Span),
    Question(Span),
    Text(Seq<char>, Span),
}

impl LexUnit {
    pub open spec fn span(self) -> Span {
        match self {
            LexUnit::OpenArrow(s) => s,
            LexUnit::CloseArrow(s) => s,
            LexUnit::ImmediateClose(s) => s,
            LexUnit::CloseFSlash(s) => s,
            LexUnit::LeftSquareBracket(s) => s,
            LexUnit::RightSquareBracket(s) => s,
            LexUnit::Bang(s) => s,
            LexUnit::Equals(s) => s,
            LexUnit::DoubleQuote(s) => s,
            LexUnit::Question(s) => s,
            LexUnit::Text(_, s) => s,
        }
    }
}

impl View for Lexicals {
    type V = LexUnit;

    open spec fn view(&self) -> LexUnit {
        match self {
            Lexicals::OpenArrow(s) => LexUnit::OpenArrow(*s),
            Lexicals::CloseArrow(s) => LexUnit::CloseArrow(*s),
            Lexicals::ImmediateClose(s) => LexUnit::ImmediateClose(*s),
            Lexicals::CloseFSlash(s) => LexUnit::CloseFSlash(*s),
            Lexicals::LeftSquareBracket(s) => LexUnit::LeftSquareBracket(*s),
            Lexicals::RightSquareBracket(s) => LexUnit::RightSquareBracket(*s),
            Lexicals::Bang(s) => LexUnit::Bang(*s),
            Lexicals::Equals(s) => LexUnit::Equals(*s),
            Lexicals::DoubleQuote(s) => LexUnit::DoubleQuote(*s),
            Lexicals::Question(s) => LexUnit::Question(*s),
            Lexicals::Text(t, s) => LexUnit::Text(t@, *s),
        }
    }
}

pub open spec fn unit_views(v: Seq<Lexicals>) -> Seq<LexUnit> {
    v.map_values(|u: Lexicals| u@)
}

/// The row of character `i`: one more than the newlines before it.
pub open spec fn row_at(chars: Seq<char>, i: int) -> nat
    decreases i,
{
    if i <= 0 {
        1
    } else if chars[i - 1] == '\n' {
        row_at(chars, i - 1) + 1
    } else {
        row_at(chars, i - 1)
    }
}

/// The column of character `i`: 1 for the first character of the input and
/// for the first character after each newline, one more for each next one.
pub open spec fn column_at(chars: Seq<char>, i: int) -> nat
    decreases i,
{
    if i <= 0 {
        1
    } else if chars[i - 1] == '\n' {
        1
    } else {
        column_at(chars, i - 1) + 1
    }
}

pub open spec fn span_of(chars: Seq<char>, start: int, length: int) -> Span {
    Span {
        row: row_at(chars, start) as usize,
        column: column_at(chars, start) as usize,
        length: length as usize,
    }
}

/// A unit of the model together with the index of its first character.
pub struct Placed {
    pub unit: LexUnit,
    pub start: int,
}

pub open spec fn units_of(p: Seq<Placed>) -> Seq<LexUnit> {
    p.map_values(|x: Placed| x.unit)
}

/// The lexer's modes and its pending text run.
pub struct LexState {
    pub in_tag: bool,
    pub in_bracket: bool,
    pub in_decl: bool,
    pub naming: bool,
    pub in_quote: bool,
    pub pending: Seq<char>,
    /// The index of the pending text's first character.
    pub text_start: int,
    /// One past the index of the pending text's last character.
    pub text_end: int,
}

pub open spec fn initial_lex_state() -> LexState {
    LexState {
        in_tag: false,
        in_bracket: false,
        in_decl: false,
        naming: false,
        in_quote: false,
        pending: Seq::empty(),
        text_start: 0,
        text_end: 0,
    }
}

/// What one step of the lexer does: the new state, the units it emits, and
/// the index of the next character to read.
pub struct LexStep {
    pub state: LexState,
    pub out: Seq<Placed>,
    pub next: int,
}

pub open spec fn placed(unit: LexUnit, start: int) -> Placed {
    Placed { unit, start }
}

/// The pending text, if any, as a unit, flushed by the character at index
/// `i`. Its span runs from its first to its last character: a newline
/// between them is covered, the delimiter and what went unread before it
/// are not.
pub open spec fn flush_out(chars: Seq<char>, st: LexState, i: int) -> Seq<Placed> {
    if st.pending.len() > 0 {
        seq![
            placed(
                LexUnit::Text(
                    st.pending,
                    span_of(chars, st.text_start, st.text_end - st.text_start),
                ),
                st.text_start,
            ),
        ]
    } else {
        Seq::empty()
    }
}

pub open spec fn cleared(st: LexState) -> LexState {
    LexState { pending: Seq::empty(), ..st }
}

/// `st` with `c`, read at index `i`, added to the pending text.
pub open spec fn accumulate(st: LexState, c: char, i: int) -> LexState {
    LexState {
        pending: st.pending.push(c),
        text_start: if st.pending.len() == 0 {
            i
        } else {
            st.text_start
        },
        text_end: i + 1,
        ..st
    }
}

pub open spec fn step_to(state: LexState, out: Seq<Placed>, next: int) -> LexStep {
    LexStep { state, out, next }
}

pub open spec fn marker(unit: LexUnit, i: int) -> Seq<Placed> {
    seq![placed(unit, i)]
}

/// `<`: flushes the pending text and opens a tag; `</` also emits the slash.
pub open spec fn step_open(chars: Seq<char>, i: int, st: LexState) -> LexStep {
    let has_next = i + 1 < chars.len();
    let s1 = LexState {
        in_tag: true,
        in_decl: st.in_decl || (has_next && chars[i + 1] == '?'),
        naming: true,
        ..st
    };
    let texts = flush_out(chars, s1, i);
    if has_next && chars[i + 1] == '/' {
        step_to(
            cleared(s1),
            texts + marker(LexUnit::OpenArrow(span_of(chars, i, 1)), i) + marker(
                LexUnit::CloseFSlash(span_of(chars, i + 1, 1)),
                i + 1,
            ),
            i + 2,
        )
    } else {
        step_to(cleared(s1), texts + marker(LexUnit::OpenArrow(span_of(chars, i, 1)), i), i + 1)
    }
}

/// `?>` closes a declaration; a lone `?` is a unit of its own.
pub open spec fn step_question(chars: Seq<char>, i: int, st: LexState) -> LexStep {
    if i + 1 < chars.len() && chars[i + 1] == '>' {
        step_to(
            LexState { in_decl: false, ..st },
            marker(LexUnit::ImmediateClose(span_of(chars, i, 2)), i),
            i + 2,
        )
    } else {
        step_to(st, marker(LexUnit::Question(span_of(chars, i, 1)), i), i + 1)
    }
}

/// `>`: inside a tag, flushes the pending text and leaves the tag.
pub open spec fn step_close(chars: Seq<char>, i: int, st: LexState) -> LexStep {
    let arrow = marker(LexUnit::CloseArrow(span_of(chars, i, 1)), i);
    if st.in_tag {
        step_to(
            LexState { in_tag: false, naming: false, ..cleared(st) },
            flush_out(chars, st, i) + arrow,
            i + 1,
        )
    } else {
        step_to(LexState { naming: false, ..st }, arrow, i + 1)
    }
}

/// `[` and `]`: enter and leave a bracket block, flushing the pending text.
pub open spec fn step_bracket(chars: Seq<char>, i: int, st: LexState, left: bool) -> LexStep {
    let s1 = if left && st.in_tag {
        LexState { in_tag: false, in_bracket: true, ..st }
    } else if !left && st.in_bracket {
        LexState { in_bracket: false, in_tag: true, ..st }
    } else {
        st
    };
    let unit = if left {
        LexUnit::LeftSquareBracket(span_of(chars, i, 1))
    } else {
        LexUnit::RightSquareBracket(span_of(chars, i, 1))
    };
    step_to(cleared(s1), flush_out(chars, s1, i) + marker(unit, i), i + 1)
}

/// `=`: separates a pending name from its value inside markup; text elsewhere.
pub open spec fn step_equals(chars: Seq<char>, i: int, st: LexState) -> LexStep {
    if !st.in_quote && (st.in_tag || st.in_bracket || st.in_decl) && st.pending.len() > 0 {
        step_to(
            cleared(st),
            flush_out(chars, st, i) + marker(LexUnit::Equals(span_of(chars, i, 1)), i),
            i + 1,
        )
    } else {
        step_to(accumulate(st, chars[i], i), Seq::empty(), i + 1)
    }
}

/// `"`: toggles quoting; inside markup it first flushes the pending text.
pub open spec fn step_quote(chars: Seq<char>, i: int, st: LexState) -> LexStep {
    let s1 = LexState { in_quote: !st.in_quote, ..st };
    let quote = marker(LexUnit::DoubleQuote(span_of(chars, i, 1)), i);
    if (st.in_tag || st.in_decl) && st.pending.len() > 0 {
        step_to(cleared(s1), flush_out(chars, s1, i) + quote, i + 1)
    } else {
        step_to(s1, quote, i + 1)
    }
}

/// `/`: inside unquoted markup, a self-closing mark that first flushes the
/// pending text (the tag's name, in `<tag/>`) and ends the name; text elsewhere.
pub open spec fn step_slash(chars: Seq<char>, i: int, st: LexState) -> LexStep {
    if !st.in_quote && (st.in_tag || st.in_decl) {
        step_to(
            LexState { naming: false, ..cleared(st) },
            flush_out(chars, st, i) + marker(LexUnit::CloseFSlash(span_of(chars, i, 1)), i),
            i + 1,
        )
    } else {
        step_to(accumulate(st, chars[i], i), Seq::empty(), i + 1)
    }
}

/// Any other character. A newline only moves the position; a space ends a
/// tag's name; everything else joins the pending text.
pub open spec fn step_plain(chars: Seq<char>, i: int, st: LexState) -> LexStep {
    let c = chars[i];
    if c == '\n' {
        step_to(st, Seq::empty(), i + 1)
    } else if c == ' ' && !st.in_quote && st.naming {
        step_to(LexState { naming: false, ..cleared(st) }, flush_out(chars, st, i), i + 1)
    } else {
        step_to(accumulate(st, c, i), Seq::empty(), i + 1)
    }
}

/// One step of the lexer on the character at index `i`.
pub open spec fn lex_step(chars: Seq<char>, i: int, st: LexState) -> LexStep {
    let c = chars[i];
    if c == '<' {
        step_open(chars, i, st)
    } else if c == '?' {
        step_question(chars, i, st)
    } else if c == '>' {
        step_close(chars, i, st)
    } else if c == '[' {
        step_bracket(chars, i, st, true)
    } else if c == ']' {
        step_bracket(chars, i, st, false)
    } else if c == '!' {
        step_to(st, marker(LexUnit::Bang(span_of(chars, i, 1)), i), i + 1)
    } else if c == '=' {
        step_equals(chars, i, st)
    } else if c == '"' {
        step_quote(chars, i, st)
    } else if c == '/' {
        step_slash(chars, i, st)
    } else {
        step_plain(chars, i, st)
    }
}

/// The units emitted from index `i` on, starting in state `st`. Text still
/// pending at the end of the input is dropped.
pub open spec fn lex_from(chars: Seq<char>, i: int, st: LexState) -> Seq<Placed>
    decreases chars.len() - i,
{
    if i < 0 || i >= chars.len() {
        Seq::empty()
    } else {
        let step = lex_step(chars, i, st);
        if step.next <= i {
            Seq::empty()
        } else {
            step.out + lex_from(chars, step.next, step.state)
        }
    }
}

/// The units of the whole input, each with the index of its first character.
pub open spec fn lex_model(chars: Seq<char>) -> Seq<Placed> {
    lex_from(chars, 0, initial_lex_state())
}

/// What `lex` returns on `chars`.
pub open spec fn lex_units(chars: Seq<char>) -> Seq<LexUnit> {
    units_of(lex_model(chars))
}


/// The lexer's modes, its pending text and where that text began.
struct LexCursor {
    in_tag: bool,
    in_bracket: bool,
    in_decl: bool,
    naming: bool,
    in_quote: bool,
    pending: String,
    text_start: usize,
    text_end: usize,
    text_row: usize,
    text_col: usize,
}

impl LexCursor {
    spec fn model(&self) -> LexState {
        LexState {
            in_tag: self.in_tag,
            in_bracket: self.in_bracket,
            in_decl: self.in_decl,
            naming: self.naming,
            in_quote: self.in_quote,
            pending: self.pending@,
            text_start: self.text_start as int,
            text_end: self.text_end as int,
        }
    }

    /// The pending text began before index `i`, at the recorded position.
    spec fn wf(&self, chars: Seq<char>, i: int) -> bool {
        &&& self.text_start <= i
        &&& self.text_end <= i
        &&& self.pending@.len() > 0 ==> {
            &&& self.text_start < self.text_end
            &&& self.text_row == row_at(chars, self.text_start as int)
            &&& self.text_col == column_at(chars, self.text_start as int)
        }
    }

    /// Emits the pending text, if any, as a unit that ends at its last character.
    fn flush(&mut self, chars: &Vec<char>, i: usize, out: &mut Vec<Lexicals>)
        requires
            old(self).wf(chars@, i as int),
        ensures
            final(self).model() == cleared(old(self).model()),
            final(self).text_row == old(self).text_row,
            final(self).text_col == old(self).text_col,
            final(self).wf(chars@, i as int),
            unit_views(final(out)@) == unit_views(old(out)@) + units_of(
                flush_out(chars@, old(self).model(), i as int),
            ),
    {
        let ghost before = out@;
        if !self.pending.as_str().is_empty() {
            let mut text = String::new();
            std::mem::swap(&mut text, &mut self.pending);
            let span = Span {
                row: self.text_row,
                column: self.text_col,
                length: self.text_end - self.text_start,
            };
            out.push(Lexicals::Text(text, span));
            proof {
                lemma_unit_views_push(before, Lexicals::Text(text, span));
                let f = flush_out(chars@, old(self).model(), i as int);
                assert(units_of(f) =~= seq![LexUnit::Text(text@, span)]);
            }
        } else {
            assert(units_of(flush_out(chars@, old(self).model(), i as int)) =~= Seq::empty());
            assert(self.pending@ =~= Seq::empty());
        }
    }

    /// Adds `c`, read at index `i` (row `row`, column `col`), to the pending text.
    fn accumulate(&mut self, chars: &Vec<char>, c: char, i: usize, row: usize, col: usize)
        requires
            i < chars@.len() < usize::MAX,
            old(self).wf(chars@, i as int),
            row == row_at(chars@, i as int),
            col == column_at(chars@, i as int),
        ensures
            final(self).model() == accumulate(old(self).model(), c, i as int),
            final(self).wf(chars@, i + 1),
    {
        if self.pending.as_str().is_empty() {
            self.text_start = i;
            self.text_row = row;
            self.text_col = col;
        }
        self.text_end = i + 1;
        push_char(&mut self.pending, c);
    }

    /// Pushes `unit`, which stands at index `i`, after what `flush` emitted.
    proof fn lemma_after_flush(
        before: Seq<Lexicals>,
        after: Seq<Lexicals>,
        texts: Seq<Placed>,
        unit: Lexicals,
        i: int,
    )
        requires
            unit_views(after) == unit_views(before) + units_of(texts),
        ensures
            unit_views(after.push(unit)) == unit_views(before) + units_of(
                texts + marker(unit@, i),
            ),
    {
        lemma_unit_views_push(after, unit);
        lemma_units_of_concat(texts, marker(unit@, i));
        assert(units_of(marker(unit@, i)) =~= seq![unit@]);
        assert(unit_views(after).push(unit@) =~= unit_views(before) + units_of(texts) + seq![
            unit@,
        ]);
    }

    fn step_open(&mut self, chars: &Vec<char>, i: usize, row: usize, col: usize, out: &mut Vec<Lexicals>) -> (next: usize)
        requires
            i < chars@.len() < usize::MAX,
            old(self).wf(chars@, i as int),
            row == row_at(chars@, i as int),
            col == column_at(chars@, i as int),
            chars@[i as int] == '<',
        ensures
            ({
                let st = step_open(chars@, i as int, old(self).model());
                &&& final(self).model() == st.state
                &&& next == st.next
                &&& unit_views(final(out)@) == unit_views(old(out)@) + units_of(st.out)
            }),
            i < next <= chars@.len(),
            final(self).wf(chars@, next as int),
    {
        let ghost chs = chars@;
        let ghost before = out@;
        proof {
            lemma_position_bounds(chs, i as int);
        }
        let has_next = i + 1 < chars.len();
        self.in_tag = true;
        if has_next && chars[i + 1] == '?' {
            self.in_decl = true;
        }
        self.naming = true;
        let ghost s1 = self.model();
        self.flush(chars, i, out);
        let ghost mid = out@;
        let here = Span { row, column: col, length: 1 };
        out.push(Lexicals::OpenArrow(here));
        proof {
            Self::lemma_after_flush(before, mid, flush_out(chs, s1, i as int), Lexicals::OpenArrow(here), i as int);
        }
        if has_next && chars[i + 1] == '/' {
            let ghost mid2 = out@;
            let slash = Span { row, column: col + 1, length: 1 };
            out.push(Lexicals::CloseFSlash(slash));
            proof {
                assert(column_at(chs, i + 1) == col + 1);
                assert(row_at(chs, i + 1) == row);
                Self::lemma_after_flush(
                    before,
                    mid2,
                    flush_out(chs, s1, i as int) + marker(LexUnit::OpenArrow(here), i as int),
                    Lexicals::CloseFSlash(slash),
                    i + 1,
                );
            }
            i + 2
        } else {
            i + 1
        }
    }

    fn step_close(&mut self, chars: &Vec<char>, i: usize, row: usize, col: usize, out: &mut Vec<Lexicals>)
        requires
            i < chars@.len() < usize::MAX,
            old(self).wf(chars@, i as int),
            row == row_at(chars@, i as int),
            col == column_at(chars@, i as int),
        ensures
            ({
                let st = step_close(chars@, i as int, old(self).model());
                &&& final(self).model() == st.state
                &&& unit_views(final(out)@) == unit_views(old(out)@) + units_of(st.out)
            }),
            final(self).wf(chars@, i + 1),
    {
        let ghost chs = chars@;
        let ghost st = self.model();
        let ghost before = out@;
        let here = Span { row, column: col, length: 1 };
        if self.in_tag {
            self.flush(chars, i, out);
            self.in_tag = false;
        } else {
            assert(unit_views(out@) =~= unit_views(before) + units_of(Seq::<Placed>::empty()));
            assert(Seq::<Placed>::empty() + marker(LexUnit::CloseArrow(here), i as int) =~= marker(LexUnit::CloseArrow(here), i as int));
        }
        self.naming = false;
        let ghost mid = out@;
        out.push(Lexicals::CloseArrow(here));
        proof {
            let texts = if st.in_tag { flush_out(chs, st, i as int) } else { Seq::<Placed>::empty() };
            Self::lemma_after_flush(before, mid, texts, Lexicals::CloseArrow(here), i as int);
        }
    }

    fn step_bracket(&mut self, chars: &Vec<char>, i: usize, row: usize, col: usize, left: bool, out: &mut Vec<Lexicals>)
        requires
            i < chars@.len() < usize::MAX,
            old(self).wf(chars@, i as int),
            row == row_at(chars@, i as int),
            col == column_at(chars@, i as int),
        ensures
            ({
                let st = step_bracket(chars@, i as int, old(self).model(), left);
                &&& final(self).model() == st.state
                &&& unit_views(final(out)@) == unit_views(old(out)@) + units_of(st.out)
            }),
            final(self).wf(chars@, i + 1),
    {
        let ghost chs = chars@;
        let ghost before = out@;
        if left && self.in_tag {
            self.in_tag = false;
            self.in_bracket = true;
        } else if !left && self.in_bracket {
            self.in_bracket = false;
            self.in_tag = true;
        }
        let ghost s1 = self.model();
        self.flush(chars, i, out);
        let ghost mid = out@;
        let here = Span { row, column: col, length: 1 };
        let unit = if left {
            Lexicals::LeftSquareBracket(here)
        } else {
            Lexicals::RightSquareBracket(here)
        };
        out.push(unit);
        proof {
            Self::lemma_after_flush(before, mid, flush_out(chs, s1, i as int), unit, i as int);
        }
    }

    fn step_equals(&mut self, chars: &Vec<char>, i: usize, row: usize, col: usize, out: &mut Vec<Lexicals>)
        requires
            i < chars@.len() < usize::MAX,
            old(self).wf(chars@, i as int),
            row == row_at(chars@, i as int),
            col == column_at(chars@, i as int),
            chars@[i as int] == '=',
        ensures
            ({
                let st = step_equals(chars@, i as int, old(self).model());
                &&& final(self).model() == st.state
                &&& unit_views(final(out)@) == unit_views(old(out)@) + units_of(st.out)
            }),
            final(self).wf(chars@, i + 1),
    {
        let ghost chs = chars@;
        let ghost st = self.model();
        let ghost before = out@;
        if !self.in_quote && (self.in_tag || self.in_bracket || self.in_decl)
            && !self.pending.as_str().is_empty() {
            self.flush(chars, i, out);
            let ghost mid = out@;
            let here = Span { row, column: col, length: 1 };
            out.push(Lexicals::Equals(here));
            proof {
                Self::lemma_after_flush(before, mid, flush_out(chs, st, i as int), Lexicals::Equals(here), i as int);
            }
        } else {
            self.accumulate(chars, '=', i, row, col);
            assert(unit_views(out@) =~= unit_views(before) + units_of(Seq::<Placed>::empty()));
        }
    }

    fn step_quote(&mut self, chars: &Vec<char>, i: usize, row: usize, col: usize, out: &mut Vec<Lexicals>)
        requires
            i < chars@.len() < usize::MAX,
            old(self).wf(chars@, i as int),
            row == row_at(chars@, i as int),
            col == column_at(chars@, i as int),
        ensures
            ({
                let st = step_quote(chars@, i as int, old(self).model());
                &&& final(self).model() == st.state
                &&& unit_views(final(out)@) == unit_views(old(out)@) + units_of(st.out)
            }),
            final(self).wf(chars@, i + 1),
    {
        let ghost chs = chars@;
        let ghost before = out@;
        let flushing = (self.in_tag || self.in_decl) && !self.pending.as_str().is_empty();
        self.in_quote = !self.in_quote;
        let ghost s1 = self.model();
        let here = Span { row, column: col, length: 1 };
        if flushing {
            self.flush(chars, i, out);
        } else {
            assert(unit_views(out@) =~= unit_views(before) + units_of(Seq::<Placed>::empty()));
            assert(Seq::<Placed>::empty() + marker(LexUnit::DoubleQuote(here), i as int) =~= marker(LexUnit::DoubleQuote(here), i as int));
        }
        let ghost mid = out@;
        out.push(Lexicals::DoubleQuote(here));
        proof {
            let texts = if flushing { flush_out(chs, s1, i as int) } else { Seq::<Placed>::empty() };
            Self::lemma_after_flush(before, mid, texts, Lexicals::DoubleQuote(here), i as int);
        }
    }

    /// One step on the character at index `i`, which stands at row `row` and
    /// column `col`; returns the index of the next character to read.
    fn step(&mut self, chars: &Vec<char>, i: usize, row: usize, col: usize, out: &mut Vec<Lexicals>) -> (next: usize)
        requires
            i < chars@.len() < usize::MAX,
            old(self).wf(chars@, i as int),
            row == row_at(chars@, i as int),
            col == column_at(chars@, i as int),
        ensures
            ({
                let st = lex_step(chars@, i as int, old(self).model());
                &&& final(self).model() == st.state
                &&& next == st.next
                &&& unit_views(final(out)@) == unit_views(old(out)@) + units_of(st.out)
            }),
            i < next <= chars@.len(),
            final(self).wf(chars@, next as int),
    {
        let ghost before = out@;
        let ghost st = self.model();
        let c = chars[i];
        let here = Span { row, column: col, length: 1 };
        if c == '<' {
            self.step_open(chars, i, row, col, out)
        } else if c == '?' {
            if i + 1 < chars.len() && chars[i + 1] == '>' {
                self.in_decl = false;
                out.push(Lexicals::ImmediateClose(Span { row, column: col, length: 2 }));
                proof {
                    lemma_unit_views_push(before, Lexicals::ImmediateClose(Span { row, column: col, length: 2 }));
                    assert(units_of(lex_step(chars@, i as int, st).out) =~= seq![LexUnit::ImmediateClose(Span { row, column: col, length: 2 })]);
                }
                i + 2
            } else {
                out.push(Lexicals::Question(here));
                proof {
                    lemma_unit_views_push(before, Lexicals::Question(here));
                    assert(units_of(lex_step(chars@, i as int, st).out) =~= seq![LexUnit::Question(here)]);
                }
                i + 1
            }
        } else if c == '>' {
            self.step_close(chars, i, row, col, out);
            i + 1
        } else if c == '[' {
            self.step_bracket(chars, i, row, col, true, out);
            i + 1
        } else if c == ']' {
            self.step_bracket(chars, i, row, col, false, out);
            i + 1
        } else if c == '!' {
            out.push(Lexicals::Bang(here));
            proof {
                lemma_unit_views_push(before, Lexicals::Bang(here));
                assert(units_of(lex_step(chars@, i as int, st).out) =~= seq![LexUnit::Bang(here)]);
            }
            i + 1
        } else if c == '=' {
            self.step_equals(chars, i, row, col, out);
            i + 1
        } else if c == '"' {
            self.step_quote(chars, i, row, col, out);
            i + 1
        } else if c == '/' {
            if !self.in_quote && (self.in_tag || self.in_decl) {
                self.flush(chars, i, out);
                self.naming = false;
                let ghost mid = out@;
                out.push(Lexicals::CloseFSlash(here));
                proof {
                    Self::lemma_after_flush(
                        before,
                        mid,
                        flush_out(chars@, st, i as int),
                        Lexicals::CloseFSlash(here),
                        i as int,
                    );
                }
            } else {
                self.accumulate(chars, c, i, row, col);
                assert(unit_views(out@) =~= unit_views(before) + units_of(Seq::<Placed>::empty()));
            }
            i + 1
        } else if c == '\n' {
            assert(unit_views(out@) =~= unit_views(before) + units_of(Seq::<Placed>::empty()));
            i + 1
        } else if c == ' ' && !self.in_quote && self.naming {
            self.flush(chars, i, out);
            self.naming = false;
            i + 1
        } else {
            self.accumulate(chars, c, i, row, col);
            assert(unit_views(out@) =~= unit_views(before) + units_of(Seq::<Placed>::empty()));
            i + 1
        }
    }
}

proof fn lemma_unit_views_push(v: Seq<Lexicals>, u: Lexicals)
    ensures
        unit_views(v.push(u)) == unit_views(v).push(u@),
{
    assert(unit_views(v.push(u)) =~= unit_views(v).push(u@));
}

proof fn lemma_units_of_concat(a: Seq<Placed>, b: Seq<Placed>)
    ensures
        units_of(a + b) == units_of(a) + units_of(b),
{
    assert(units_of(a + b) =~= units_of(a) + units_of(b));
}

/// Splits `stream` into lexical units, left to right, with no backtracking.
pub fn lex(stream: &str) -> (r: Result<Vec<Lexicals>, LexError>)
    requires
        stream@.len() < usize::MAX,
    ensures
        r matches Ok(units) && unit_views(units@) == lex_units(stream@),
{
    let chars = chars_of(stream);
    let n = chars.len();
    let mut cur = LexCursor {
        in_tag: false,
        in_bracket: false,
        in_decl: false,
        naming: false,
        in_quote: false,
        pending: String::new(),
        text_start: 0,
        text_end: 0,
        text_row: 1,
        text_col: 1,
    };
    let mut out: Vec<Lexicals> = Vec::new();
    let mut i: usize = 0;
    let mut row: usize = 1;
    let mut col: usize = 1;
    let ghost mut done: Seq<Placed> = Seq::empty();
    assert(cur.model() == initial_lex_state());
    assert(unit_views(out@) =~= units_of(done));
    assert(done + lex_from(chars@, 0, cur.model()) =~= lex_model(chars@));
    while i < n
        invariant
            n == chars@.len() < usize::MAX,
            chars@ == stream@,
            i <= n,
            row == row_at(chars@, i as int),
            col == column_at(chars@, i as int),
            cur.wf(chars@, i as int),
            unit_views(out@) == units_of(done),
            done + lex_from(chars@, i as int, cur.model()) == lex_model(chars@),
        decreases n - i,
    {
        let ghost st = cur.model();
        let ghost step = lex_step(chars@, i as int, st);
        let next = cur.step(&chars, i, row, col, &mut out);
        proof {
            lemma_units_of_concat(done, step.out);
            assert(done + lex_from(chars@, i as int, st) == done + (step.out + lex_from(
                chars@,
                step.next,
                step.state,
            )));
            assert(done + (step.out + lex_from(chars@, step.next, step.state)) =~= (done
                + step.out) + lex_from(chars@, step.next, step.state));
            done = done + step.out;
            lemma_position_bounds(chars@, i + 1);
        }
        if chars[i] == '\n' {
            row = row + 1;
            col = 1;
        } else {
            col = col + 1;
        }
        i = i + 1;
        if i < next {
            proof {
                lemma_position_bounds(chars@, i + 1);
            }
            col = col + 1;
            i = i + 1;
        }
    }
    proof {
        assert(done + lex_from(chars@, i as int, cur.model()) =~= done);
    }
    Ok(out)
}

pub proof fn lemma_position_bounds(chars: Seq<char>, i: int)
    requires
        0 <= i,
    ensures
        1 <= row_at(chars, i) <= i + 1,
        1 <= column_at(chars, i) <= i + 1,
    decreases i,
{
    if i > 0 {
        lemma_position_bounds(chars, i - 1);
    }
}

} // verus!
