//! The order in which tokens are returned.

use crate::grammar;
use crate::indent;
use crate::laws;
use crate::state::LexerView;
use crate::state::Turn;
use crate::string_literal;
use crate::string_literal::StringStep;
use crate::text;
use crate::token::Token;
use crate::token::TokenView;
use vstd::prelude::*;

verus! {

/// Whether what waits is in order behind a token that starts at `begin`.
spec fn is_ordered(st: LexerView, begin: int) -> bool {
    &&& begin <= st.end
    &&& forall|i: int|
        0 <= i < st.buffer.len() && #[trigger] st.buffer[i] is Token ==> begin
            <= st.buffer[i].begin() <= st.end
    &&& forall|i: int, j: int|
        0 <= i < st.buffer.len() && 0 <= j < st.buffer.len() && #[trigger] st.buffer[i] is Token
            && #[trigger] st.buffer[j] is Token ==> st.buffer[i].begin() == st.buffer[j].begin()
}

proof fn lemma_turn_order(st: LexerView, begin: int)
    requires
        laws::is_valid(st),
        is_ordered(st, begin),
    ensures
        match st.turn() {
            Turn::Again(new) => is_ordered(new, begin),
            Turn::Return(new, Some(lexeme)) => if lexeme is Token {
                begin <= lexeme.begin() && is_ordered(new, lexeme.begin())
            } else {
                is_ordered(new, begin)
            },
            _ => true,
        },
{
    laws::lemma_turn(st);
    if st.buffer.len() == 0 && !st.done {
        let raw = grammar::raw_next(st.rest, st.end);
        grammar::lemma_raw_next(st.rest, st.end);
        grammar::lemma_quote_size(st.rest, st.end);
        let at = st.behind(raw);
        if let Some(token) = raw.token {
            if token == TokenView::Plain(Token::Newline) {
                indent::lemma_margin(at.rest);
            } else if token == TokenView::Plain(Token::RawSingleQuote) {
                laws::lemma_string(at, '\'');
            } else if token == TokenView::Plain(Token::RawDoubleQuote) {
                laws::lemma_string(at, '"');
            }
        }
    }
}

proof fn lemma_next_order(st: LexerView, begin: int)
    requires
        laws::is_valid(st),
        is_ordered(st, begin),
    ensures
        st.next() matches (new, Some(lexeme)) ==> if lexeme is Token {
            begin <= lexeme.begin() && is_ordered(new, lexeme.begin())
        } else {
            is_ordered(new, begin)
        },
    decreases st.rest.len(),
{
    laws::lemma_turn(st);
    lemma_turn_order(st, begin);
    if let Turn::Again(new) = st.turn() {
        lemma_next_order(new, begin);
    }
}

proof fn lemma_run_order(st: LexerView, begin: int)
    requires
        laws::is_valid(st),
        is_ordered(st, begin),
    ensures
        forall|i: int|
            0 <= i < laws::lexemes(st).len() && #[trigger] laws::lexemes(st)[i] is Token ==> begin
                <= laws::lexemes(st)[i].begin(),
        forall|i: int, j: int|
            0 <= i < j < laws::lexemes(st).len() && #[trigger] laws::lexemes(st)[i] is Token
                && #[trigger] laws::lexemes(st)[j] is Token ==> laws::lexemes(st)[i].begin()
                <= laws::lexemes(st)[j].begin(),
    decreases (if st.done { 0nat } else { 1nat }), st.rest.len(), st.buffer.len(),
{
    laws::law_next_makes_progress(st);
    laws::law_next_keeps_state_valid(st);
    lemma_next_order(st, begin);
    if let (new, Some(lexeme)) = st.next() {
        let all = laws::lexemes(st);
        let others = laws::lexemes(new);
        let bound = if lexeme is Token {
            lexeme.begin()
        } else {
            begin
        };
        lemma_run_order(new, bound);
        assert forall|i: int| 0 <= i < all.len() && #[trigger] all[i] is Token implies begin
            <= all[i].begin() by {
            if i > 0 {
                assert(all[i] == others[i - 1]);
            }
        }
        assert forall|i: int, j: int|
            0 <= i < j < all.len() && #[trigger] all[i] is Token
                && #[trigger] all[j] is Token implies all[i].begin() <= all[j].begin() by {
            assert(all[j] == others[j - 1]);
            if i > 0 {
                assert(all[i] == others[i - 1]);
            }
        }
    }
}

/// Tokens are returned in the order in which they start in the text.
pub proof fn law_tokens_come_in_order(input: Seq<char>, tabs: bool, i: int, j: int)
    requires
        0 <= i < j < laws::lexemes(LexerView::initial(input, tabs)).len(),
        laws::lexemes(LexerView::initial(input, tabs))[i] is Token,
        laws::lexemes(LexerView::initial(input, tabs))[j] is Token,
    ensures
        laws::lexemes(LexerView::initial(input, tabs))[i].begin() <= laws::lexemes(
            LexerView::initial(input, tabs),
        )[j].begin(),
{
    let st = LexerView::initial(input, tabs);
    laws::law_initial_is_valid(input, tabs);
    indent::lemma_margin(input);
    assert(is_ordered(st, 0)) by {
        laws::lemma_calculate_indent(LexerView::fresh(input, tabs));
    }
    lemma_run_order(st, 0);
}

/// Whether what waits stands apart, behind a token that ends at `end`, and the text that is still to
/// be read has no carriage return.
spec fn is_apart(st: LexerView, end: int) -> bool {
    &&& !st.rest.contains('\r')
    &&& end <= st.end
    &&& forall|i: int|
        0 <= i < st.buffer.len() && #[trigger] st.buffer[i] is Token ==> end
            <= st.buffer[i].begin() && st.buffer[i].end() <= st.end
    &&& forall|i: int, j: int|
        0 <= i < j < st.buffer.len() && #[trigger] st.buffer[i] is Token
            && #[trigger] st.buffer[j] is Token ==> st.buffer[i].end() <= st.buffer[j].begin()
}

/// The end of a text without carriage returns has none.
proof fn lemma_no_return(s: Seq<char>, n: int)
    requires
        !s.contains('\r'),
        0 <= n <= s.len(),
    ensures
        !s.skip(n).contains('\r'),
{
    let tail = s.skip(n);
    assert forall|i: int| 0 <= i < tail.len() implies tail[i] != '\r' by {
        assert(tail[i] == s[i + n]);
        assert(s.contains(s[i + n]));
    }
}

proof fn lemma_turn_apart(st: LexerView, end: int)
    requires
        laws::is_valid(st),
        is_apart(st, end),
    ensures
        match st.turn() {
            Turn::Again(new) => is_apart(new, end),
            Turn::Return(new, Some(lexeme)) => if lexeme is Token {
                end <= lexeme.begin() && is_apart(new, lexeme.end())
            } else {
                is_apart(new, end)
            },
            _ => true,
        },
{
    laws::lemma_turn(st);
    if st.buffer.len() == 0 && !st.done {
        let raw = grammar::raw_next(st.rest, st.end);
        grammar::lemma_raw_next(st.rest, st.end);
        grammar::lemma_quote_size(st.rest, st.end);
        grammar::lemma_newline_size(st.rest, st.end);
        lemma_no_return(st.rest, st.rest.len() - raw.rest.len());
        let at = st.behind(raw);
        if let Some(token) = raw.token {
            if token == TokenView::Plain(Token::Newline) {
                indent::lemma_margin(at.rest);
                lemma_no_return(at.rest, indent::margin(at.rest).len as int);
            } else if token == TokenView::Plain(Token::RawSingleQuote) {
                laws::lemma_string(at, '\'');
                lemma_string_apart(at, '\'');
            } else if token == TokenView::Plain(Token::RawDoubleQuote) {
                laws::lemma_string(at, '"');
                lemma_string_apart(at, '"');
            }
        }
    }
}

proof fn lemma_string_apart(st: LexerView, quote: char)
    requires
        quote == '\'' || quote == '"',
        !st.rest.contains('\r'),
    ensures
        !st.string(quote).0.rest.contains('\r'),
{
    let q = st.quoting(quote);
    let begin = st.start + if q.raw {
        1nat
    } else {
        0nat
    };
    string_literal::lemma_string_step(q, st.rest, begin);
    if let StringStep::Literal { len, .. } = string_literal::string_step(q, st.rest, begin) {
        lemma_no_return(st.rest, len as int);
    }
}

proof fn lemma_next_apart(st: LexerView, end: int)
    requires
        laws::is_valid(st),
        is_apart(st, end),
    ensures
        st.next() matches (new, Some(lexeme)) ==> if lexeme is Token {
            end <= lexeme.begin() && is_apart(new, lexeme.end())
        } else {
            is_apart(new, end)
        },
    decreases st.rest.len(),
{
    laws::lemma_turn(st);
    lemma_turn_apart(st, end);
    if let Turn::Again(new) = st.turn() {
        lemma_next_apart(new, end);
    }
}

proof fn lemma_run_apart(st: LexerView, end: int)
    requires
        laws::is_valid(st),
        is_apart(st, end),
    ensures
        forall|i: int|
            0 <= i < laws::lexemes(st).len() && #[trigger] laws::lexemes(st)[i] is Token ==> end
                <= laws::lexemes(st)[i].begin(),
        forall|i: int, j: int|
            0 <= i < j < laws::lexemes(st).len() && #[trigger] laws::lexemes(st)[i] is Token
                && #[trigger] laws::lexemes(st)[j] is Token ==> laws::lexemes(st)[i].end()
                <= laws::lexemes(st)[j].begin(),
    decreases (if st.done { 0nat } else { 1nat }), st.rest.len(), st.buffer.len(),
{
    laws::law_next_makes_progress(st);
    laws::law_next_keeps_state_valid(st);
    lemma_next_apart(st, end);
    if let (new, Some(lexeme)) = st.next() {
        let all = laws::lexemes(st);
        let others = laws::lexemes(new);
        let bound = if lexeme is Token {
            lexeme.end()
        } else {
            end
        };
        lemma_run_apart(new, bound);
        assert forall|i: int| 0 <= i < all.len() && #[trigger] all[i] is Token implies end
            <= all[i].begin() by {
            if i > 0 {
                assert(all[i] == others[i - 1]);
            }
        }
        assert forall|i: int, j: int|
            0 <= i < j < all.len() && #[trigger] all[i] is Token
                && #[trigger] all[j] is Token implies all[i].end() <= all[j].begin() by {
            assert(all[j] == others[j - 1]);
            if i > 0 {
                assert(all[i] == others[i - 1]);
            }
        }
    }
}

/// In a text without carriage returns tokens do not overlap: one ends before the next one starts,
/// or right there. All lie within the text.
pub proof fn law_tokens_do_not_overlap(input: Seq<char>, tabs: bool, i: int, j: int)
    requires
        !input.contains('\r'),
        0 <= i < j < laws::lexemes(LexerView::initial(input, tabs)).len(),
        laws::lexemes(LexerView::initial(input, tabs))[i] is Token,
        laws::lexemes(LexerView::initial(input, tabs))[j] is Token,
    ensures
        ({
            let a = laws::lexemes(LexerView::initial(input, tabs))[i];
            let b = laws::lexemes(LexerView::initial(input, tabs))[j];
            a.begin() <= a.end() <= b.begin() <= b.end() <= text::utf8_len(input)
        }),
{
    let st = LexerView::initial(input, tabs);
    laws::law_initial_is_valid(input, tabs);
    indent::lemma_margin(input);
    lemma_no_return(input, indent::margin(input).len as int);
    laws::lemma_calculate_indent(LexerView::fresh(input, tabs));
    assert(is_apart(st, 0));
    lemma_run_apart(st, 0);
    laws::law_lexemes_lie_within_the_text(st, i);
    laws::law_lexemes_lie_within_the_text(st, j);
}

} // verus!
