//! The text that a token stands for.

use crate::grammar;
use crate::grammar::PieceView;
use crate::indent;
use crate::laws;
use crate::quoting;
use crate::relex;
use crate::state::LexemeView;
use crate::state::LexerView;
use crate::state::Turn;
use crate::text;
use crate::token::Token;
use crate::token::TokenView;
use vstd::prelude::*;

verus! {

/// Whether the bytes `begin..end` of `input` are the text `w`.
pub open spec fn is_written(input: Seq<char>, begin: int, end: int, w: Seq<char>) -> bool {
    exists|i: int, j: int|
        {
            &&& 0 <= i <= j <= input.len()
            &&& #[trigger] input.subrange(i, j) == w
            &&& text::utf8_len(input.take(i)) == begin
            &&& text::utf8_len(input.take(j)) == end
        }
}

/// Whether `w` starts and ends with a quote, or with three of them where it starts with three.
pub open spec fn is_quoted(w: Seq<char>) -> bool {
    let n = w.len() as int;
    &&& n >= 2
    &&& w[0] == '\'' || w[0] == '"'
    &&& w[n - 1] == w[0]
    &&& n >= 3 && w[1] == w[0] && w[2] == w[0] ==> {
        &&& n >= 6
        &&& w[n - 2] == w[0]
        &&& w[n - 3] == w[0]
    }
}

/// Whether the bytes `begin..end` of `input` are what `token` stands for. A word or a symbol is
/// written as it is spelled. A number and a line break are written in one of the ways in which they
/// can be, unless it is the line break at the end of the text. A string literal is in quotes.
pub open spec fn stands_for(input: Seq<char>, begin: int, end: int, token: TokenView) -> bool {
    match token {
        TokenView::Plain(Token::Indent | Token::Dedent) => true,
        TokenView::StringLiteral(_) => exists|w: Seq<char>| #[trigger]
            is_written(input, begin, end, w) && is_quoted(w),
        TokenView::Plain(Token::Newline) => {
            ||| begin == end == text::utf8_len(input)
            ||| exists|w: Seq<char>| #[trigger]
                is_written(input, begin, end, w) && grammar::is_newline(w)
        },
        TokenView::Plain(Token::IntegerLiteral(_)) => exists|w: Seq<char>| #[trigger]
            is_written(input, begin, end, w) && grammar::meaning(w) == Some(
                PieceView::Token(token),
            ),
        _ => relex::has_source(token) && is_written(input, begin, end, token.unlex()),
    }
}

/// Whether `st` is a state in which `input` is read: what is still to be read is the end of it.
pub open spec fn is_reading(input: Seq<char>, st: LexerView) -> bool {
    &&& st.rest.len() <= input.len()
    &&& st.rest == input.skip(input.len() - st.rest.len())
    &&& st.total() == text::utf8_len(input)
}

/// Where a piece of what is still to be read stands in `input`.
proof fn lemma_place(input: Seq<char>, st: LexerView, i: int)
    requires
        is_reading(input, st),
        0 <= i <= st.rest.len(),
    ensures
        text::utf8_len(input.take(input.len() - st.rest.len() + i)) == st.end + text::utf8_len(
            st.rest.take(i),
        ),
        st.rest.skip(i) == input.skip(input.len() - st.rest.len() + i),
{
    let n = input.len() - st.rest.len();
    text::lemma_utf8_len_split(input, n);
    assert(input.take(n + i) =~= input.take(n) + st.rest.take(i));
    text::lemma_utf8_len_concat(input.take(n), st.rest.take(i));
    assert(st.rest.skip(i) =~= input.skip(n + i));
}

/// A state that has read `n` characters more.
proof fn lemma_still_reading(input: Seq<char>, st: LexerView, new: LexerView, n: int)
    requires
        is_reading(input, st),
        0 <= n <= st.rest.len(),
        new.rest == st.rest.skip(n),
        new.total() == st.total(),
    ensures
        is_reading(input, new),
{
    lemma_place(input, st, n);
}

/// How a string literal is written.
proof fn lemma_literal_is_written(input: Seq<char>, at: LexerView, quote: char)
    requires
        is_reading(input, at),
        at.rest.len() < input.len(),
        input[input.len() - at.rest.len() - 1] == quote,
        quote == '\'' || quote == '"',
        at.end == at.start + 1 || at.end == at.start + 2,
        at.string(quote).1 is Token,
    ensures
        ({
            let (new, lexeme) = at.string(quote);
            &&& is_reading(input, new)
            &&& stands_for(input, lexeme.begin(), lexeme.end(), lexeme->token)
        }),
{
    let (new, lexeme) = at.string(quote);
    let k = input.len() - at.rest.len();
    let n = at.rest.len() - new.rest.len();
    let behind = at.rest.take(n);
    quoting::law_literal_is_quoted(at, quote);
    quoting::law_quotes_are_answered(at, quote);
    text::lemma_utf8_len_split(at.rest, n);
    lemma_place(input, at, 0);
    lemma_place(input, at, n);
    text::lemma_step(input, k - 1);
    assert(at.rest.take(0) =~= Seq::<char>::empty());
    let w = input.subrange(k - 1, k + n);
    assert(w =~= seq![quote] + behind);
    lemma_quoted(quote, behind, at.quoting(quote).triple);
    assert(is_written(input, lexeme.begin(), lexeme.end(), w));
}

/// A quote and what follows it in a literal.
proof fn lemma_quoted(quote: char, behind: Seq<char>, triple: bool)
    requires
        quote == '\'' || quote == '"',
        ({
            let n = behind.len() as int;
            &&& n >= 1
            &&& behind[n - 1] == quote
            &&& triple ==> n >= 5 && behind[n - 2] == quote && behind[n - 3] == quote
            &&& !triple ==> n == 1 || behind[0] != quote
        }),
    ensures
        is_quoted(seq![quote] + behind),
{
    let w = seq![quote] + behind;
    let n = behind.len() as int;
    assert(w[n] == behind[n - 1]);
    if triple {
        assert(w[n - 1] == behind[n - 2]);
        assert(w[n - 2] == behind[n - 3]);
    } else if n > 1 {
        assert(w[1] == behind[0]);
    }
}

/// How a token is written that is read from `st` on, before its place in a line is looked at.
proof fn lemma_raw_is_written(input: Seq<char>, st: LexerView)
    requires
        is_reading(input, st),
    ensures
        ({
            let raw = grammar::raw_next(st.rest, st.end);
            let at = st.behind(raw);
            &&& is_reading(input, at)
            &&& raw.token matches Some(token) ==> match token {
                TokenView::Plain(Token::Error | Token::Tabs) => true,
                TokenView::Plain(Token::RawSingleQuote) => at.rest.len() < input.len()
                    && input[input.len() - at.rest.len() - 1] == '\'',
                TokenView::Plain(Token::RawDoubleQuote) => at.rest.len() < input.len()
                    && input[input.len() - at.rest.len() - 1] == '"',
                _ => stands_for(input, raw.start as int, raw.end as int, token),
            }
        }),
{
    let s = st.rest;
    let raw = grammar::raw_next(s, st.end);
    let k = input.len() - s.len();
    grammar::lemma_raw_next(s, st.end);
    let i = grammar::lemma_raw_word(s, st.end);
    let j = s.len() - raw.rest.len();
    lemma_still_reading(input, st, st.behind(raw), j);
    if let Some(token) = raw.token {
        let w = s.subrange(i, j);
        lemma_place(input, st, i);
        lemma_place(input, st, j);
        assert(input.subrange(k + i, k + j) =~= w);
        assert(is_written(input, raw.start as int, raw.end as int, w));
        relex::law_tokens_have_source(w);
        grammar::lemma_helpers(w);
        if j > i {
            assert(w[j - i - 1] == input[k + j - 1]);
        }
    }
}

/// What a turn returns is what stands there.
proof fn lemma_turn_is_written(input: Seq<char>, st: LexerView)
    requires
        laws::is_valid(st),
        is_reading(input, st),
    ensures
        match st.turn() {
            Turn::Again(new) => is_reading(input, new),
            Turn::Return(new, lexeme) => {
                &&& is_reading(input, new)
                &&& lexeme matches Some(LexemeView::Token { begin, token, end }) ==> stands_for(
                    input,
                    begin,
                    end,
                    token,
                )
            },
        },
{
    laws::lemma_turn(st);
    if st.buffer.len() > 0 {
        assert(laws::may_wait(st.buffer[0], st.tabs));
    } else if !st.done {
        let raw = grammar::raw_next(st.rest, st.end);
        let at = st.behind(raw);
        grammar::lemma_raw_next(st.rest, st.end);
        grammar::lemma_quote_size(st.rest, st.end);
        lemma_raw_is_written(input, st);
        match raw.token {
            Some(TokenView::Plain(Token::Newline)) => {
                let n = indent::margin(at.rest).len as int;
                indent::lemma_margin(at.rest);
                text::lemma_utf8_len_split(at.rest, n);
                lemma_still_reading(input, at, at.calculate_indent().0, n);
            },
            Some(TokenView::Plain(Token::RawSingleQuote)) => {
                quoting::law_quotes_are_answered(at, '\'');
                if at.string('\'').1 is Token {
                    lemma_literal_is_written(input, at, '\'');
                }
            },
            Some(TokenView::Plain(Token::RawDoubleQuote)) => {
                quoting::law_quotes_are_answered(at, '"');
                if at.string('"').1 is Token {
                    lemma_literal_is_written(input, at, '"');
                }
            },
            _ => {},
        }
    }
}

/// A token that a call returns is what stands between its two positions in the text.
pub proof fn law_tokens_stand_for_their_text(input: Seq<char>, st: LexerView)
    requires
        laws::is_valid(st),
        is_reading(input, st),
    ensures
        is_reading(input, st.next().0),
        st.next().1 matches Some(LexemeView::Token { begin, token, end }) ==> stands_for(
            input,
            begin,
            end,
            token,
        ),
    decreases st.rest.len(),
{
    laws::lemma_turn(st);
    lemma_turn_is_written(input, st);
    if let Turn::Again(new) = st.turn() {
        law_tokens_stand_for_their_text(input, new);
    }
}

proof fn lemma_run_is_written(input: Seq<char>, st: LexerView, n: int)
    requires
        laws::is_valid(st),
        is_reading(input, st),
        0 <= n < laws::lexemes(st).len(),
    ensures
        laws::lexemes(st)[n] matches LexemeView::Token { begin, token, end } ==> stands_for(
            input,
            begin,
            end,
            token,
        ),
    decreases n,
{
    laws::law_next_keeps_state_valid(st);
    laws::law_next_makes_progress(st);
    law_tokens_stand_for_their_text(input, st);
    if let (new, Some(_)) = st.next() {
        if n > 0 {
            assert(laws::lexemes(st)[n] == laws::lexemes(new)[n - 1]);
            lemma_run_is_written(input, new, n - 1);
        }
    }
}

/// Every token of a text is what stands between its two positions. A reserved word is one of those,
/// and an identifier is none of them and no keyword.
pub proof fn law_text_is_spelled_by_its_tokens(input: Seq<char>, tabs: bool, n: int)
    requires
        0 <= n < laws::lexemes(LexerView::initial(input, tabs)).len(),
    ensures
        laws::lexemes(LexerView::initial(input, tabs))[n] matches LexemeView::Token {
            begin,
            token,
            end,
        } ==> {
            &&& stands_for(input, begin, end, token)
            &&& token matches TokenView::Reserved(w) ==> grammar::is_reserved(w) && is_written(
                input,
                begin,
                end,
                w,
            )
            &&& token matches TokenView::Identifier(w) ==> !grammar::is_reserved(w)
                && grammar::keyword(w) is None && is_written(input, begin, end, w)
        },
{
    let st = LexerView::initial(input, tabs);
    let fresh = LexerView::fresh(input, tabs);
    let m = indent::margin(input).len as int;
    laws::law_initial_is_valid(input, tabs);
    indent::lemma_margin(input);
    assert(input.skip(0) =~= input);
    lemma_still_reading(input, fresh, st, m);
    lemma_run_is_written(input, st, n);
    if let LexemeView::Token { token, .. } = laws::lexemes(st)[n] {
        relex::lemma_word_source(token);
    }
}

} // verus!
