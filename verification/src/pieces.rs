//! What the lexer makes of each kind of text, character by character.

use crate::diagnostic::LexemeError;
use crate::grammar;
use crate::grammar::Class;
use crate::grammar::PieceView;
use crate::number;
use crate::relex;
use crate::state::LexemeView;
use crate::state::LexerView;
use crate::state::Turn;
use crate::text;
use crate::token::Token;
use crate::token::TokenView;
use vstd::prelude::*;

verus! {

/// The state `st` with another text to be read.
pub open spec fn facing(st: LexerView, s: Seq<char>) -> LexerView {
    LexerView { rest: s, ..st }
}

/// The state `st` once `w` has been read, and `z` is still to be.
pub open spec fn past(st: LexerView, w: Seq<char>, z: Seq<char>) -> LexerView {
    LexerView { rest: z, start: st.end, end: st.end + text::utf8_len(w), ..st }
}

/// Whether `w` before `z` is returned as `token`, and all that changes besides is that `brackets`
/// more brackets are open.
#[verifier::opaque]
pub open spec fn gives(
    st: LexerView,
    w: Seq<char>,
    z: Seq<char>,
    token: TokenView,
    brackets: int,
) -> bool {
    facing(st, w + z).next() == (
        LexerView { parens: st.parens + brackets, ..past(st, w, z) },
        Some(
            LexemeView::Token {
                begin: st.end as int,
                token,
                end: (st.end + text::utf8_len(w)) as int,
            },
        ),
    )
}

/// Whether `w` before `z` is returned as an error about just that.
#[verifier::opaque]
pub open spec fn rejects(st: LexerView, w: Seq<char>, z: Seq<char>) -> bool {
    facing(st, w + z).next() == (
        past(st, w, z),
        Some(
            LexemeView::Error {
                message: LexemeError::InvalidCharacter,
                begin: st.end as int,
                end: (st.end + text::utf8_len(w)) as int,
            },
        ),
    )
}

/// Whether `w` before `z` makes no difference but to where things stand.
pub open spec fn skips(st: LexerView, w: Seq<char>, z: Seq<char>) -> bool {
    facing(st, w + z).next() == past(st, w, z).next()
}

/// A text is returned in one way only.
pub proof fn lemma_one_answer(
    st: LexerView,
    w: Seq<char>,
    z: Seq<char>,
    a: TokenView,
    b: TokenView,
    m: int,
    n: int,
)
    ensures
        gives(st, w, z, a, m) && gives(st, w, z, b, n) ==> a == b && m == n,
        !(gives(st, w, z, a, m) && rejects(st, w, z)),
{
    reveal(gives);
    reveal(rejects);
}

/// What comes of a text whose first piece is known.
pub proof fn lemma_first_piece(st: LexerView, w: Seq<char>, z: Seq<char>)
    requires
        st.buffer.len() == 0,
        !st.done,
        w.len() > 0,
        grammar::piece_len(w + z) == w.len(),
    ensures
        match grammar::piece(w + z) {
            PieceView::Blank => skips(st, w, z),
            PieceView::Token(token) => match past(st, w, z).take_token(token) {
                Turn::Return(new, lexeme) => facing(st, w + z).next() == (new, lexeme),
                Turn::Again(new) => facing(st, w + z).next() == new.next(),
            },
        },
{
    let s = w + z;
    let at = facing(st, s);
    assert(s.take(w.len() as int) =~= w);
    assert(s.skip(w.len() as int) =~= z);
    let raw = grammar::raw_next(s, st.end);
    match grammar::piece(s) {
        PieceView::Blank => {
            let then = past(st, w, z);
            assert(raw == grammar::raw_next(z, then.end));
            assert(at.behind(raw) =~= then.behind(raw));
            assert(at.turn() == then.turn());
        },
        PieceView::Token(token) => {
            assert(at.behind(raw) =~= past(st, w, z));
        },
    }
}

/// The characters of a class that a text starts with.
pub proof fn lemma_run_of(class: Class, w: Seq<char>, z: Seq<char>)
    requires
        class.has_all(w),
        z.len() == 0 || !class.has(z[0]),
    ensures
        class.run(w + z) == w.len(),
    decreases w.len(),
{
    let s = w + z;
    if w.len() == 0 {
        assert(s =~= z);
    } else {
        assert(s[0] == w[0]);
        let rest = w.drop_first();
        assert(s.drop_first() =~= rest + z);
        assert forall|i: int| 0 <= i < rest.len() implies class.has(#[trigger] rest[i]) by {
            assert(rest[i] == w[i + 1]);
        }
        lemma_run_of(class, rest, z);
    }
}

/// Spaces are passed over, one by one.
pub proof fn law_spaces_are_skipped(st: LexerView, z: Seq<char>)
    requires
        st.buffer.len() == 0,
        !st.done,
    ensures
        skips(st, seq![' '], z),
{
    let s = seq![' '] + z;
    let raw = grammar::raw_next(s, st.end);
    relex::law_spaces_only_move_tokens(z, st.end);
    text::lemma_step(seq![' '], 0);
    assert(seq![' '].take(1) =~= seq![' ']);
    let then = past(st, seq![' '], z);
    assert(facing(st, s).behind(raw) =~= then.behind(raw));
    assert(facing(st, s).turn() == then.turn());
}

/// A comment is passed over, up to the end of its line or of the text.
pub proof fn law_comments_are_skipped(st: LexerView, comment: Seq<char>, z: Seq<char>)
    requires
        st.buffer.len() == 0,
        !st.done,
        forall|i: int| 0 <= i < comment.len() ==> #[trigger] comment[i] != '\n',
        z.len() == 0 || z[0] == '\n',
    ensures
        skips(st, seq!['#'] + comment, z),
{
    let w = seq!['#'] + comment;
    let s = w + z;
    let n = w.len() as int;
    assert forall|i: int| 0 <= i < w.len() implies Class::NotNewline.has(#[trigger] w[i]) by {
        if i > 0 {
            assert(w[i] == comment[i - 1]);
        }
    }
    lemma_run_of(Class::NotNewline, w, z);
    grammar::lemma_run(Class::NotNewline, s);
    assert(s.take(n) =~= w);
    assert forall|m: int| n < m <= s.len() implies #[trigger] grammar::meaning(
        s.take(m),
    ) is None by {
        assert(s.take(m)[0] == '#');
        if grammar::meaning(s.take(m)) is Some {
            grammar::lemma_head(s.take(m));
        }
    }
    grammar::lemma_is_longest(s, n);
    lemma_first_piece(st, w, z);
}

/// A line break right behind a backslash is passed over, with the backslash.
pub proof fn law_escaped_line_breaks_are_skipped(st: LexerView, z: Seq<char>)
    requires
        st.buffer.len() == 0,
        !st.done,
    ensures
        skips(st, seq!['\\', '\n'], z),
        skips(st, seq!['\\', '\r', '\n'], z),
{
    lemma_escaped_line_break(st, seq!['\\', '\n'], z);
    lemma_escaped_line_break(st, seq!['\\', '\r', '\n'], z);
}

proof fn lemma_escaped_line_break(st: LexerView, w: Seq<char>, z: Seq<char>)
    requires
        st.buffer.len() == 0,
        !st.done,
        w == seq!['\\', '\n'] || w == seq!['\\', '\r', '\n'],
    ensures
        skips(st, w, z),
{
    let s = w + z;
    let n = w.len() as int;
    assert(s.take(n) =~= w);
    assert forall|m: int| n < m <= s.len() implies #[trigger] grammar::meaning(
        s.take(m),
    ) is None by {
        let v = s.take(m);
        assert(v[0] == w[0] && v[1] == w[1]);
        if grammar::meaning(v) is Some {
            grammar::lemma_head(v);
        }
    }
    grammar::lemma_is_longest(s, n);
    lemma_first_piece(st, w, z);
}

/// Tabs within a line are passed over where they are allowed. Where they are not, they are an error
/// at the first of them.
pub proof fn law_tabs_are_skipped_or_rejected(st: LexerView, w: Seq<char>, z: Seq<char>)
    requires
        st.buffer.len() == 0,
        !st.done,
        w.len() > 0,
        forall|i: int| 0 <= i < w.len() ==> #[trigger] w[i] == '\t',
        z.len() == 0 || z[0] != '\t',
    ensures
        st.tabs ==> skips(st, w, z),
        !st.tabs ==> facing(st, w + z).next() == (
            past(st, w, z),
            Some(
                LexemeView::Error {
                    message: LexemeError::InvalidTab,
                    begin: st.end as int,
                    end: st.end as int,
                },
            ),
        ),
{
    let s = w + z;
    let n = w.len() as int;
    assert(Class::Tab.has_all(w));
    lemma_run_of(Class::Tab, w, z);
    grammar::lemma_run(Class::Tab, s);
    assert(s.take(n) =~= w);
    assert(!Class::Space.has(w[0]));
    assert forall|m: int| n < m <= s.len() implies #[trigger] grammar::meaning(
        s.take(m),
    ) is None by {
        assert(s.take(m)[0] == '\t');
        if grammar::meaning(s.take(m)) is Some {
            grammar::lemma_head(s.take(m));
        }
    }
    grammar::lemma_is_longest(s, n);
    lemma_first_piece(st, w, z);
    if !st.tabs {
        let at = past(st, w, z);
        let waits = LexerView { buffer: at.buffer.push(at.reject_tab()), ..at };
        assert(waits.buffer.drop_first() =~= at.buffer);
        assert(waits.next() == (at, Some(at.reject_tab())));
    }
}

/// A word is a letter or an underscore, and letters, digits and underscores behind it, as many as
/// there are. It is the keyword that is spelled so, or one of the reserved words, or else an
/// identifier.
pub proof fn law_words(st: LexerView, w: Seq<char>, z: Seq<char>)
    requires
        st.buffer.len() == 0,
        !st.done,
        w.len() > 0,
        !('0' <= w[0] && w[0] <= '9'),
        forall|i: int|
            0 <= i < w.len() ==> ('a' <= #[trigger] w[i] && w[i] <= 'z') || ('A' <= w[i] && w[i]
                <= 'Z') || ('0' <= w[i] && w[i] <= '9') || w[i] == '_',
        z.len() == 0 || !(('a' <= z[0] && z[0] <= 'z') || ('A' <= z[0] && z[0] <= 'Z') || ('0'
            <= z[0] && z[0] <= '9') || z[0] == '_'),
        // That would be a raw string literal.
        w == seq!['r'] && z.len() > 0 ==> z[0] != '\'' && z[0] != '"',
    ensures
        gives(
            st,
            w,
            z,
            if w == "and"@ {
                TokenView::Plain(Token::And)
            } else if w == "else"@ {
                TokenView::Plain(Token::Else)
            } else if w == "load"@ {
                TokenView::Plain(Token::Load)
            } else if w == "break"@ {
                TokenView::Plain(Token::Break)
            } else if w == "for"@ {
                TokenView::Plain(Token::For)
            } else if w == "not"@ {
                TokenView::Plain(Token::Not)
            } else if w == "continue"@ {
                TokenView::Plain(Token::Continue)
            } else if w == "if"@ {
                TokenView::Plain(Token::If)
            } else if w == "or"@ {
                TokenView::Plain(Token::Or)
            } else if w == "def"@ {
                TokenView::Plain(Token::Def)
            } else if w == "in"@ {
                TokenView::Plain(Token::In)
            } else if w == "pass"@ {
                TokenView::Plain(Token::Pass)
            } else if w == "elif"@ {
                TokenView::Plain(Token::Elif)
            } else if w == "return"@ {
                TokenView::Plain(Token::Return)
            } else if w == "lambda"@ {
                TokenView::Plain(Token::Lambda)
            } else if w == "as"@
                || w == "import"@
                || w == "is"@
                || w == "class"@
                || w == "nonlocal"@
                || w == "del"@
                || w == "raise"@
                || w == "except"@
                || w == "try"@
                || w == "finally"@
                || w == "while"@
                || w == "from"@
                || w == "with"@
                || w == "global"@
                || w == "yield"@
            {
                TokenView::Reserved(w)
            } else {
                TokenView::Identifier(w)
            },
            0,
        ),
{
    assert(grammar::is_word_start(w[0]) && Class::Word.has(w[0]));
    assert(Class::Word.has_all(w));
    assert(grammar::is_identifier(w));
    grammar::lemma_not_quote(w);
    if grammar::keyword(w) is Some {
        relex::lemma_keyword_not_reserved(w);
    }
    lemma_word_piece(st, w, z);
}

/// What a word that is a piece is returned as.
proof fn lemma_word_piece(st: LexerView, w: Seq<char>, z: Seq<char>)
    requires
        st.buffer.len() == 0,
        !st.done,
        grammar::is_identifier(w),
        z.len() == 0 || !Class::Word.has(z[0]),
        w == seq!['r'] && z.len() > 0 ==> z[0] != '\'' && z[0] != '"',
    ensures
        gives(
            st,
            w,
            z,
            word_token_view(w),
            0,
        ),
{
    lemma_word_longest(w, z);
    lemma_first_piece(st, w, z);
    lemma_word_token(w);
    let token = word_token_view(w);
    lemma_plain_turn(past(st, w, z), token);
    assert(past(st, w, z).wrap(token) == (LexemeView::Token {
        begin: st.end as int,
        token,
        end: (st.end + text::utf8_len(w)) as int,
    }));
    reveal(gives);
    assert(LexerView { parens: st.parens + 0, ..past(st, w, z) } =~= past(st, w, z));
}

/// What a word is.
spec fn word_token_view(w: Seq<char>) -> TokenView {
    if grammar::is_reserved(w) {
        TokenView::Reserved(w)
    } else if grammar::keyword(w) is Some {
        TokenView::Plain(grammar::keyword(w)->Some_0)
    } else {
        TokenView::Identifier(w)
    }
}

/// Whether a token is returned as it is read.
spec fn is_ordinary(token: TokenView) -> bool {
    match token {
        TokenView::Plain(
            Token::Tabs
            | Token::Newline
            | Token::Error
            | Token::RawDoubleQuote
            | Token::RawSingleQuote
            | Token::OpeningCurly
            | Token::OpeningRound
            | Token::OpeningSquare
            | Token::ClosingCurly
            | Token::ClosingRound
            | Token::ClosingSquare,
        ) => false,
        _ => true,
    }
}

proof fn lemma_plain_turn(at: LexerView, token: TokenView)
    requires
        is_ordinary(token),
    ensures
        at.take_token(token) == Turn::Return(at, Some(at.wrap(token))),
{
}

proof fn lemma_word_token(w: Seq<char>)
    ensures
        is_ordinary(word_token_view(w)),
{
}

proof fn lemma_word_longest(w: Seq<char>, z: Seq<char>)
    requires
        grammar::is_identifier(w),
        z.len() == 0 || !Class::Word.has(z[0]),
        w == seq!['r'] && z.len() > 0 ==> z[0] != '\'' && z[0] != '"',
    ensures
        grammar::piece_len(w + z) == w.len(),
        grammar::piece(w + z) == PieceView::Token(word_token_view(w)),
{
    let s = w + z;
    let n = w.len() as int;
    lemma_run_of(Class::Word, w, z);
    assert(s[0] == w[0]);
    grammar::lemma_word_ends(s);
    assert(s.take(n) =~= w);
    grammar::lemma_not_quote(w);
    if n == 1 && w[0] == 'r' {
        assert(w =~= seq!['r']);
    }
    assert(n > 1 ==> s[1] == w[1] && Class::Word.has(w[1]));
    assert(n == 1 && z.len() > 0 ==> s[1] == z[0]);
    grammar::lemma_is_longest(s, n);
}

/// What comes of digits that are a piece.
proof fn lemma_number_piece(st: LexerView, w: Seq<char>, z: Seq<char>, value: Option<i32>)
    requires
        st.buffer.len() == 0,
        !st.done,
        w.len() > 0,
        grammar::longest_piece(w + z, (w + z).len()) == w.len(),
        grammar::meaning(w) == Some(PieceView::Token(grammar::integer(value))),
    ensures
        value matches Some(v) ==> gives(
            st,
            w,
            z,
            TokenView::Plain(Token::IntegerLiteral(v)),
            0,
        ),
        value is None ==> rejects(st, w, z),
{
    assert((w + z).take(w.len() as int) =~= w);
    lemma_first_piece(st, w, z);
    reveal(gives);
    reveal(rejects);
}

/// A number is returned in one way only.
pub proof fn lemma_number_answer(st: LexerView, w: Seq<char>, v: i32, value: Option<i32>)
    requires
        value matches Some(u) ==> gives(
            st,
            w,
            seq![],
            TokenView::Plain(Token::IntegerLiteral(u)),
            0,
        ),
        value is None ==> rejects(st, w, seq![]),
    ensures
        gives(st, w, seq![], TokenView::Plain(Token::IntegerLiteral(v)), 0) ==> value == Some(v),
        rejects(st, w, seq![]) ==> value is None,
{
    let a = TokenView::Plain(Token::IntegerLiteral(v));
    lemma_one_answer(st, w, seq![], a, a, 0, 0);
    if let Some(u) = value {
        let b = TokenView::Plain(Token::IntegerLiteral(u));
        lemma_one_answer(st, w, seq![], a, b, 0, 0);
        lemma_one_answer(st, w, seq![], b, b, 0, 0);
    }
}

/// Decimal digits are a piece.
proof fn lemma_decimal_piece(st: LexerView, w: Seq<char>, z: Seq<char>)
    requires
        st.buffer.len() == 0,
        !st.done,
        w.len() > 0,
        forall|i: int| 0 <= i < w.len() ==> '0' <= #[trigger] w[i] && w[i] <= '9',
        z.len() == 0 || !('0' <= z[0] && z[0] <= '9'),
        w[0] != '0' || w.len() > 1 || z.len() == 0 || !(z[0] == 'x' || z[0] == 'X' || z[0] == 'b'
            || z[0] == 'B' || z[0] == 'o' || z[0] == 'O'),
    ensures
        grammar::decimal_value(w) matches Some(v) ==> gives(
            st,
            w,
            z,
            TokenView::Plain(Token::IntegerLiteral(v)),
            0,
        ),
        grammar::decimal_value(w) is None ==> rejects(st, w, z),
{
    let s = w + z;
    let n = w.len() as int;
    assert(Class::Digit(10).has_all(w));
    lemma_run_of(Class::Digit(10), w, z);
    grammar::lemma_run(Class::Digit(10), s);
    assert(s.take(n) =~= w);
    grammar::lemma_decimal(w);
    assert forall|m: int| n < m <= s.len() implies #[trigger] grammar::meaning(
        s.take(m),
    ) is None by {
        let v = s.take(m);
        assert(v[0] == w[0]);
        assert(v[1] == s[1]);
        assert(n > 1 ==> s[1] == w[1]);
        assert(n == 1 ==> s[1] == z[0]);
        if grammar::meaning(v) is Some {
            grammar::lemma_head(v);
        }
    }
    grammar::lemma_is_longest(s, n);
    lemma_number_piece(st, w, z, grammar::decimal_value(w));
}

/// A decimal digit alone is its number.
pub proof fn law_one_digit(st: LexerView, c: char, z: Seq<char>)
    requires
        st.buffer.len() == 0,
        !st.done,
        '0' <= c && c <= '9',
        z.len() == 0 || !('0' <= z[0] && z[0] <= '9'),
        c != '0' || z.len() == 0 || !(z[0] == 'x' || z[0] == 'X' || z[0] == 'b' || z[0] == 'B'
            || z[0] == 'o' || z[0] == 'O'),
    ensures
        gives(
            st,
            seq![c],
            z,
            TokenView::Plain(Token::IntegerLiteral(((c as int) - ('0' as int)) as i32)),
            0,
        ),
{
    let w = seq![c];
    lemma_decimal_piece(st, w, z);
    reveal_with_fuel(number::radix_value, 2);
    assert(w.drop_last() =~= seq![]);
}

/// A letter that stands for a radix must have a digit behind it. Where there is none, the zero before
/// it is a number of its own, and the letter is not part of it.
pub proof fn law_zero_before_a_letter(st: LexerView, letter: char, z: Seq<char>)
    requires
        st.buffer.len() == 0,
        !st.done,
        letter == 'x' || letter == 'X' ==> z.len() == 0 || !(('0' <= z[0] && z[0] <= '9') || ('a'
            <= z[0] && z[0] <= 'f') || ('A' <= z[0] && z[0] <= 'F')),
        letter == 'b' || letter == 'B' ==> z.len() == 0 || !('0' <= z[0] && z[0] <= '1'),
        letter == 'o' || letter == 'O' ==> z.len() == 0 || !('0' <= z[0] && z[0] <= '7'),
        !('0' <= letter && letter <= '9'),
    ensures
        gives(
            st,
            seq!['0'],
            seq![letter] + z,
            TokenView::Plain(Token::IntegerLiteral(0)),
            0,
        ),
{
    let w = seq!['0'];
    let rest = seq![letter] + z;
    let s = w + rest;
    let radix: u32 = if letter == 'x' || letter == 'X' {
        16
    } else if letter == 'b' || letter == 'B' {
        2
    } else if letter == 'o' || letter == 'O' {
        8
    } else {
        10
    };
    if radix == 10 {
        law_one_digit(st, '0', rest);
    } else {
        assert(s[0] == '0' && s[1] == letter);
        assert(s.skip(2) =~= z);
        grammar::lemma_prefixed_number(s, radix);
        assert(s.take(1) =~= w);
        reveal_with_fuel(number::radix_value, 2);
        assert(w.drop_last() =~= seq![]);
        lemma_number_piece(st, w, rest, Some(0i32));
    }
}

/// One decimal digit more makes a number ten times as large, and adds the digit. A number that does
/// not fit 32 bits with a sign is an error, and stays one.
pub proof fn law_more_digits(st: LexerView, w: Seq<char>, c: char, z: Seq<char>, v: i32)
    requires
        st.buffer.len() == 0,
        !st.done,
        w.len() > 0,
        w[0] != '0',
        forall|i: int| 0 <= i < w.len() ==> '0' <= #[trigger] w[i] && w[i] <= '9',
        '0' <= c && c <= '9',
        z.len() == 0 || !('0' <= z[0] && z[0] <= '9'),
    ensures
        gives(st, w, seq![], TokenView::Plain(Token::IntegerLiteral(v)), 0) ==> {
            let more = 10 * v + ((c as int) - ('0' as int));
            if more <= 0x7fff_ffff {
                gives(st, w.push(c), z, TokenView::Plain(Token::IntegerLiteral(more as i32)), 0)
            } else {
                rejects(st, w.push(c), z)
            }
        },
        rejects(st, w, seq![]) ==> rejects(st, w.push(c), z),
{
    lemma_decimal_piece(st, w, seq![]);
    lemma_decimal_piece(st, w.push(c), z);
    lemma_number_answer(st, w, v, grammar::decimal_value(w));
    assert(w.push(c).drop_last() =~= w);
    assert(w + seq![] =~= w);
}

/// A decimal number that is longer than one digit does not start with a zero.
pub proof fn law_leading_zeros(st: LexerView, w: Seq<char>, z: Seq<char>)
    requires
        st.buffer.len() == 0,
        !st.done,
        w.len() > 1,
        w[0] == '0',
        forall|i: int| 0 <= i < w.len() ==> '0' <= #[trigger] w[i] && w[i] <= '9',
        z.len() == 0 || !('0' <= z[0] && z[0] <= '9'),
    ensures
        rejects(st, w, z),
{
    lemma_decimal_piece(st, w, z);
}

/// A number with a prefix is a piece.
pub proof fn lemma_prefixed_piece(st: LexerView, letter: char, d: Seq<char>, z: Seq<char>, radix: u32)
    requires
        st.buffer.len() == 0,
        !st.done,
        radix == 16 <==> letter == 'x' || letter == 'X',
        radix == 2 <==> letter == 'b' || letter == 'B',
        radix == 8 <==> letter == 'o' || letter == 'O',
        radix == 16 || radix == 2 || radix == 8,
        d.len() > 0,
        Class::Digit(radix).has_all(d),
        z.len() == 0 || !Class::Digit(radix).has(z[0]),
    ensures
        number::digits_to_i32(d, radix as nat) matches Some(v) ==> gives(
            st,
            seq!['0', letter] + d,
            z,
            TokenView::Plain(Token::IntegerLiteral(v)),
            0,
        ),
        number::digits_to_i32(d, radix as nat) is None ==> rejects(st, seq!['0', letter] + d, z),
{
    let w = seq!['0', letter] + d;
    let s = w + z;
    lemma_run_of(Class::Digit(radix), d, z);
    assert(s.skip(2) =~= d + z);
    assert((d + z).take(d.len() as int) =~= d);
    assert(s[0] == '0' && s[1] == letter);
    grammar::lemma_prefixed_number(s, radix);
    assert(s.take(w.len() as int) =~= w);
    lemma_number_piece(st, w, z, number::digits_to_i32(d, radix as nat));
}

/// Numbers in other radices: a zero, a letter for 16, 2 or 8, and digits, as many as there are. One
/// digit, whose worth is `k`, is its worth. Behind others it makes the number `radix` times as large
/// and adds its worth. A number that does not fit 32 bits with a sign is an error, and stays one.
pub proof fn law_prefixed_numbers(
    st: LexerView,
    letter: char,
    radix: int,
    d: Seq<char>,
    c: char,
    k: int,
    z: Seq<char>,
    v: i32,
)
    requires
        st.buffer.len() == 0,
        !st.done,
        ({
            ||| radix == 16 && (letter == 'x' || letter == 'X')
            ||| radix == 2 && (letter == 'b' || letter == 'B')
            ||| radix == 8 && (letter == 'o' || letter == 'O')
        }),
        forall|i: int|
            0 <= i < d.len() ==> ('0' <= #[trigger] d[i] && d[i] <= '9' && (d[i] as int) - (
            '0' as int) < radix) || (radix == 16 && ('a' <= d[i] && d[i] <= 'f' || 'A' <= d[i]
                && d[i] <= 'F')),
        ({
            ||| '0' <= c && c <= '9' && k == (c as int) - ('0' as int)
            ||| 'a' <= c && c <= 'f' && k == (c as int) - ('a' as int) + 10
            ||| 'A' <= c && c <= 'F' && k == (c as int) - ('A' as int) + 10
        }),
        k < radix,
        z.len() == 0 || !(('0' <= z[0] && z[0] <= '9' && (z[0] as int) - ('0' as int) < radix) || (
        radix == 16 && ('a' <= z[0] && z[0] <= 'f' || 'A' <= z[0] && z[0] <= 'F'))),
    ensures
        gives(st, seq!['0', letter, c], z, TokenView::Plain(Token::IntegerLiteral(k as i32)), 0),
        d.len() > 0 && gives(
            st,
            seq!['0', letter] + d,
            seq![],
            TokenView::Plain(Token::IntegerLiteral(v)),
            0,
        ) ==> {
            let more = radix * v + k;
            if more <= 0x7fff_ffff {
                gives(
                    st,
                    seq!['0', letter] + d.push(c),
                    z,
                    TokenView::Plain(Token::IntegerLiteral(more as i32)),
                    0,
                )
            } else {
                rejects(st, seq!['0', letter] + d.push(c), z)
            }
        },
        d.len() > 0 && rejects(st, seq!['0', letter] + d, seq![]) ==> rejects(
            st,
            seq!['0', letter] + d.push(c),
            z,
        ),
{
    let r = radix as u32;
    let one = seq![c];
    assert(Class::Digit(r).has(c));
    assert(Class::Digit(r).has_all(d));
    assert(Class::Digit(r).has_all(one));
    assert(Class::Digit(r).has_all(d.push(c)));
    lemma_prefixed_piece(st, letter, one, z, r);
    assert(seq!['0', letter] + one =~= seq!['0', letter, c]);
    lemma_one_more(seq![], c, r as nat);
    assert(Seq::<char>::empty().push(c) =~= one);
    if d.len() > 0 {
        lemma_prefixed_piece(st, letter, d, seq![], r);
        lemma_prefixed_piece(st, letter, d.push(c), z, r);
        lemma_one_more(d, c, r as nat);
        let value = number::digits_to_i32(d, r as nat);
        lemma_number_answer(st, seq!['0', letter] + d, v, value);
    }
}

/// The number of digits with one digit more.
proof fn lemma_one_more(d: Seq<char>, c: char, radix: nat)
    requires
        radix >= 2,
    ensures
        number::radix_value(d.push(c), radix) == radix * number::radix_value(d, radix)
            + number::digit_value(c),
        number::radix_value(d, radix) > 0x7fff_ffff ==> number::radix_value(d.push(c), radix)
            > 0x7fff_ffff,
        number::radix_value(seq![], radix) == 0,
{
    assert(d.push(c).drop_last() =~= d);
    let u = number::radix_value(d, radix);
    assert(u * radix == radix * u) by (nonlinear_arith);
    assert(radix * u >= u) by (nonlinear_arith)
        requires
            radix >= 2,
    ;
}

/// Nothing that a symbol starts with is the start of anything else.
proof fn lemma_symbol_longest(w: Seq<char>, z: Seq<char>)
    requires
        grammar::symbol(w) is Some,
        forall|m: int|
            w.len() < m <= (w + z).len() && m <= 3 ==> grammar::symbol(
                #[trigger] (w + z).take(m),
            ) is None,
    ensures
        grammar::piece_len(w + z) == w.len(),
        grammar::piece(w + z) == PieceView::Token(TokenView::Plain(grammar::symbol(w)->Some_0)),
{
    let s = w + z;
    let n = w.len() as int;
    assert(s.take(n) =~= w);
    grammar::lemma_symbol(w);
    lemma_symbol_start(w);
    assert forall|m: int| n < m <= s.len() implies #[trigger] grammar::meaning(
        s.take(m),
    ) is None by {
        let v = s.take(m);
        assert(v[0] == w[0]);
        if grammar::meaning(v) is Some {
            if m > 3 {
                assert(grammar::symbol(v) is None);
            }
            grammar::lemma_symbol_head(v);
        }
    }
    grammar::lemma_is_longest(s, n);
}

proof fn lemma_symbol_start(w: Seq<char>)
    requires
        grammar::symbol(w) is Some,
    ensures
        1 <= w.len() <= 3,
        w[0] != ' ' && w[0] != '\\' && w[0] != '#' && w[0] != '\t' && w[0] != '\n' && w[0]
            != '\r' && w[0] != '\'' && w[0] != '"',
        !grammar::is_word_start(w[0]),
        !('0' <= w[0] && w[0] <= '9'),
{
    let slashes = seq!['/', '/', '='];
    assert(slashes[0] == '/');
}

/// A symbol that no more characters belong to.
proof fn lemma_symbol_in_context(
    st: LexerView,
    w: Seq<char>,
    z: Seq<char>,
    token: Token,
    brackets: int,
)
    requires
        st.buffer.len() == 0,
        !st.done,
        grammar::symbol(w) == Some(token),
        w.len() == 1 && z.len() > 0 ==> grammar::pair(w[0], z[0]) is None && !(w[0] == '/' && z[0]
            == '/'),
        w.len() == 2 && z.len() > 0 ==> !(w[0] == '/' && w[1] == '/' && z[0] == '='),
        past(st, w, z).take_token(TokenView::Plain(token)) == Turn::Return(
            LexerView { parens: st.parens + brackets, ..past(st, w, z) },
            Some(past(st, w, z).wrap(TokenView::Plain(token))),
        ),
    ensures
        gives(st, w, z, TokenView::Plain(token), brackets),
{
    let s = w + z;
    lemma_symbol_start(w);
    assert forall|m: int| w.len() < m <= s.len() && m <= 3 implies grammar::symbol(
        #[trigger] s.take(m),
    ) is None by {
        let v = s.take(m);
        let slashes = seq!['/', '/', '='];
        assert(v[0] == w[0]);
        assert(v[1] == s[1]);
        if w.len() == 1 {
            assert(s[1] == z[0]);
        } else {
            assert(s[1] == w[1]);
            assert(s[2] == z[0]);
        }
        if m == 3 {
            assert(v[2] == s[2]);
            if v == slashes {
                assert(slashes[0] == '/' && slashes[1] == '/' && slashes[2] == '=');
            }
        }
    }
    lemma_symbol_longest(w, z);
    lemma_first_piece(st, w, z);
    reveal(gives);
}

/// The symbols that other symbols start with, or that start with others: the longest of them counts.
pub proof fn law_operators(st: LexerView, z: Seq<char>)
    requires
        st.buffer.len() == 0,
        !st.done,
    ensures
        gives(st, seq!['+', '='], z, TokenView::Plain(Token::PlusEqual), 0),
        gives(st, seq!['-', '='], z, TokenView::Plain(Token::MinusEqual), 0),
        gives(st, seq!['*', '='], z, TokenView::Plain(Token::StarEqual), 0),
        gives(st, seq!['/', '='], z, TokenView::Plain(Token::SlashEqual), 0),
        gives(st, seq!['/', '/', '='], z, TokenView::Plain(Token::SlashSlashEqual), 0),
        gives(st, seq!['%', '='], z, TokenView::Plain(Token::PercentEqual), 0),
        gives(st, seq!['=', '='], z, TokenView::Plain(Token::EqualEqual), 0),
        gives(st, seq!['!', '='], z, TokenView::Plain(Token::BangEqual), 0),
        gives(st, seq!['<', '='], z, TokenView::Plain(Token::LessEqual), 0),
        gives(st, seq!['>', '='], z, TokenView::Plain(Token::GreaterEqual), 0),
        gives(st, seq!['*', '*'], z, TokenView::Plain(Token::StarStar), 0),
        gives(st, seq!['-', '>'], z, TokenView::Plain(Token::RightArrow), 0),
        (z.len() == 0 || z[0] != '=') ==> gives(
            st,
            seq!['='],
            z,
            TokenView::Plain(Token::Equal),
            0,
        ),
        (z.len() == 0 || z[0] != '=') ==> gives(
            st,
            seq!['<'],
            z,
            TokenView::Plain(Token::LessThan),
            0,
        ),
        (z.len() == 0 || z[0] != '=') ==> gives(
            st,
            seq!['>'],
            z,
            TokenView::Plain(Token::GreaterThan),
            0,
        ),
        (z.len() == 0 || (z[0] != '=' && z[0] != '>')) ==> gives(
            st,
            seq!['-'],
            z,
            TokenView::Plain(Token::Minus),
            0,
        ),
        (z.len() == 0 || z[0] != '=') ==> gives(st, seq!['+'], z, TokenView::Plain(Token::Plus), 0),
        (z.len() == 0 || (z[0] != '*' && z[0] != '=')) ==> gives(
            st,
            seq!['*'],
            z,
            TokenView::Plain(Token::Star),
            0,
        ),
        (z.len() == 0 || z[0] != '=') ==> gives(
            st,
            seq!['%'],
            z,
            TokenView::Plain(Token::Percent),
            0,
        ),
        (z.len() == 0 || (z[0] != '/' && z[0] != '=')) ==> gives(
            st,
            seq!['/'],
            z,
            TokenView::Plain(Token::Slash),
            0,
        ),
        (z.len() == 0 || z[0] != '=') ==> gives(
            st,
            seq!['/', '/'],
            z,
            TokenView::Plain(Token::SlashSlash),
            0,
        ),
{
    lemma_symbol_in_context(st, seq!['+', '='], z, Token::PlusEqual, 0);
    lemma_symbol_in_context(st, seq!['-', '='], z, Token::MinusEqual, 0);
    lemma_symbol_in_context(st, seq!['*', '='], z, Token::StarEqual, 0);
    lemma_symbol_in_context(st, seq!['/', '='], z, Token::SlashEqual, 0);
    lemma_symbol_in_context(st, seq!['/', '/', '='], z, Token::SlashSlashEqual, 0);
    lemma_symbol_in_context(st, seq!['%', '='], z, Token::PercentEqual, 0);
    lemma_symbol_in_context(st, seq!['=', '='], z, Token::EqualEqual, 0);
    lemma_symbol_in_context(st, seq!['!', '='], z, Token::BangEqual, 0);
    lemma_symbol_in_context(st, seq!['<', '='], z, Token::LessEqual, 0);
    lemma_symbol_in_context(st, seq!['>', '='], z, Token::GreaterEqual, 0);
    lemma_symbol_in_context(st, seq!['*', '*'], z, Token::StarStar, 0);
    lemma_symbol_in_context(st, seq!['-', '>'], z, Token::RightArrow, 0);
    if z.len() == 0 || z[0] != '=' {
        lemma_symbol_in_context(st, seq!['='], z, Token::Equal, 0);
    }
    if z.len() == 0 || z[0] != '=' {
        lemma_symbol_in_context(st, seq!['<'], z, Token::LessThan, 0);
    }
    if z.len() == 0 || z[0] != '=' {
        lemma_symbol_in_context(st, seq!['>'], z, Token::GreaterThan, 0);
    }
    if z.len() == 0 || (z[0] != '=' && z[0] != '>') {
        lemma_symbol_in_context(st, seq!['-'], z, Token::Minus, 0);
    }
    if z.len() == 0 || z[0] != '=' {
        lemma_symbol_in_context(st, seq!['+'], z, Token::Plus, 0);
    }
    if z.len() == 0 || (z[0] != '*' && z[0] != '=') {
        lemma_symbol_in_context(st, seq!['*'], z, Token::Star, 0);
    }
    if z.len() == 0 || z[0] != '=' {
        lemma_symbol_in_context(st, seq!['%'], z, Token::Percent, 0);
    }
    if z.len() == 0 || (z[0] != '/' && z[0] != '=') {
        lemma_symbol_in_context(st, seq!['/'], z, Token::Slash, 0);
    }
    if z.len() == 0 || z[0] != '=' {
        lemma_symbol_in_context(st, seq!['/', '/'], z, Token::SlashSlash, 0);
    }
}

/// The other symbols. Brackets are counted.
pub proof fn law_punctuation(st: LexerView, z: Seq<char>)
    requires
        st.buffer.len() == 0,
        !st.done,
    ensures
        gives(st, seq![','], z, TokenView::Plain(Token::Comma), 0),
        gives(st, seq![';'], z, TokenView::Plain(Token::Semicolon), 0),
        gives(st, seq![':'], z, TokenView::Plain(Token::Colon), 0),
        gives(st, seq!['.'], z, TokenView::Plain(Token::Dot), 0),
        gives(st, seq!['|'], z, TokenView::Plain(Token::Pipe), 0),
        gives(st, seq!['['], z, TokenView::Plain(Token::OpeningSquare), 1),
        gives(st, seq!['{'], z, TokenView::Plain(Token::OpeningCurly), 1),
        gives(st, seq!['('], z, TokenView::Plain(Token::OpeningRound), 1),
        gives(st, seq![']'], z, TokenView::Plain(Token::ClosingSquare), -1),
        gives(st, seq!['}'], z, TokenView::Plain(Token::ClosingCurly), -1),
        gives(st, seq![')'], z, TokenView::Plain(Token::ClosingRound), -1),
{
    lemma_symbol_in_context(st, seq![','], z, Token::Comma, 0);
    lemma_symbol_in_context(st, seq![';'], z, Token::Semicolon, 0);
    lemma_symbol_in_context(st, seq![':'], z, Token::Colon, 0);
    lemma_symbol_in_context(st, seq!['.'], z, Token::Dot, 0);
    lemma_symbol_in_context(st, seq!['|'], z, Token::Pipe, 0);
    lemma_symbol_in_context(st, seq!['['], z, Token::OpeningSquare, 1);
    lemma_symbol_in_context(st, seq!['{'], z, Token::OpeningCurly, 1);
    lemma_symbol_in_context(st, seq!['('], z, Token::OpeningRound, 1);
    lemma_symbol_in_context(st, seq![']'], z, Token::ClosingSquare, -1);
    lemma_symbol_in_context(st, seq!['}'], z, Token::ClosingCurly, -1);
    lemma_symbol_in_context(st, seq![')'], z, Token::ClosingRound, -1);
}

/// A character that nothing starts with is an error, and only that character is.
pub proof fn law_other_characters_are_rejected(st: LexerView, c: char, z: Seq<char>)
    requires
        st.buffer.len() == 0,
        !st.done,
        !('a' <= c && c <= 'z'),
        !('A' <= c && c <= 'Z'),
        !('0' <= c && c <= '9'),
        c != '_' && c != '\'' && c != '"' && c != '#' && c != ' ' && c != '\t' && c != '\n',
        c != ',' && c != ';' && c != ':' && c != '.' && c != '|',
        c != '(' && c != ')' && c != '[' && c != ']' && c != '{' && c != '}',
        c != '+' && c != '-' && c != '*' && c != '/' && c != '%' && c != '=' && c != '<' && c != '>',
        c == '!' ==> z.len() == 0 || z[0] != '=',
        c == '\r' ==> z.len() == 0 || z[0] != '\n',
        c == '\\' ==> z.len() == 0 || (z[0] != '\n' && (z[0] != '\r' || z.len() == 1 || z[1]
            != '\n')),
    ensures
        rejects(st, seq![c], z),
{
    let w = seq![c];
    let s = w + z;
    assert(s[0] == c);
    assert(s.len() > 1 ==> s[1] == z[0]);
    assert(s.len() > 2 ==> s[2] == z[1]);
    assert forall|m: int| 0 < m <= s.len() implies #[trigger] grammar::meaning(
        s.take(m),
    ) is None by {
        let v = s.take(m);
        assert(v[0] == c);
        assert(m > 1 ==> v[1] == s[1]);
        assert(m > 2 ==> v[2] == s[2]);
        if grammar::meaning(v) is Some {
            grammar::lemma_head(v);
            if grammar::symbol(v) is None {
                grammar::lemma_symbol_head(v);
            }
            let slashes = seq!['/', '/', '='];
            assert(slashes[0] == '/');
            let a = seq!['\\', '\n'];
            let b = seq!['\\', '\r', '\n'];
            assert(a[1] == '\n' && b[1] == '\r' && b[2] == '\n');
            let d = seq!['\r', '\n'];
            assert(d[1] == '\n');
        }
    }
    grammar::lemma_is_longest(s, 0);
    assert(s.take(1) =~= w);
    lemma_first_piece(st, w, z);
    reveal(rejects);
}

} // verus!
