//! Text that is written as a string literal, and what is read back.

use crate::diagnostic::LexemeError;
use crate::grammar;
use crate::number;
use crate::state::LexemeView;
use crate::state::LexerView;
use crate::string_literal;
use crate::string_literal::Escape;
use crate::string_literal::Quoting;
use crate::string_literal::ScanView;
use crate::string_literal::StringStep;
use crate::text;
use crate::token::TokenView;
use vstd::prelude::*;

verus! {

/// A character as it can be written between two quotes.
pub open spec fn escaped_char(quote: char, c: char) -> Seq<char> {
    if c == quote || c == '\\' {
        seq!['\\', c]
    } else if c == '\n' {
        seq!['\\', 'n']
    } else if c == '\r' {
        seq!['\\', 'r']
    } else {
        seq![c]
    }
}

/// A text as it can be written between two quotes.
pub open spec fn escaped(quote: char, t: Seq<char>) -> Seq<char>
    decreases t.len(),
{
    if t.len() == 0 {
        seq![]
    } else {
        escaped_char(quote, t[0]) + escaped(quote, t.drop_first())
    }
}

/// Whether `w`, between two quotes, is a way to write the text `t`. A character can stand for itself,
/// unless it is the quote, a backslash or a line break. A backslash and what belongs to it stand for
/// what that escape sequence denotes; how far it goes depends on what is written behind it. A
/// carriage return stands for nothing.
pub open spec fn spells(quote: char, w: Seq<char>, t: Seq<char>) -> bool
    decreases w.len(),
{
    if w.len() == 0 {
        t.len() == 0
    } else if w[0] == quote || w[0] == '\n' {
        false
    } else if w[0] == '\r' {
        spells(quote, w.drop_first(), t)
    } else if w[0] != '\\' {
        t.len() > 0 && t[0] == w[0] && spells(quote, w.drop_first(), t.drop_first())
    } else {
        let behind = w.drop_first();
        let n = string_literal::escape_len(behind) as int;
        match string_literal::escape_of(behind) {
            Escape::Text(d) => {
                &&& n <= behind.len()
                &&& d.is_prefix_of(t)
                &&& spells(quote, behind.skip(n), t.skip(d.len() as int))
            },
            _ => false,
        }
    }
}

/// Digits end where something else follows.
pub proof fn lemma_digits_end(s: Seq<char>, tail: Seq<char>, radix: nat)
    requires
        tail.len() > 0,
        !number::is_digit(tail[0], radix),
    ensures
        number::digit_run(s + tail, radix) == number::digit_run(s, radix),
        string_literal::leading_number(s + tail, radix) == string_literal::leading_number(s, radix),
    decreases s.len(),
{
    let all = s + tail;
    if s.len() == 0 {
        assert(all =~= tail);
    } else {
        assert(all[0] == s[0]);
        assert(all.drop_first() =~= s.drop_first() + tail);
        lemma_digits_end(s.drop_first(), tail, radix);
    }
    number::lemma_digit_run(s, radix);
    let n = number::digit_run(s, radix) as int;
    assert(all.take(n) =~= s.take(n));
}

/// What follows an escape sequence does not change it, unless it is a digit.
pub proof fn lemma_escape_ends(s: Seq<char>, tail: Seq<char>)
    requires
        s.len() > 0,
        string_literal::escape_of(s) is Text,
        tail.len() > 0,
        !number::is_digit(tail[0], 16),
    ensures
        string_literal::escape_of(s + tail) == string_literal::escape_of(s),
        string_literal::escape_len(s + tail) == string_literal::escape_len(s),
        string_literal::escape_len(s) <= s.len(),
{
    let all = s + tail;
    assert(all[0] == s[0]);
    string_literal::lemma_escape_len(s);
    assert(all.skip(1) =~= s.skip(1) + tail);
    lemma_digits_end(s.skip(1), tail, 8);
    lemma_digits_end(s.skip(1), tail, 16);
    if s[0] == 'u' {
        let n = number::digit_run(s.skip(2), 16) as int;
        assert(all[1] == s[1] && all[2 + n] == s[2 + n]);
        assert(all.skip(2) =~= s.skip(2) + tail);
        lemma_digits_end(s.skip(2), tail, 16);
    }
}

proof fn lemma_scan_spelling(
    q: Quoting,
    w: Seq<char>,
    t: Seq<char>,
    rest: Seq<char>,
    at: nat,
    offset: nat,
    run: nat,
    before: Seq<char>,
)
    requires
        q.wf(),
        !q.triple,
        !q.raw,
        spells(q.quote, w, t),
    ensures
        string_literal::scan(q, w + seq![q.quote] + rest, at, offset, run, before) == (
        ScanView::Closed {
            text: before + t,
            len: at + w.len() + 1,
            size: offset + text::utf8_len(w) + 1,
        }),
    decreases w.len(),
{
    let s = w + seq![q.quote] + rest;
    if w.len() == 0 {
        assert(s[0] == q.quote);
        assert(before + t =~= before);
    } else {
        let c = w[0];
        let behind = w.drop_first();
        let end = offset + text::char_len(c);
        let tail = s.drop_first();
        assert(s[0] == c);
        assert(tail =~= behind + seq![q.quote] + rest);
        if c == '\r' {
            lemma_scan_spelling(q, behind, t, rest, at + 1, end, 0, before);
        } else if c != '\\' {
            let others = t.drop_first();
            lemma_scan_spelling(q, behind, others, rest, at + 1, end, 0, before.push(c));
            assert(before.push(c) + others =~= before + t);
        } else if let Escape::Text(d) = string_literal::escape_of(behind) {
            let n = string_literal::escape_len(behind);
            let others = t.skip(d.len() as int);
            assert(tail =~= behind + (seq![q.quote] + rest));
            lemma_escape_ends(behind, seq![q.quote] + rest);
            let more = behind.skip(n as int);
            assert(tail.skip(n as int) =~= more + seq![q.quote] + rest);
            assert(tail.take(n as int) =~= behind.take(n as int));
            text::lemma_utf8_len_split(behind, n as int);
            lemma_scan_spelling(
                q,
                more,
                others,
                rest,
                at + 1 + n,
                end + text::utf8_len(behind.take(n as int)),
                0,
                before + d,
            );
            assert(t =~= d + others);
            assert(before + d + others =~= before + t);
        }
    }
}

/// How the literal is read that a state stands before.
pub proof fn lemma_turn_reads_string(st: LexerView, quote: char)
    requires
        st.buffer.len() == 0,
        !st.done,
        quote == '\'' || quote == '"',
        st.rest.len() > 0,
        st.rest[0] == quote || (st.rest.len() > 1 && st.rest[0] == 'r' && st.rest[1] == quote),
    ensures
        ({
            let n: int = if st.rest[0] == quote {
                1
            } else {
                2
            };
            let (new, lexeme) = (LexerView {
                rest: st.rest.skip(n),
                start: st.end,
                end: (st.end + n) as nat,
                ..st
            }).string(quote);
            st.next() == (new, Some(lexeme))
        }),
{
    let s = st.rest;
    text::lemma_step(s, 0);
    if s[0] == quote {
        grammar::lemma_quote(s);
    } else {
        text::lemma_step(s, 1);
        grammar::lemma_raw_quote(s);
    }
    let n: int = if s[0] == quote {
        1
    } else {
        2
    };
    let at = LexerView { rest: s.skip(n), start: st.end, end: (st.end + n) as nat, ..st };
    let raw = grammar::raw_next(s, st.end);
    assert(st.behind(raw) =~= at);
}

/// What the lexer returns for a literal, once it is known how it is read.
proof fn lemma_next_literal(st: LexerView, q: Quoting, t: Seq<char>, len: nat, size: nat)
    requires
        st.buffer.len() == 0,
        !st.done,
        q.wf(),
        st.rest.len() > 0,
        q.raw ==> st.rest.len() > 1 && st.rest[0] == 'r' && st.rest[1] == q.quote,
        !q.raw ==> st.rest[0] == q.quote,
        ({
            let n: int = if q.raw {
                2
            } else {
                1
            };
            let content = st.rest.skip(n);
            &&& q.triple == (content.len() >= 2 && content[0] == q.quote && content[1] == q.quote)
            &&& string_literal::string_step(q, content, (st.end + n - 1) as nat)
                == (StringStep::Literal { text: t, len, size })
        }),
    ensures
        ({
            let n: int = if q.raw {
                2
            } else {
                1
            };
            st.next() == (
                LexerView {
                    rest: st.rest.skip(n).skip(len as int),
                    start: st.end,
                    end: (st.end + n + size) as nat,
                    ..st
                },
                Some(
                    LexemeView::Token {
                        begin: st.end + n - 1,
                        token: TokenView::StringLiteral(t),
                        end: st.end + n + size,
                    },
                ),
            )
        }),
{
    lemma_turn_reads_string(st, q.quote);
}

/// However a text is written between two quotes, it is read back as it is, over all that is written.
pub proof fn law_spelled_text_is_read_back(
    st: LexerView,
    quote: char,
    w: Seq<char>,
    t: Seq<char>,
    rest: Seq<char>,
)
    requires
        st.buffer.len() == 0,
        !st.done,
        quote == '\'' || quote == '"',
        spells(quote, w, t),
        st.rest == seq![quote] + w + seq![quote] + rest,
        // Three quotes in a row would open another kind of literal.
        w.len() == 0 ==> rest.len() == 0 || rest[0] != quote,
    ensures
        ({
            let end = st.end + text::utf8_len(w) + 2;
            st.next() == (
                LexerView { rest, start: st.end, end, ..st },
                Some(
                    LexemeView::Token {
                        begin: st.end as int,
                        token: TokenView::StringLiteral(t),
                        end: end as int,
                    },
                ),
            )
        }),
{
    let content = w + seq![quote] + rest;
    let q = Quoting { quote, triple: false, raw: false };
    assert(st.rest.skip(1) =~= content);
    if w.len() > 0 {
        assert(content[0] == w[0]);
    } else {
        assert(content.len() > 1 ==> content[1] == rest[0]);
    }
    lemma_read_spelling(q, w, t, rest, st.end);
    lemma_next_literal(st, q, t, w.len() + 1, text::utf8_len(w) + 1);
    assert(content.skip(w.len() + 1int) =~= rest);
}

/// How a text is read that is written between two quotes.
proof fn lemma_read_spelling(q: Quoting, w: Seq<char>, t: Seq<char>, rest: Seq<char>, start: nat)
    requires
        q.wf(),
        !q.triple,
        !q.raw,
        spells(q.quote, w, t),
    ensures
        string_literal::string_step(q, w + seq![q.quote] + rest, start) == (StringStep::Literal {
            text: t,
            len: w.len() + 1,
            size: text::utf8_len(w) + 1,
        }),
{
    let content = w + seq![q.quote] + rest;
    assert(content.skip(0) =~= content);
    lemma_scan_spelling(q, w, t, rest, 0, 0, 0, seq![]);
    assert(Seq::<char>::empty() + t =~= t);
}

/// Every text can be written as a string literal: with backslashes where they are needed.
pub proof fn law_every_text_can_be_written(quote: char, t: Seq<char>)
    requires
        quote == '\'' || quote == '"',
    ensures
        spells(quote, escaped(quote, t), t),
    decreases t.len(),
{
    if t.len() > 0 {
        let c = t[0];
        let others = t.drop_first();
        let w = escaped(quote, t);
        let e = escaped_char(quote, c);
        law_every_text_can_be_written(quote, others);
        assert(w[0] == e[0]);
        if e.len() == 2 {
            let behind = w.drop_first();
            assert(behind[0] == e[1]);
            assert(string_literal::escape_len(behind) == 1);
            assert(string_literal::escape_of(behind) == Escape::Text(seq![c]));
            assert(behind.skip(1) =~= escaped(quote, others));
            assert(t.skip(1) =~= others);
        } else {
            assert(w.drop_first() =~= escaped(quote, others));
        }
    }
}

/// Between two quotes, and with backslashes where they are needed, every text is read back as it is.
pub proof fn law_quoted_text_is_read_back(
    st: LexerView,
    quote: char,
    t: Seq<char>,
    rest: Seq<char>,
)
    requires
        st.buffer.len() == 0,
        !st.done,
        quote == '\'' || quote == '"',
        st.rest == seq![quote] + escaped(quote, t) + seq![quote] + rest,
        // Three quotes in a row would open another kind of literal.
        t.len() == 0 ==> rest.len() == 0 || rest[0] != quote,
    ensures
        ({
            let end = st.end + text::utf8_len(escaped(quote, t)) + 2;
            st.next() == (
                LexerView { rest, start: st.end, end, ..st },
                Some(
                    LexemeView::Token {
                        begin: st.end as int,
                        token: TokenView::StringLiteral(t),
                        end: end as int,
                    },
                ),
            )
        }),
{
    law_every_text_can_be_written(quote, t);
    law_spelled_text_is_read_back(st, quote, escaped(quote, t), t, rest);
}

/// Whether a text can stand between quotes as it is.
pub open spec fn is_plain(q: Quoting, t: Seq<char>) -> bool {
    forall|i: int| 0 <= i < t.len() ==> !q.is_special(#[trigger] t[i]) && t[i] != q.quote
}

/// What opens and what closes the literal, behind its first quote.
pub open spec fn more_quotes(q: Quoting) -> Seq<char> {
    if q.triple {
        seq![q.quote, q.quote]
    } else {
        seq![]
    }
}

proof fn lemma_scan_plain_text(
    q: Quoting,
    t: Seq<char>,
    rest: Seq<char>,
    at: nat,
    offset: nat,
    before: Seq<char>,
)
    requires
        q.wf(),
        is_plain(q, t),
    ensures
        string_literal::scan(
            q,
            t + more_quotes(q) + seq![q.quote] + rest,
            at,
            offset,
            0,
            before,
        ) == (ScanView::Closed {
            text: before + t,
            len: at + t.len() + more_quotes(q).len() + 1,
            size: offset + text::utf8_len(t) + more_quotes(q).len() + 1,
        }),
    decreases t.len(),
{
    let s = t + more_quotes(q) + seq![q.quote] + rest;
    if t.len() == 0 {
        assert(before + t =~= before);
        assert(s[0] == q.quote);
        if q.triple {
            assert(s[1] == q.quote && s[2] == q.quote);
            assert(s.drop_first().drop_first()[0] == s[2]);
            assert(s.drop_first()[0] == s[1]);
            reveal_with_fuel(string_literal::scan, 4);
            assert(before.push(q.quote).push(q.quote).take(before.len() as int) =~= before);
        }
    } else {
        let c = t[0];
        let others = t.drop_first();
        assert(s[0] == c);
        assert(!q.is_special(t[0]));
        assert(s.drop_first() =~= others + more_quotes(q) + seq![q.quote] + rest);
        assert forall|i: int| 0 <= i < others.len() implies !q.is_special(#[trigger] others[i])
            && others[i] != q.quote by {
            assert(others[i] == t[i + 1]);
        }
        lemma_scan_plain_text(q, others, rest, at + 1, offset + text::char_len(c), before.push(c));
        assert(before.push(c) + others =~= before + t);
    }
}

/// What stands behind the first quote of a literal.
pub open spec fn remainder(q: Quoting, t: Seq<char>) -> Seq<char> {
    more_quotes(q) + t + more_quotes(q) + seq![q.quote]
}

proof fn lemma_read_plain_text(q: Quoting, t: Seq<char>, rest: Seq<char>, start: nat)
    requires
        q.wf(),
        is_plain(q, t),
    ensures
        string_literal::string_step(q, remainder(q, t) + rest, start) == (StringStep::Literal {
            text: t,
            len: remainder(q, t).len(),
            size: text::utf8_len(remainder(q, t)),
        }),
{
    let more = more_quotes(q);
    let w = remainder(q, t);
    let content = w + rest;
    assert(content.skip(more.len() as int) =~= t + more + seq![q.quote] + rest);
    lemma_scan_plain_text(q, t, rest, 0, 0, seq![]);
    assert(Seq::<char>::empty() + t =~= t);
    lemma_quotes_len(q);
    text::lemma_utf8_len_concat(more, t);
    text::lemma_utf8_len_concat(more + t, more);
    text::lemma_utf8_len_push(more + t + more, q.quote);
    assert((more + t + more).push(q.quote) =~= w);
}

/// The text of a literal, as it is written: an `r` where it is raw, and the quotes.
pub open spec fn written(q: Quoting, t: Seq<char>) -> Seq<char> {
    (if q.raw {
        seq!['r']
    } else {
        seq![]
    }) + seq![q.quote] + remainder(q, t)
}

/// Text without quotes, backslashes and line breaks stands for itself, however it is quoted; with
/// three quotes it may have line breaks that are not carriage returns. The token starts at the
/// first quote.
pub proof fn law_plain_text_stands_for_itself(
    st: LexerView,
    q: Quoting,
    t: Seq<char>,
    rest: Seq<char>,
)
    requires
        st.buffer.len() == 0,
        !st.done,
        q.wf(),
        is_plain(q, t),
        st.rest == written(q, t) + rest,
        !q.triple && t.len() == 0 ==> rest.len() == 0 || rest[0] != q.quote,
    ensures
        ({
            let end = st.end + text::utf8_len(written(q, t));
            st.next() == (
                LexerView { rest, start: st.end, end, ..st },
                Some(
                    LexemeView::Token {
                        begin: st.end + if q.raw {
                            1int
                        } else {
                            0int
                        },
                        token: TokenView::StringLiteral(t),
                        end: end as int,
                    },
                ),
            )
        }),
{
    let opening: int = if q.raw {
        2
    } else {
        1
    };
    let w = remainder(q, t);
    let content = w + rest;
    let head = if q.raw {
        seq!['r', q.quote]
    } else {
        seq![q.quote]
    };
    assert(written(q, t) =~= head + w);
    assert(st.rest.skip(opening) =~= content);
    assert(st.rest[0] == head[0]);
    assert(q.raw ==> st.rest[1] == q.quote);
    if q.triple {
        assert(content[0] == q.quote && content[1] == q.quote);
    } else if t.len() > 0 {
        assert(content[0] == t[0]);
    } else {
        assert(content.len() > 1 ==> content[1] == rest[0]);
    }
    lemma_read_plain_text(q, t, rest, (st.end + opening - 1) as nat);
    lemma_next_literal(st, q, t, w.len(), text::utf8_len(w));
    assert(content.skip(w.len() as int) =~= rest);
    text::lemma_utf8_len_concat(head, w);
    text::lemma_step(head, 0);
    if q.raw {
        text::lemma_step(head, 1);
        assert(head.take(2) =~= head);
    } else {
        assert(head.take(1) =~= head);
    }
}

/// Where the quotes stand that close a literal.
proof fn lemma_closing_quotes(
    q: Quoting,
    s: Seq<char>,
    at: nat,
    offset: nat,
    run: nat,
    before: Seq<char>,
)
    ensures
        string_literal::scan(q, s, at, offset, run, before) matches ScanView::Closed { len, .. }
            ==> {
            let k = len - at - 1;
            &&& 0 <= k < s.len()
            &&& s[k] == q.quote
            &&& q.triple ==> k >= 2 - run
            &&& q.triple && k >= 1 ==> s[k - 1] == q.quote
            &&& q.triple && k >= 2 ==> s[k - 2] == q.quote
        },
    decreases s.len(),
{
    if s.len() > 0 {
        let c = s[0];
        let tail = s.drop_first();
        let end = offset + text::char_len(c);
        if q.closes(run, c) || (c == '\n' && !q.triple) {
        } else if c == '\r' {
            lemma_closing_quotes(q, tail, at + 1, end, 0, before);
        } else if c != '\\' {
            lemma_closing_quotes(q, tail, at + 1, end, q.run_after(run, c), before.push(c));
        } else if tail.len() > 0 {
            let n = if q.raw {
                1
            } else {
                string_literal::escape_len(tail)
            };
            let escape = if q.raw {
                string_literal::raw_escape_of(tail)
            } else {
                string_literal::escape_of(tail)
            };
            if let Escape::Text(t) = escape {
                if n <= tail.len() {
                    lemma_closing_quotes(
                        q,
                        tail.skip(n as int),
                        at + 1 + n,
                        end + text::utf8_len(tail.take(n as int)),
                        0,
                        before + t,
                    );
                }
            }
        }
    }
}

/// The text of a closed literal starts and ends with its quotes, and these are not the same quotes;
/// it has three of each where it is triple. The token covers all of that text: it starts
/// at the first quote, and the text behind it follows.
pub proof fn law_literal_is_quoted(st: LexerView, quote: char)
    requires
        quote == '\'' || quote == '"',
        st.end == st.start + 1 || st.end == st.start + 2,
        st.string(quote).1 is Token,
    ensures
        ({
            let (new, lexeme) = st.string(quote);
            let n = st.rest.len() - new.rest.len();
            let behind = st.rest.take(n);
            &&& 0 <= n <= st.rest.len()
            &&& new.rest == st.rest.skip(n)
            &&& lexeme.begin() == st.end - 1
            &&& lexeme.end() == st.end + text::utf8_len(behind)
            &&& lexeme.end() == new.end
            &&& n >= 1
            &&& behind[n - 1] == quote
            &&& st.quoting(quote).triple ==> {
                &&& n >= 5
                &&& behind[0] == quote
                &&& behind[1] == quote
                &&& behind[n - 2] == quote
                &&& behind[n - 3] == quote
            }
            &&& !st.quoting(quote).triple ==> n == 1 || behind[0] != quote
        }),
{
    let q = st.quoting(quote);
    let begin = st.start + if q.raw {
        1nat
    } else {
        0nat
    };
    let opening: int = if q.triple {
        2
    } else {
        0
    };
    let content = st.rest.skip(opening);
    string_literal::lemma_string_step(q, st.rest, begin);
    lemma_closing_quotes(q, content, 0, 0, 0, seq![]);
    let (new, lexeme) = st.string(quote);
    let n = st.rest.len() - new.rest.len();
    let behind = st.rest.take(n);
    assert(behind[n - 1] == content[n - opening - 1]);
    if !q.triple {
        assert(content[0] == st.rest[0]);
    } else {
        assert(behind[n - 2] == content[n - 4]);
        assert(behind[n - 3] == content[n - 5]);
    }
}

/// The first quote of a string literal is always answered, and only what was read changes: by a
/// string literal, or by an error with all that follows the quote still to be read.
pub proof fn law_quotes_are_answered(st: LexerView, quote: char)
    ensures
        ({
            let (new, lexeme) = st.string(quote);
            &&& new == LexerView { rest: new.rest, end: new.end, ..st }
            &&& match lexeme {
                LexemeView::Token { token, .. } => token is StringLiteral,
                LexemeView::Error { message, .. } => {
                    &&& new == st
                    &&& message == LexemeError::UnfinishedStringLiteral || message
                        == LexemeError::InvalidEscapeSequence
                },
            }
        }),
{
    let q = st.quoting(quote);
    let begin = st.start + if q.raw {
        1nat
    } else {
        0nat
    };
    string_literal::lemma_string_messages(q, st.rest, begin);
}

proof fn lemma_quotes_len(q: Quoting)
    requires
        q.wf(),
    ensures
        text::utf8_len(more_quotes(q)) == more_quotes(q).len(),
{
    let more = more_quotes(q);
    if q.triple {
        text::lemma_step(more, 0);
        text::lemma_step(more, 1);
        assert(more.take(2) =~= more);
    }
}

} // verus!
