//! What the lexer makes of string literals, part by part.

use crate::diagnostic::LexemeError;
use crate::grammar::Class;
use crate::number;
use crate::pieces;
use crate::quoting;
use crate::state::LexemeView;
use crate::state::LexerView;
use crate::string_literal;
use crate::string_literal::Escape;
use crate::string_literal::Quoting;
use crate::string_literal::ScanView;
use crate::string_literal::StringStep;
use crate::text;
use crate::token::Token;
use crate::token::TokenView;
use vstd::prelude::*;

verus! {

/// What stands before the first quote of a literal, with that quote.
pub open spec fn start_of(q: Quoting) -> Seq<char> {
    if q.raw {
        seq!['r', q.quote]
    } else {
        seq![q.quote]
    }
}

/// The other quotes that open it.
pub open spec fn more_of(q: Quoting) -> Seq<char> {
    if q.triple {
        seq![q.quote, q.quote]
    } else {
        seq![]
    }
}

/// The quotes that close it.
pub open spec fn close_of(q: Quoting) -> Seq<char> {
    if q.triple {
        seq![q.quote, q.quote, q.quote]
    } else {
        seq![q.quote]
    }
}

/// What the lexer comes to in the state `st` if the text `s` is still to be read.
#[verifier::opaque]
pub open spec fn answer(st: LexerView, s: Seq<char>) -> (LexerView, Option<LexemeView>) {
    pieces::facing(st, s).next()
}

/// Whether the content `w` of a literal, in quotes and before `z`, is returned as the text `t`. The
/// token starts at the first quote and ends with the last.
pub open spec fn denotes(
    st: LexerView,
    q: Quoting,
    w: Seq<char>,
    t: Seq<char>,
    z: Seq<char>,
) -> bool {
    let all = start_of(q) + more_of(q) + w + close_of(q);
    answer(st, all + z) == (
        pieces::past(st, all, z),
        Some(
            LexemeView::Token {
                begin: st.end + start_of(q).len() - 1,
                token: TokenView::StringLiteral(t),
                end: (st.end + text::utf8_len(all)) as int,
            },
        ),
    )
}

/// Whether a literal with the text `y` behind the quotes that open it is returned as an error, and
/// all that follows its first quote is still to be read.
pub open spec fn fails(
    st: LexerView,
    q: Quoting,
    y: Seq<char>,
    message: LexemeError,
    begin: int,
    end: int,
) -> bool {
    answer(st, start_of(q) + (more_of(q) + y)) == (
        pieces::past(st, start_of(q), more_of(q) + y),
        Some(LexemeView::Error { message, begin, end }),
    )
}

/// A literal is read by its first quote.
proof fn lemma_opened(st: LexerView, q: Quoting, y: Seq<char>)
    requires
        st.buffer.len() == 0,
        !st.done,
        q.wf(),
        !q.triple ==> y.len() < 2 || y[0] != q.quote || y[1] != q.quote,
    ensures
        text::utf8_len(start_of(q)) == start_of(q).len(),
        text::utf8_len(more_of(q)) == more_of(q).len(),
        text::utf8_len(close_of(q)) == close_of(q).len(),
        ({
            let at = pieces::past(st, start_of(q), more_of(q) + y);
            let (new, lexeme) = at.string(q.quote);
            &&& at.quoting(q.quote) == q
            &&& answer(st, start_of(q) + (more_of(q) + y)) == (new, Some(lexeme))
            &&& (more_of(q) + y).skip(more_of(q).len() as int) == y
        }),
{
    let head = start_of(q);
    let more = more_of(q);
    let close = close_of(q);
    let s = head + (more + y);
    text::lemma_step(head, 0);
    assert(head.take(head.len() as int) =~= head);
    assert(more.take(more.len() as int) =~= more);
    assert(close.take(close.len() as int) =~= close);
    if q.raw {
        text::lemma_step(head, 1);
    }
    text::lemma_step(close, 0);
    if q.triple {
        text::lemma_step(more, 0);
        text::lemma_step(more, 1);
        text::lemma_step(close, 1);
        text::lemma_step(close, 2);
    }
    reveal(answer);
    let here = pieces::facing(st, s);
    assert(s[0] == head[0]);
    assert(q.raw ==> s[1] == q.quote);
    quoting::lemma_turn_reads_string(here, q.quote);
    assert(s.skip(head.len() as int) =~= more + y);
    assert((more + y).skip(more.len() as int) =~= y);
    let at = pieces::past(st, head, more + y);
    if q.triple {
        assert((more + y)[0] == q.quote && (more + y)[1] == q.quote);
    } else {
        assert(more + y =~= y);
    }
}

/// Whether the quotes of a literal are seen as they are meant.
spec fn is_clear(q: Quoting, w: Seq<char>, z: Seq<char>) -> bool {
    q.triple || (w.len() > 0 && w[0] != q.quote) || (w.len() == 0 && (z.len() == 0 || z[0]
        != q.quote))
}

/// How a whole literal is put together.
proof fn lemma_whole(st: LexerView, q: Quoting, w: Seq<char>, z: Seq<char>)
    requires
        st.buffer.len() == 0,
        !st.done,
        q.wf(),
        is_clear(q, w, z),
    ensures
        ({
            let all = start_of(q) + more_of(q) + w + close_of(q);
            let y = w + close_of(q) + z;
            let at = pieces::past(st, start_of(q), more_of(q) + y);
            let (new, lexeme) = at.string(q.quote);
            let n = more_of(q).len() + w.len() + close_of(q).len();
            &&& answer(st, all + z) == (new, Some(lexeme))
            &&& at.quoting(q.quote) == q
            &&& text::utf8_len(start_of(q)) == start_of(q).len()
            &&& text::utf8_len(all) == start_of(q).len() + more_of(q).len() + text::utf8_len(w)
                + close_of(q).len()
            &&& (more_of(q) + y).skip(more_of(q).len() as int) == y
            &&& (more_of(q) + y).skip(n as int) == z
            &&& more_of(q).len() == (if q.triple {
                2int
            } else {
                0int
            })
            &&& start_of(q).len() == (if q.raw {
                2int
            } else {
                1int
            })
        }),
{
    let head = start_of(q);
    let more = more_of(q);
    let close = close_of(q);
    let y = w + close + z;
    let all = head + more + w + close;
    assert(close[0] == q.quote);
    assert(!q.triple ==> y.len() < 2 || y[0] != q.quote || y[1] != q.quote) by {
        if w.len() > 0 {
            assert(y[0] == w[0]);
        } else if z.len() > 0 && !q.triple {
            assert(y[1] == z[0]);
        }
    }
    lemma_opened(st, q, y);
    assert(all + z =~= head + (more + y));
    let n = more.len() + w.len() + close.len();
    assert((more + y).skip(n as int) =~= z);
    text::lemma_utf8_len_concat(head, more);
    text::lemma_utf8_len_concat(head + more, w);
    text::lemma_utf8_len_concat(head + more + w, close);
}

/// What has been found in the content of a literal decides how it is returned.
proof fn lemma_then_denotes(st: LexerView, q: Quoting, w: Seq<char>, t: Seq<char>, z: Seq<char>)
    requires
        st.buffer.len() == 0,
        !st.done,
        q.wf(),
        is_clear(q, w, z),
        string_literal::scan(q, w + close_of(q) + z, 0, 0, 0, seq![]) == (ScanView::Closed {
            text: t,
            len: w.len() + close_of(q).len(),
            size: text::utf8_len(w) + close_of(q).len(),
        }),
    ensures
        denotes(st, q, w, t, z),
{
    lemma_whole(st, q, w, z);
}

/// How a literal is returned shows what has been found in its content.
proof fn lemma_denotes_then(st: LexerView, q: Quoting, w: Seq<char>, t: Seq<char>)
    requires
        st.buffer.len() == 0,
        !st.done,
        q.wf(),
        is_clear(q, w, seq![]),
        denotes(st, q, w, t, seq![]),
    ensures
        string_literal::scan(q, w + close_of(q), 0, 0, 0, seq![]) == (ScanView::Closed {
            text: t,
            len: w.len() + close_of(q).len(),
            size: text::utf8_len(w) + close_of(q).len(),
        }),
{
    lemma_whole(st, q, w, seq![]);
    let more = more_of(q);
    let close = close_of(q);
    let y = w + close + seq![];
    assert(y =~= w + close);
    let at = pieces::past(st, start_of(q), more + y);
    let begin = (st.end + start_of(q).len() - 1) as nat;
    string_literal::lemma_string_step(q, at.rest, begin);
    if let StringStep::Literal { len, .. } = string_literal::string_step(q, at.rest, begin) {
        assert(at.rest.skip(len as int).len() == at.rest.len() - len);
    }
}

/// An escape sequence that ends before a quote is all there without the quote.
proof fn lemma_escape_within(s: Seq<char>, tail: Seq<char>)
    requires
        s.len() > 0,
        tail.len() > 0,
        tail[0] == '\'' || tail[0] == '"',
        string_literal::escape_of(s + tail) is Text,
    ensures
        string_literal::escape_of(s) == string_literal::escape_of(s + tail),
        string_literal::escape_len(s) == string_literal::escape_len(s + tail),
        string_literal::escape_len(s) <= s.len(),
{
    let all = s + tail;
    assert(all[0] == s[0]);
    string_literal::lemma_escape_len(s);
    assert(all.skip(1) =~= s.skip(1) + tail);
    quoting::lemma_digits_end(s.skip(1), tail, 8);
    quoting::lemma_digits_end(s.skip(1), tail, 16);
    if s[0] == 'u' {
        if s.len() == 1 {
            assert(all[1] == tail[0]);
        } else {
            assert(all[1] == s[1]);
            assert(all.skip(2) =~= s.skip(2) + tail);
            quoting::lemma_digits_end(s.skip(2), tail, 16);
            let n = number::digit_run(s.skip(2), 16) as int;
            number::lemma_digit_run(s.skip(2), 16);
            if 2 + n < s.len() {
                assert(all[2 + n] == s[2 + n]);
            } else {
                assert(all[2 + n] == tail[0]);
            }
        }
    }
}

/// Outside of three quotes it does not matter how many quotes came in a row; and nowhere before
/// something that is not a quote.
proof fn lemma_run_does_not_matter(
    q: Quoting,
    s: Seq<char>,
    at: nat,
    offset: nat,
    run: nat,
    before: Seq<char>,
)
    requires
        !q.triple || (s.len() > 0 && s[0] != q.quote),
    ensures
        string_literal::scan(q, s, at, offset, run, before) == string_literal::scan(
            q,
            s,
            at,
            offset,
            0,
            before,
        ),
    decreases s.len(),
{
    if s.len() > 0 && !q.triple {
        let c = s[0];
        let tail = s.drop_first();
        let end = offset + text::char_len(c);
        lemma_run_does_not_matter(q, tail, at + 1, end, q.run_after(run, c), before.push(c));
        lemma_run_does_not_matter(q, tail, at + 1, end, q.run_after(0, c), before.push(c));
    }
}

/// Quotes alone do not close a literal where one of them has been taken off.
proof fn lemma_too_few_quotes(q: Quoting, at: nat, offset: nat, before: Seq<char>)
    requires
        q.wf(),
    ensures
        string_literal::scan(q, close_of(q).skip(1), at, offset, 0, before) is Unfinished,
{
    let s = close_of(q).skip(1);
    if q.triple {
        assert(s =~= seq![q.quote, q.quote]);
        assert(s.drop_first() =~= seq![q.quote]);
        assert(s.drop_first().drop_first() =~= seq![]);
        reveal_with_fuel(string_literal::scan, 3);
    } else {
        assert(s =~= seq![]);
    }
}

/// How quotes close a literal.
proof fn lemma_closes(q: Quoting, z: Seq<char>, at: nat, offset: nat, before: Seq<char>)
    requires
        q.wf(),
    ensures
        string_literal::scan(q, close_of(q) + z, at, offset, 0, before) == (ScanView::Closed {
            text: before,
            len: at + close_of(q).len(),
            size: offset + close_of(q).len(),
        }),
{
    let s = close_of(q) + z;
    assert(s[0] == q.quote);
    if q.triple {
        let a = s.drop_first();
        let b = a.drop_first();
        assert(a[0] == q.quote && b[0] == q.quote);
        reveal_with_fuel(string_literal::scan, 4);
        assert(before.push(q.quote).push(q.quote).take(before.len() as int) =~= before);
    }
}

/// What reading the content of a literal comes to.
#[verifier::opaque]
spec fn read(
    q: Quoting,
    s: Seq<char>,
    at: nat,
    offset: nat,
    run: nat,
    before: Seq<char>,
) -> ScanView {
    string_literal::scan(q, s, at, offset, run, before)
}

/// The first step of reading a content.
proof fn lemma_read(q: Quoting, s: Seq<char>, at: nat, offset: nat, run: nat, before: Seq<char>)
    requires
        s.len() > 0,
    ensures
        ({
            let c = s[0];
            let tail = s.drop_first();
            let end = offset + text::char_len(c);
            let r = read(q, s, at, offset, run, before);
            if q.closes(run, c) {
                r is Closed && r->len == at + 1
            } else if c == '\n' && !q.triple {
                r is Unfinished
            } else if c == '\r' {
                r == read(q, tail, at + 1, end, 0, before)
            } else if c != '\\' {
                r == read(q, tail, at + 1, end, q.run_after(run, c), before.push(c))
            } else if tail.len() == 0 {
                !(r is Closed)
            } else {
                let n = if q.raw {
                    1
                } else {
                    string_literal::escape_len(tail)
                };
                let escape = if q.raw {
                    string_literal::raw_escape_of(tail)
                } else {
                    string_literal::escape_of(tail)
                };
                match escape {
                    Escape::Text(d) => n <= tail.len() && r == read(
                        q,
                        tail.skip(n as int),
                        at + 1 + n,
                        end + text::utf8_len(tail.take(n as int)),
                        0,
                        before + d,
                    ),
                    _ => !(r is Closed),
                }
            }
        }),
{
    reveal(read);
    if s.drop_first().len() > 0 {
        string_literal::lemma_escape_len(s.drop_first());
    }
}

/// Quotes alone do not close a literal where one of them has been taken off.
proof fn lemma_too_few_to_read(q: Quoting, at: nat, offset: nat, before: Seq<char>)
    requires
        q.wf(),
    ensures
        read(q, close_of(q).skip(1), at, offset, 0, before) is Unfinished,
{
    reveal(read);
    lemma_too_few_quotes(q, at, offset, before);
}

/// Where the quotes come that close a literal, anything else could come.
proof fn lemma_nothing_read(
    q: Quoting,
    y: Seq<char>,
    at: nat,
    offset: nat,
    run: nat,
    before: Seq<char>,
)
    requires
        q.wf(),
        read(q, close_of(q), at, offset, run, before) is Closed,
        read(q, close_of(q), at, offset, run, before)->len == at + close_of(q).len(),
    ensures
        read(q, y, at, offset, run, before) == read(q, y, at, offset, 0, before),
        read(q, close_of(q), at, offset, run, before)->Closed_text == before,
{
    reveal(read);
    let close = close_of(q);
    if !q.triple {
        lemma_closes(q, seq![], at, offset, before);
        assert(close + seq![] =~= close);
        lemma_run_does_not_matter(q, close, at, offset, run, before);
        lemma_run_does_not_matter(q, y, at, offset, run, before);
    } else {
        lemma_three_quotes(q, at, offset, run, before);
    }
}

/// If the content `w` can be read up to the quotes that close it, it can be read up to anything else
/// that does not belong to an escape sequence.
proof fn lemma_content_read(
    q: Quoting,
    w: Seq<char>,
    y: Seq<char>,
    at: nat,
    offset: nat,
    run: nat,
    before: Seq<char>,
)
    requires
        q.wf(),
        read(q, w + close_of(q), at, offset, run, before) is Closed,
        read(q, w + close_of(q), at, offset, run, before)->len == at + w.len()
            + close_of(q).len(),
        y.len() == 0 || !number::is_digit(y[0], 16),
    ensures
        read(q, w + y, at, offset, run, before) == read(
            q,
            y,
            at + w.len(),
            offset + text::utf8_len(w),
            0,
            read(q, w + close_of(q), at, offset, run, before)->Closed_text,
        ),
    decreases w.len(),
{
    let close = close_of(q);
    let s = w + close;
    if w.len() == 0 {
        assert(s =~= close);
        assert(w + y =~= y);
        lemma_nothing_read(q, y, at, offset, run, before);
    } else {
        let c = w[0];
        let u = w.drop_first();
        let end = offset + text::char_len(c);
        assert(s[0] == c && (w + y)[0] == c);
        assert(s.drop_first() =~= u + close);
        assert((w + y).drop_first() =~= u + y);
        lemma_read(q, s, at, offset, run, before);
        lemma_read(q, w + y, at, offset, run, before);
        if q.closes(run, c) {
        } else if c == '\r' {
            lemma_content_read(q, u, y, at + 1, end, 0, before);
        } else if c != '\\' {
            lemma_content_read(q, u, y, at + 1, end, q.run_after(run, c), before.push(c));
        } else {
            lemma_escape_read(q, u, y);
            let n = if q.raw {
                1
            } else {
                string_literal::escape_len(u + close)
            };
            let escape = if q.raw {
                string_literal::raw_escape_of(u + close)
            } else {
                string_literal::escape_of(u + close)
            };
            if let Escape::Text(d) = escape {
                if u.len() == 0 {
                    assert(u + close =~= close);
                    lemma_too_few_to_read(
                        q,
                        at + 1 + n,
                        end + text::utf8_len(close.take(n as int)),
                        before + d,
                    );
                } else {
                    let more = u.skip(n as int);
                    lemma_split_at(u, close, n as int);
                    lemma_split_at(u, y, n as int);
                    lemma_content_read(
                        q,
                        more,
                        y,
                        at + 1 + n,
                        end + text::utf8_len(u.take(n as int)),
                        0,
                        before + d,
                    );
                }
            }
        }
    }
}

/// A text that goes on, split within its first part.
proof fn lemma_split_at(u: Seq<char>, y: Seq<char>, n: int)
    requires
        0 <= n <= u.len(),
    ensures
        (u + y).skip(n) == u.skip(n) + y,
        (u + y).take(n) == u.take(n),
        text::utf8_len(u) == text::utf8_len(u.take(n)) + text::utf8_len(u.skip(n)),
{
    assert((u + y).skip(n) =~= u.skip(n) + y);
    assert((u + y).take(n) =~= u.take(n));
    text::lemma_utf8_len_split(u, n);
}

/// Three quotes close a literal at the third only where no quote came right before them.
proof fn lemma_three_quotes(q: Quoting, at: nat, offset: nat, run: nat, before: Seq<char>)
    requires
        q.wf(),
        q.triple,
        string_literal::scan(q, close_of(q), at, offset, run, before) is Closed,
        string_literal::scan(q, close_of(q), at, offset, run, before)->len == at + 3,
    ensures
        run == 0,
        string_literal::scan(q, close_of(q), at, offset, run, before)->Closed_text == before,
{
    let s = close_of(q);
    let a = s.drop_first();
    let b = a.drop_first();
    assert(s[0] == q.quote && a[0] == q.quote && b[0] == q.quote);
    assert(b.drop_first() =~= seq![]);
    reveal_with_fuel(string_literal::scan, 4);
    assert(before.push(q.quote).push(q.quote).take(before.len() as int) =~= before);
}

/// The same escape sequence before the quotes that close a literal, and before something else.
proof fn lemma_escape_read(q: Quoting, u: Seq<char>, y: Seq<char>)
    requires
        q.wf(),
        y.len() == 0 || !number::is_digit(y[0], 16),
    ensures
        u.len() == 0 && !q.raw ==> string_literal::escape_len(u + close_of(q)) == 1,
        u.len() > 0 && q.raw ==> string_literal::raw_escape_of(u + close_of(q))
            == string_literal::raw_escape_of(u + y),
        u.len() > 0 && !q.raw && string_literal::escape_of(u + close_of(q)) is Text ==> {
            &&& string_literal::escape_of(u + y) == string_literal::escape_of(u + close_of(q))
            &&& string_literal::escape_len(u + y) == string_literal::escape_len(u + close_of(q))
            &&& string_literal::escape_len(u + y) <= u.len()
        },
{
    let close = close_of(q);
    assert(close[0] == q.quote);
    if u.len() == 0 {
        assert(u + close =~= close);
    } else {
        assert((u + close)[0] == u[0] && (u + y)[0] == u[0]);
        if !q.raw && string_literal::escape_of(u + close) is Text {
            lemma_escape_within(u, close);
            if y.len() > 0 {
                quoting::lemma_escape_ends(u, y);
            } else {
                assert(u + y =~= u);
            }
        }
    }
}

/// What is read does not depend on what was read before it, but for the place and the text so far.
proof fn lemma_shifted(
    q: Quoting,
    s: Seq<char>,
    run: nat,
    x: Seq<char>,
    at: nat,
    offset: nat,
    before: Seq<char>,
)
    requires
        x.len() >= run,
    ensures
        string_literal::scan(q, s, 0, 0, run, x) matches ScanView::Closed { text, len, size }
            ==> string_literal::scan(q, s, at, offset, run, before + x) == (ScanView::Closed {
            text: before + text,
            len: at + len,
            size: offset + size,
        }),
    decreases s.len(),
{
    lemma_shifted_from(q, s, 0, 0, run, x, at, offset, before);
}

proof fn lemma_shifted_from(
    q: Quoting,
    s: Seq<char>,
    i: nat,
    j: nat,
    run: nat,
    x: Seq<char>,
    at: nat,
    offset: nat,
    before: Seq<char>,
)
    requires
        x.len() >= run,
    ensures
        string_literal::scan(q, s, i, j, run, x) matches ScanView::Closed { text, len, size }
            ==> string_literal::scan(q, s, at + i, offset + j, run, before + x) == (
        ScanView::Closed { text: before + text, len: at + len, size: offset + size }),
    decreases s.len(),
{
    if s.len() > 0 {
        let c = s[0];
        let tail = s.drop_first();
        let end = j + text::char_len(c);
        if q.closes(run, c) {
            let n = x.len() - 2;
            if q.triple {
                assert((before + x).take((before + x).len() - 2) =~= before + x.take(n));
            }
        } else if c == '\r' {
            lemma_shifted_from(q, tail, i + 1, end, 0, x, at, offset, before);
        } else if c != '\\' {
            assert((before + x).push(c) =~= before + x.push(c));
            lemma_shifted_from(
                q,
                tail,
                i + 1,
                end,
                q.run_after(run, c),
                x.push(c),
                at,
                offset,
                before,
            );
        } else if tail.len() > 0 {
            let n = if q.raw {
                1
            } else {
                string_literal::escape_len(tail)
            };
            let escape = if q.raw {
                string_literal::raw_escape_of(tail)
            } else {
                string_literal::escape_of(tail)
            };
            string_literal::lemma_escape_len(tail);
            if let Escape::Text(d) = escape {
                assert(before + x + d =~= before + (x + d));
                lemma_shifted_from(
                    q,
                    tail.skip(n as int),
                    i + 1 + n,
                    end + text::utf8_len(tail.take(n as int)),
                    0,
                    x + d,
                    at,
                    offset,
                    before,
                );
            }
        }
    }
}

/// Whether a literal with the content `w` can be spoken of, and denotes `t`.
pub open spec fn is_content(st: LexerView, q: Quoting, w: Seq<char>, t: Seq<char>) -> bool {
    &&& st.buffer.len() == 0
    &&& !st.done
    &&& q.quote == '\'' || q.quote == '"'
    // With one quote, a content that starts with two would be read with three.
    &&& !q.triple ==> w.len() == 0 || w[0] != q.quote
    &&& denotes(st, q, w, t, seq![])
}

/// What has been found in a content, whatever follows.
proof fn lemma_content(st: LexerView, q: Quoting, w: Seq<char>, t: Seq<char>, y: Seq<char>)
    requires
        is_content(st, q, w, t),
        y.len() == 0 || !number::is_digit(y[0], 16),
    ensures
        string_literal::scan(q, w + y, 0, 0, 0, seq![]) == string_literal::scan(
            q,
            y,
            w.len(),
            text::utf8_len(w),
            0,
            t,
        ),
{
    lemma_denotes_then(st, q, w, t);
    reveal(read);
    lemma_content_read(q, w, y, 0, 0, 0, seq![]);
}

/// A part that denotes `d`, before the rest of the content.
proof fn lemma_prepend(
    st: LexerView,
    q: Quoting,
    p: Seq<char>,
    d: Seq<char>,
    w: Seq<char>,
    t: Seq<char>,
    z: Seq<char>,
    run: nat,
)
    requires
        is_content(st, q, w, t),
        p.len() > 0,
        !q.triple ==> p[0] != q.quote,
        run == 0 || !q.triple || (w.len() > 0 && w[0] != q.quote),
        string_literal::scan(q, p + (w + close_of(q) + z), 0, 0, 0, seq![]) == string_literal::scan(
            q,
            w + close_of(q) + z,
            p.len(),
            text::utf8_len(p),
            run,
            d,
        ),
    ensures
        denotes(st, q, p + w, d + t, z),
{
    let close = close_of(q);
    let s = w + close + z;
    assert(close[0] == q.quote);
    assert(s =~= w + (close + z));
    assert((close + z)[0] == q.quote);
    lemma_content(st, q, w, t, close + z);
    lemma_closes(q, z, w.len(), text::utf8_len(w), t);
    lemma_shifted(q, s, 0, seq![], p.len(), text::utf8_len(p), d);
    assert(d + seq![] =~= d);
    if run > 0 {
        assert(w.len() > 0 ==> s[0] == w[0]);
        lemma_run_does_not_matter(q, s, p.len(), text::utf8_len(p), run, d);
    }
    assert(p + s =~= (p + w) + close + z);
    text::lemma_utf8_len_concat(p, w);
    assert((p + w)[0] == p[0]);
    lemma_then_denotes(st, q, p + w, d + t, z);
}

/// One character of a content.
proof fn lemma_one(c: char, s: Seq<char>)
    ensures
        (seq![c] + s)[0] == c,
        (seq![c] + s).drop_first() == s,
        text::utf8_len(seq![c]) == text::char_len(c),
{
    assert((seq![c] + s).drop_first() =~= s);
    text::lemma_step(seq![c], 0);
    assert(seq![c].take(1) =~= seq![c]);
}

/// A literal with nothing in it denotes the empty text.
pub proof fn law_empty_literal(st: LexerView, q: Quoting, z: Seq<char>)
    requires
        st.buffer.len() == 0,
        !st.done,
        q.quote == '\'' || q.quote == '"',
        // Three quotes in a row would open another kind of literal.
        q.triple || z.len() == 0 || z[0] != q.quote,
    ensures
        denotes(st, q, seq![], seq![], z),
{
    lemma_closes(q, z, 0, 0, seq![]);
    assert(seq![] + close_of(q) + z =~= close_of(q) + z);
    lemma_then_denotes(st, q, seq![], seq![], z);
}

/// In every kind of literal a character stands for itself, if it is none of these: the quote, a
/// backslash, a carriage return, and with one quote a line feed. A carriage return stands for
/// nothing. With three quotes, one or two of them in a row stand for themselves.
pub proof fn law_plain_parts(
    st: LexerView,
    q: Quoting,
    c: char,
    w: Seq<char>,
    t: Seq<char>,
    z: Seq<char>,
)
    requires
        is_content(st, q, w, t),
    ensures
        c != q.quote && c != '\\' && c != '\r' && (q.triple || c != '\n') ==> denotes(
            st,
            q,
            seq![c] + w,
            seq![c] + t,
            z,
        ),
        denotes(st, q, seq!['\r'] + w, t, z),
        q.triple && w.len() > 0 && w[0] != q.quote ==> {
            &&& denotes(st, q, seq![q.quote] + w, seq![q.quote] + t, z)
            &&& denotes(st, q, seq![q.quote, q.quote] + w, seq![q.quote, q.quote] + t, z)
        },
{
    let s = w + close_of(q) + z;
    if c != q.quote && c != '\\' && c != '\r' && (q.triple || c != '\n') {
        lemma_one(c, s);
        assert(Seq::<char>::empty().push(c) =~= seq![c]);
        lemma_prepend(st, q, seq![c], seq![c], w, t, z, 0);
    }
    lemma_one('\r', s);
    lemma_prepend(st, q, seq!['\r'], seq![], w, t, z, 0);
    assert(seq![] + t =~= t);
    if q.triple && w.len() > 0 && w[0] != q.quote {
        let one = seq![q.quote];
        let two = seq![q.quote, q.quote];
        lemma_one(q.quote, s);
        assert(Seq::<char>::empty().push(q.quote) =~= one);
        lemma_prepend(st, q, one, one, w, t, z, 1);
        assert(two + s =~= one + (one + s));
        lemma_one(q.quote, one + s);
        assert(one.push(q.quote) =~= two);
        text::lemma_utf8_len_push(one, q.quote);
        reveal_with_fuel(string_literal::scan, 3);
        lemma_prepend(st, q, two, two, w, t, z, 2);
    }
}

/// A backslash and one character behind it.
proof fn lemma_two(e: char, s: Seq<char>)
    ensures
        (seq!['\\', e] + s)[0] == '\\',
        (seq!['\\', e] + s).drop_first() == seq![e] + s,
        (seq![e] + s)[0] == e,
        (seq![e] + s).skip(1) == s,
        (seq![e] + s).take(1) == seq![e],
        text::utf8_len(seq![e]) == text::char_len(e),
        text::utf8_len(seq!['\\', e]) == 1 + text::char_len(e),
{
    assert((seq!['\\', e] + s).drop_first() =~= seq![e] + s);
    assert((seq![e] + s).skip(1) =~= s);
    assert((seq![e] + s).take(1) =~= seq![e]);
    lemma_one(e, s);
    lemma_one('\\', s);
    assert(seq!['\\'].push(e) =~= seq!['\\', e]);
    text::lemma_utf8_len_push(seq!['\\'], e);
}

/// In a raw literal, with one quote or three, a backslash stands for itself, and so does the
/// character behind it, whatever it is. Only before a quote of either kind the backslash is left out.
pub proof fn law_raw_parts(
    st: LexerView,
    q: Quoting,
    c: char,
    w: Seq<char>,
    t: Seq<char>,
    z: Seq<char>,
)
    requires
        is_content(st, q, w, t),
        q.raw,
    ensures
        c == '\'' || c == '"' ==> denotes(st, q, seq!['\\', c] + w, seq![c] + t, z),
        c != '\'' && c != '"' ==> denotes(st, q, seq!['\\', c] + w, seq!['\\', c] + t, z),
{
    let s = w + close_of(q) + z;
    let d = if c == '\'' || c == '"' {
        seq![c]
    } else {
        seq!['\\', c]
    };
    lemma_two(c, s);
    assert(seq![] + d =~= d);
    lemma_prepend(st, q, seq!['\\', c], d, w, t, z, 0);
}

/// In a literal that is not raw, with one quote or three, a backslash before `n`, `r` or `t` stands
/// for a line feed, a carriage return or a tab; before a quote of either kind, or another backslash,
/// for that character; before a line feed for nothing. Before a character that means nothing there,
/// it stands for itself, and the character does too.
pub proof fn law_escapes(
    st: LexerView,
    q: Quoting,
    c: char,
    w: Seq<char>,
    t: Seq<char>,
    z: Seq<char>,
)
    requires
        is_content(st, q, w, t),
        !q.raw,
    ensures
        denotes(st, q, seq!['\\', 'n'] + w, seq!['\n'] + t, z),
        denotes(st, q, seq!['\\', 'r'] + w, seq!['\r'] + t, z),
        denotes(st, q, seq!['\\', 't'] + w, seq!['\t'] + t, z),
        denotes(st, q, seq!['\\', '\''] + w, seq!['\''] + t, z),
        denotes(st, q, seq!['\\', '"'] + w, seq!['"'] + t, z),
        denotes(st, q, seq!['\\', '\\'] + w, seq!['\\'] + t, z),
        denotes(st, q, seq!['\\', '\n'] + w, t, z),
        c != 'n' && c != 'r' && c != 't' && c != '\'' && c != '"' && c != '\\' && c != '\n' && c
            != 'x' && c != 'u' && !('0' <= c && c <= '9') ==> denotes(
            st,
            q,
            seq!['\\', c] + w,
            seq!['\\', c] + t,
            z,
        ),
{
    lemma_simple_escape(st, q, 'n', seq!['\n'], w, t, z);
    lemma_simple_escape(st, q, 'r', seq!['\r'], w, t, z);
    lemma_simple_escape(st, q, 't', seq!['\t'], w, t, z);
    lemma_simple_escape(st, q, '\'', seq!['\''], w, t, z);
    lemma_simple_escape(st, q, '"', seq!['"'], w, t, z);
    lemma_simple_escape(st, q, '\\', seq!['\\'], w, t, z);
    lemma_simple_escape(st, q, '\n', seq![], w, t, z);
    assert(seq![] + t =~= t);
    if c != 'n' && c != 'r' && c != 't' && c != '\'' && c != '"' && c != '\\' && c != '\n' && c
        != 'x' && c != 'u' && !('0' <= c && c <= '9') {
        lemma_simple_escape(st, q, c, seq!['\\', c], w, t, z);
    }
}

proof fn lemma_simple_escape(
    st: LexerView,
    q: Quoting,
    e: char,
    d: Seq<char>,
    w: Seq<char>,
    t: Seq<char>,
    z: Seq<char>,
)
    requires
        is_content(st, q, w, t),
        !q.raw,
        forall|s: Seq<char>|
            #![trigger string_literal::escape_of(seq![e] + s)]
            string_literal::escape_of(seq![e] + s) == Escape::Text(d)
                && string_literal::escape_len(seq![e] + s) == 1,
    ensures
        denotes(st, q, seq!['\\', e] + w, d + t, z),
{
    let s = w + close_of(q) + z;
    lemma_two(e, s);
    assert(string_literal::escape_of(seq![e] + s) == Escape::Text(d));
    assert(seq![] + d =~= d);
    lemma_prepend(st, q, seq!['\\', e], d, w, t, z, 0);
}

/// An escape sequence before the rest of the content.
proof fn lemma_escape_part(
    st: LexerView,
    q: Quoting,
    e: Seq<char>,
    d: Seq<char>,
    w: Seq<char>,
    t: Seq<char>,
    z: Seq<char>,
)
    requires
        is_content(st, q, w, t),
        !q.raw,
        e.len() > 0,
        string_literal::escape_of(e + (w + close_of(q) + z)) == Escape::Text(d),
        string_literal::escape_len(e + (w + close_of(q) + z)) == e.len(),
    ensures
        denotes(st, q, seq!['\\'] + e + w, d + t, z),
{
    let s = w + close_of(q) + z;
    let p = seq!['\\'] + e;
    lemma_one('\\', e + s);
    assert(p + s =~= seq!['\\'] + (e + s));
    assert((e + s).skip(e.len() as int) =~= s);
    assert((e + s).take(e.len() as int) =~= e);
    text::lemma_utf8_len_concat(seq!['\\'], e);
    assert(seq![] + d =~= d);
    lemma_prepend(st, q, p, d, w, t, z, 0);
}

/// Digits that nothing else follows.
proof fn lemma_all_digits(ds: Seq<char>, s: Seq<char>, radix: nat)
    requires
        forall|i: int| 0 <= i < ds.len() ==> number::is_digit(#[trigger] ds[i], radix),
        s.len() == 0 || !number::is_digit(s[0], radix),
    ensures
        number::digit_run(ds + s, radix) == ds.len(),
        string_literal::leading_number(ds + s, radix) == number::digits_to_i32(ds, radix),
    decreases ds.len(),
{
    let all = ds + s;
    assert(all.take(ds.len() as int) =~= ds);
    if ds.len() == 0 {
        assert(all =~= s);
    } else {
        assert(all[0] == ds[0]);
        let rest = ds.drop_first();
        assert(all.drop_first() =~= rest + s);
        assert forall|i: int| 0 <= i < rest.len() implies number::is_digit(
            #[trigger] rest[i],
            radix,
        ) by {
            assert(rest[i] == ds[i + 1]);
        }
        lemma_all_digits(rest, s, radix);
    }
}

/// What is said of a number with a prefix is said of its digits.
proof fn lemma_number_of(st: LexerView, letter: char, radix: u32, ds: Seq<char>, v: i32)
    requires
        st.buffer.len() == 0,
        !st.done,
        (letter == 'x' && radix == 16) || (letter == 'o' && radix == 8),
        ds.len() > 0,
        forall|i: int| 0 <= i < ds.len() ==> number::is_digit(#[trigger] ds[i], radix as nat),
    ensures
        pieces::gives(
            st,
            seq!['0', letter] + ds,
            seq![],
            TokenView::Plain(Token::IntegerLiteral(v)),
            0,
        ) ==> number::digits_to_i32(ds, radix as nat) == Some(v),
        pieces::rejects(st, seq!['0', letter] + ds, seq![]) ==> number::digits_to_i32(
            ds,
            radix as nat,
        ) is None,
{
    assert(Class::Digit(radix).has_all(ds));
    pieces::lemma_prefixed_piece(st, letter, ds, seq![], radix);
    let value = number::digits_to_i32(ds, radix as nat);
    pieces::lemma_number_answer(st, seq!['0', letter] + ds, v, value);
}

/// In a literal that is not raw, with one quote or three, `\0` alone stands for the character with the
/// number 0. Otherwise `\0` and octal digits, `\x` and hexadecimal digits, and `\u` and hexadecimal
/// digits in curly brackets, as many as there are, stand for the character with that number, where
/// there is one. It is the number that is written with `0o` or `0x` before the same digits.
pub proof fn law_escapes_by_number(
    st: LexerView,
    q: Quoting,
    ds: Seq<char>,
    v: i32,
    w: Seq<char>,
    t: Seq<char>,
    z: Seq<char>,
)
    requires
        is_content(st, q, w, t),
        !q.raw,
        ds.len() > 0,
        0 <= v < 0xd800 || 0xe000 <= v <= 0x10ffff,
    ensures
        w.len() == 0 || !('0' <= w[0] && w[0] <= '7') ==> denotes(
            st,
            q,
            seq!['\\', '0'] + w,
            seq!['\0'] + t,
            z,
        ),
        (forall|i: int| 0 <= i < ds.len() ==> '0' <= #[trigger] ds[i] && ds[i] <= '7') && (w.len()
            == 0 || !('0' <= w[0] && w[0] <= '7')) && pieces::gives(
            st,
            seq!['0', 'o'] + ds,
            seq![],
            TokenView::Plain(Token::IntegerLiteral(v)),
            0,
        ) ==> denotes(st, q, seq!['\\'] + (seq!['0'] + ds) + w, seq![v as char] + t, z),
        (forall|i: int|
            0 <= i < ds.len() ==> ('0' <= #[trigger] ds[i] && ds[i] <= '9') || ('a' <= ds[i]
                && ds[i] <= 'f') || ('A' <= ds[i] && ds[i] <= 'F')) && pieces::gives(
            st,
            seq!['0', 'x'] + ds,
            seq![],
            TokenView::Plain(Token::IntegerLiteral(v)),
            0,
        ) ==> {
            &&& w.len() == 0 || !(('0' <= w[0] && w[0] <= '9') || ('a' <= w[0] && w[0] <= 'f') || (
            'A' <= w[0] && w[0] <= 'F')) ==> denotes(
                st,
                q,
                seq!['\\'] + (seq!['x'] + ds) + w,
                seq![v as char] + t,
                z,
            )
            &&& denotes(
                st,
                q,
                seq!['\\'] + (seq!['u', '{'] + ds + seq!['}']) + w,
                seq![v as char] + t,
                z,
            )
        },
{
    let s = w + close_of(q) + z;
    let c = seq![v as char];
    assert(close_of(q)[0] == q.quote);
    assert(s[0] == if w.len() > 0 {
        w[0]
    } else {
        q.quote
    });
    if w.len() == 0 || !('0' <= w[0] && w[0] <= '7') {
        let e = seq!['0'];
        assert((e + s).skip(1) =~= s);
        assert((e + s)[0] == '0');
        lemma_escape_part(st, q, e, seq!['\0'], w, t, z);
        assert(seq!['\\'] + e + w =~= seq!['\\', '0'] + w);
        if (forall|i: int| 0 <= i < ds.len() ==> '0' <= #[trigger] ds[i] && ds[i] <= '7')
            && pieces::gives(
            st,
            seq!['0', 'o'] + ds,
            seq![],
            TokenView::Plain(Token::IntegerLiteral(v)),
            0,
        ) {
            let e = seq!['0'] + ds;
            assert((e + s)[0] == '0');
            assert((e + s).skip(1) =~= ds + s);
            lemma_number_of(st, 'o', 8, ds, v);
            lemma_all_digits(ds, s, 8);
            lemma_escape_part(st, q, e, c, w, t, z);
        }
    }
    if (forall|i: int|
        0 <= i < ds.len() ==> ('0' <= #[trigger] ds[i] && ds[i] <= '9') || ('a' <= ds[i] && ds[i]
            <= 'f') || ('A' <= ds[i] && ds[i] <= 'F')) && pieces::gives(
        st,
        seq!['0', 'x'] + ds,
        seq![],
        TokenView::Plain(Token::IntegerLiteral(v)),
        0,
    ) {
        lemma_number_of(st, 'x', 16, ds, v);
        if w.len() == 0 || !number::is_digit(w[0], 16) {
            let e = seq!['x'] + ds;
            assert((e + s)[0] == 'x');
            assert((e + s).skip(1) =~= ds + s);
            lemma_all_digits(ds, s, 16);
            lemma_escape_part(st, q, e, c, w, t, z);
        }
        let e = seq!['u', '{'] + ds + seq!['}'];
        let tail = seq!['}'] + s;
        assert((e + s)[0] == 'u' && (e + s)[1] == '{');
        assert((e + s).skip(2) =~= ds + tail);
        assert(tail[0] == '}');
        lemma_all_digits(ds, tail, 16);
        assert((e + s)[2int + ds.len()] == '}');
        lemma_escape_part(st, q, e, c, w, t, z);
    }
}

/// What is wrong with the content of a literal decides how it is returned.
proof fn lemma_then_fails(st: LexerView, q: Quoting, y: Seq<char>)
    requires
        st.buffer.len() == 0,
        !st.done,
        q.wf(),
        !q.triple ==> y.len() < 2 || y[0] != q.quote || y[1] != q.quote,
    ensures
        ({
            let first = st.end + start_of(q).len() - 1;
            let base = text::utf8_len(y.take(q.plain_len(y) as int));
            match string_literal::scan(q, y, 0, 0, 0, seq![]) {
                ScanView::Unfinished => fails(
                    st,
                    q,
                    y,
                    LexemeError::UnfinishedStringLiteral,
                    first,
                    first + 1,
                ),
                ScanView::Bad { message, begin, end } => base <= begin <= end ==> fails(
                    st,
                    q,
                    y,
                    message,
                    begin - base,
                    end - base,
                ),
                _ => true,
            }
        }),
{
    lemma_opened(st, q, y);
    assert(start_of(q).len() == (if q.raw {
        2int
    } else {
        1int
    }));
    assert(more_of(q).len() == (if q.triple {
        2int
    } else {
        0int
    }));
}

/// A literal that nothing closes is an error about its first quote: with one quote at the end of its
/// line or of the text, with three only at the end of the text, though one or two quotes stand there.
pub proof fn law_unfinished_literals(
    st: LexerView,
    q: Quoting,
    w: Seq<char>,
    t: Seq<char>,
    y: Seq<char>,
)
    requires
        is_content(st, q, w, t),
        ({
            ||| y.len() == 0
            ||| !q.triple && y[0] == '\n'
            ||| q.triple && (y == seq![q.quote] || y == seq![q.quote, q.quote])
            ||| q.raw && y == seq!['\\']
        }),
    ensures
        ({
            let first = st.end + start_of(q).len() - 1;
            fails(st, q, w + y, LexemeError::UnfinishedStringLiteral, first, first + 1)
        }),
{
    assert(y.len() > 0 ==> !number::is_digit(y[0], 16));
    lemma_content(st, q, w, t, y);
    assert(w.len() > 0 ==> (w + y)[0] == w[0]);
    assert(w.len() == 0 ==> w + y =~= y);
    if y.len() > 0 {
        assert(y.drop_first() =~= y.skip(1));
        if y.len() == 2 && q.triple {
            assert(y.drop_first()[0] == q.quote);
        }
        reveal_with_fuel(string_literal::scan, 3);
    }
    lemma_then_fails(st, q, w + y);
}

/// The characters that stand for themselves at the start of a content.
proof fn lemma_plain_start(q: Quoting, p: Seq<char>, r: Seq<char>)
    requires
        forall|i: int| 0 <= i < p.len() ==> !q.is_special(#[trigger] p[i]),
        r.len() > 0,
        q.is_special(r[0]),
    ensures
        q.plain_len(p + r) == p.len(),
        (p + r).take(p.len() as int) == p,
    decreases p.len(),
{
    let s = p + r;
    assert(s.take(p.len() as int) =~= p);
    if p.len() == 0 {
        assert(s =~= r);
    } else {
        assert(s[0] == p[0]);
        let rest = p.drop_first();
        assert(s.drop_first() =~= rest + r);
        assert forall|i: int| 0 <= i < rest.len() implies !q.is_special(#[trigger] rest[i]) by {
            assert(rest[i] == p[i + 1]);
        }
        lemma_plain_start(q, rest, r);
    }
}

/// Whether a content starts with characters `p` that are there as they are meant, and goes on with a
/// backslash or a carriage return.
pub open spec fn is_start(q: Quoting, p: Seq<char>, m: Seq<char>) -> bool {
    &&& forall|i: int|
        0 <= i < p.len() ==> #[trigger] p[i] != '\\' && p[i] != '\r' && (q.triple || p[i] != '\n')
    &&& m.len() == 0 || m[0] == '\\' || m[0] == '\r'
}

/// A mistake in an escape sequence behind a content that is as it should be.
proof fn lemma_bad_escape(
    st: LexerView,
    q: Quoting,
    p: Seq<char>,
    m: Seq<char>,
    t: Seq<char>,
    e: Seq<char>,
)
    requires
        is_content(st, q, p + m, t),
        !q.raw,
        is_start(q, p, m),
        string_literal::escape_of(e) is Invalid || e.len() == 0,
    ensures
        ({
            let begin = (text::utf8_len(m) + 1) as int;
            let y = p + m + (seq!['\\'] + e);
            if e.len() == 0 {
                fails(st, q, y, LexemeError::UnfinishedStringLiteral, begin, begin)
            } else {
                fails(
                    st,
                    q,
                    y,
                    LexemeError::InvalidEscapeSequence,
                    begin,
                    begin + text::char_len(e[0]),
                )
            }
        }),
{
    let w = p + m;
    let tail = seq!['\\'] + e;
    let y = w + tail;
    let r = m + tail;
    lemma_one('\\', e);
    assert(tail =~= seq!['\\'] + e);
    lemma_content(st, q, w, t, tail);
    assert(y =~= p + r);
    assert(r[0] == if m.len() > 0 {
        m[0]
    } else {
        '\\'
    });
    lemma_plain_start(q, p, r);
    text::lemma_utf8_len_concat(p, m);
    assert(w.len() > 0 ==> y[0] == w[0]);
    assert(w.len() == 0 ==> y[0] == '\\');
    lemma_then_fails(st, q, y);
}

/// What is no escape sequence is an error, at the character behind the backslash. So is a number that
/// no character has, and a backslash at the end of the text, which is an unfinished literal. The
/// place is counted in bytes from the first backslash or carriage return of the content on.
pub proof fn law_bad_escapes(
    st: LexerView,
    q: Quoting,
    p: Seq<char>,
    m: Seq<char>,
    t: Seq<char>,
    e: Seq<char>,
)
    requires
        is_content(st, q, p + m, t),
        !q.raw,
        is_start(q, p, m),
        ({
            ||| e.len() == 0
            ||| '1' <= e[0] && e[0] <= '9'
            ||| e[0] == 'x' && (e.len() == 1 || !(('0' <= e[1] && e[1] <= '9') || ('a' <= e[1]
                && e[1] <= 'f') || ('A' <= e[1] && e[1] <= 'F')))
            ||| e[0] == 'u' && (e.len() == 1 || e[1] != '{' || e.len() == 2 || !(('0' <= e[2]
                && e[2] <= '9') || ('a' <= e[2] && e[2] <= 'f') || ('A' <= e[2] && e[2] <= 'F')))
        }),
    ensures
        ({
            let begin = (text::utf8_len(m) + 1) as int;
            let y = p + m + (seq!['\\'] + e);
            if e.len() == 0 {
                fails(st, q, y, LexemeError::UnfinishedStringLiteral, begin, begin)
            } else {
                fails(
                    st,
                    q,
                    y,
                    LexemeError::InvalidEscapeSequence,
                    begin,
                    begin + text::char_len(e[0]),
                )
            }
        }),
{
    if e.len() > 1 && e[0] == 'x' {
        let tail = e.skip(1);
        assert(tail[0] == e[1]);
        lemma_all_digits(seq![], tail, 16);
        assert(seq![] + tail =~= tail);
    }
    if e.len() > 2 && e[0] == 'u' && e[1] == '{' {
        let tail = e.skip(2);
        assert(tail[0] == e[2]);
        lemma_all_digits(seq![], tail, 16);
        assert(seq![] + tail =~= tail);
    }
    lemma_bad_escape(st, q, p, m, t, e);
}

/// An escape sequence whose number is too large, or is that of no character, is an error: the number
/// that is written with `0o` or `0x` before the same digits is an error, or lies in the gap of the
/// characters or behind the last. So are curly brackets that are not closed behind the digits.
pub proof fn law_escapes_without_character(
    st: LexerView,
    q: Quoting,
    p: Seq<char>,
    m: Seq<char>,
    t: Seq<char>,
    ds: Seq<char>,
    v: i32,
    y: Seq<char>,
)
    requires
        is_content(st, q, p + m, t),
        !q.raw,
        is_start(q, p, m),
        ds.len() > 0,
    ensures
        ({
            let begin = (text::utf8_len(m) + 1) as int;
            let message = LexemeError::InvalidEscapeSequence;
            let octal = seq!['0', 'o'] + ds;
            let hex = seq!['0', 'x'] + ds;
            let number = TokenView::Plain(Token::IntegerLiteral(v));
            let gap = 0xd800 <= v < 0xe000 || v > 0x10ffff;
            let start = p + m;
            &&& (forall|i: int| 0 <= i < ds.len() ==> '0' <= #[trigger] ds[i] && ds[i] <= '7') && (
            y.len() == 0 || !('0' <= y[0] && y[0] <= '7')) && (pieces::rejects(st, octal, seq![])
                || (gap && pieces::gives(st, octal, seq![], number, 0))) ==> fails(
                st,
                q,
                start + (seq!['\\'] + (seq!['0'] + ds + y)),
                message,
                begin,
                begin + 1,
            )
            &&& (forall|i: int|
                0 <= i < ds.len() ==> ('0' <= #[trigger] ds[i] && ds[i] <= '9') || ('a' <= ds[i]
                    && ds[i] <= 'f') || ('A' <= ds[i] && ds[i] <= 'F')) ==> {
                let bad = pieces::rejects(st, hex, seq![]) || (gap && pieces::gives(
                    st,
                    hex,
                    seq![],
                    number,
                    0,
                ));
                let ended = y.len() == 0 || !(('0' <= y[0] && y[0] <= '9') || ('a' <= y[0] && y[0]
                    <= 'f') || ('A' <= y[0] && y[0] <= 'F'));
                &&& bad && ended ==> fails(
                    st,
                    q,
                    start + (seq!['\\'] + (seq!['x'] + ds + y)),
                    message,
                    begin,
                    begin + 1,
                )
                &&& ended && (bad || y.len() == 0 || y[0] != '}') ==> fails(
                    st,
                    q,
                    start + (seq!['\\'] + (seq!['u', '{'] + ds + y)),
                    message,
                    begin,
                    begin + 1,
                )
            }
        }),
{
    let octal = seq!['0', 'o'] + ds;
    let hex = seq!['0', 'x'] + ds;
    let number = TokenView::Plain(Token::IntegerLiteral(v));
    let gap = 0xd800 <= v < 0xe000 || v > 0x10ffff;
    if (forall|i: int| 0 <= i < ds.len() ==> '0' <= #[trigger] ds[i] && ds[i] <= '7') && (y.len()
        == 0 || !('0' <= y[0] && y[0] <= '7')) && (pieces::rejects(st, octal, seq![]) || (gap
        && pieces::gives(st, octal, seq![], number, 0))) {
        let e = seq!['0'] + ds + y;
        assert(e[0] == '0');
        assert(e.skip(1) =~= ds + y);
        lemma_number_of(st, 'o', 8, ds, v);
        lemma_all_digits(ds, y, 8);
        lemma_bad_escape(st, q, p, m, t, e);
    }
    if (forall|i: int|
        0 <= i < ds.len() ==> ('0' <= #[trigger] ds[i] && ds[i] <= '9') || ('a' <= ds[i] && ds[i]
            <= 'f') || ('A' <= ds[i] && ds[i] <= 'F')) && (y.len() == 0 || !number::is_digit(
        y[0],
        16,
    )) {
        let bad = pieces::rejects(st, hex, seq![]) || (gap && pieces::gives(
            st,
            hex,
            seq![],
            number,
            0,
        ));
        lemma_number_of(st, 'x', 16, ds, v);
        lemma_all_digits(ds, y, 16);
        if bad {
            let e = seq!['x'] + ds + y;
            assert(e[0] == 'x');
            assert(e.skip(1) =~= ds + y);
            lemma_bad_escape(st, q, p, m, t, e);
        }
        if bad || y.len() == 0 || y[0] != '}' {
            let e = seq!['u', '{'] + ds + y;
            assert(e[0] == 'u' && e[1] == '{');
            assert(e.skip(2) =~= ds + y);
            assert(y.len() > 0 ==> e[2int + ds.len()] == y[0]);
            lemma_bad_escape(st, q, p, m, t, e);
        }
    }
}

/// How far an escape sequence is read. One character, if it is one by itself, or a digit from 1 to 9;
/// `0` and `x` with all digits behind them; `u` with the character behind it, and if that is a curly
/// bracket with all digits behind it, and one character more behind a number that fits.
pub proof fn law_how_far_escapes_go(c: char, ds: Seq<char>, s: Seq<char>, radix: nat)
    requires
        forall|i: int|
            0 <= i < ds.len() ==> ('0' <= #[trigger] ds[i] && ds[i] <= '7') || (radix == 16 && ((
            '8' <= ds[i] && ds[i] <= '9') || ('a' <= ds[i] && ds[i] <= 'f') || ('A' <= ds[i]
                && ds[i] <= 'F'))),
        s.len() == 0 || !(('0' <= s[0] && s[0] <= '7') || (radix == 16 && (('8' <= s[0] && s[0]
            <= '9') || ('a' <= s[0] && s[0] <= 'f') || ('A' <= s[0] && s[0] <= 'F')))),
        radix == 8 || radix == 16,
    ensures
        c != '0' && c != 'x' && c != 'u' ==> string_literal::escape_len(seq![c] + s) == 1,
        radix == 8 ==> string_literal::escape_len(seq!['0'] + ds + s) == 1 + ds.len(),
        radix == 16 ==> string_literal::escape_len(seq!['x'] + ds + s) == 1 + ds.len(),
        string_literal::escape_len(seq!['u']) == 1,
        c != '{' ==> string_literal::escape_len(seq!['u', c] + s) == 2,
        radix == 16 ==> string_literal::escape_len(seq!['u', '{'] + ds + s) == if ds.len() == 0
            || s.len() == 0 || number::radix_value(ds, 16) > 0x7fff_ffff {
            2 + ds.len()
        } else {
            3 + ds.len()
        },
{
    assert((seq![c] + s)[0] == c);
    let octal = seq!['0'] + ds + s;
    let hex = seq!['x'] + ds + s;
    let curly = seq!['u', '{'] + ds + s;
    let other = seq!['u', c] + s;
    assert(octal[0] == '0' && hex[0] == 'x' && curly[0] == 'u' && curly[1] == '{');
    assert(other[0] == 'u' && other[1] == c);
    assert(octal.skip(1) =~= ds + s && hex.skip(1) =~= ds + s && curly.skip(2) =~= ds + s);
    lemma_all_digits(ds, s, radix);
}

} // verus!
