//! What the lexer makes of lines and their margins.

use crate::diagnostic::LexemeError;
use crate::grammar;
use crate::grammar::Class;
use crate::indent;
use crate::laws;
use crate::pieces;
use crate::state;
use crate::state::LexemeView;
use crate::state::LexerView;
use crate::text;
use crate::token::Token;
use crate::token::TokenView;
use vstd::prelude::*;

verus! {

/// A token without text.
pub open spec fn plain(begin: int, token: Token, end: int) -> LexemeView {
    LexemeView::Token { begin, token: TokenView::Plain(token), end }
}

/// How a line break is read.
proof fn lemma_line_break(st: LexerView, nl: Seq<char>, s: Seq<char>)
    requires
        st.buffer.len() == 0,
        !st.done,
        nl == seq!['\n'] || nl == seq!['\r', '\n'],
    ensures
        text::utf8_len(nl) == nl.len(),
        st.parens != 0 ==> pieces::skips(st, nl, s),
        st.parens == 0 ==> ({
            let (new, error) = pieces::past(st, nl, s).calculate_indent();
            pieces::facing(st, nl + s).next() == (
                new,
                match error {
                    Some(e) => Some(e),
                    None => Some(
                        plain(st.end as int, Token::Newline, (st.end + nl.len()) as int),
                    ),
                },
            )
        }),
{
    let all = nl + s;
    let n = nl.len() as int;
    text::lemma_step(nl, 0);
    if n == 2 {
        text::lemma_step(nl, 1);
    }
    assert(nl.take(n) =~= nl);
    assert(all.take(n) =~= nl);
    grammar::lemma_newline(nl);
    assert forall|m: int| n < m <= all.len() implies #[trigger] grammar::meaning(
        all.take(m),
    ) is None by {
        let v = all.take(m);
        assert(v[0] == nl[0]);
        if grammar::meaning(v) is Some {
            grammar::lemma_head(v);
        }
    }
    grammar::lemma_is_longest(all, n);
    pieces::lemma_first_piece(st, nl, s);
}

/// Between brackets line breaks are passed over.
pub proof fn law_line_breaks_in_brackets(st: LexerView, nl: Seq<char>, z: Seq<char>)
    requires
        st.buffer.len() == 0,
        !st.done,
        st.parens != 0,
        nl == seq!['\n'] || nl == seq!['\r', '\n'],
    ensures
        pieces::skips(st, nl, z),
{
    lemma_line_break(st, nl, z);
}

/// The spaces and tabs that a text starts with.
proof fn lemma_blank(b: Seq<char>, z: Seq<char>)
    requires
        forall|i: int| 0 <= i < b.len() ==> #[trigger] b[i] == ' ' || b[i] == '\t',
        z.len() == 0 || (z[0] != ' ' && z[0] != '\t'),
    ensures
        indent::blank_len(b + z) == b.len(),
        (b + z).take(b.len() as int) == b,
        (b + z).skip(b.len() as int) == z,
        text::utf8_len(b) == b.len(),
    decreases b.len(),
{
    let s = b + z;
    assert(s.take(b.len() as int) =~= b);
    assert(s.skip(b.len() as int) =~= z);
    if b.len() == 0 {
        assert(s =~= z);
    } else {
        assert(s[0] == b[0]);
        assert(s.drop_first() =~= b.drop_first() + z);
        lemma_blank(b.drop_first(), z);
    }
}

/// How often a character occurs.
proof fn lemma_count(b: Seq<char>, c: char)
    ensures
        indent::count(b, c) == b.to_multiset().count(c),
    decreases b.len(),
{
    b.to_multiset_ensures();
    if b.len() > 0 {
        let front = b.drop_last();
        lemma_count(front, c);
        front.to_multiset_ensures();
        assert(b =~= front.push(b.last()));
    }
}

/// A line with nothing but spaces and tabs on it, of which there may be none, opens and closes no
/// block, whatever they are: there is only the line break before it.
pub proof fn law_blank_lines(st: LexerView, nl: Seq<char>, b: Seq<char>, z: Seq<char>)
    requires
        st.buffer.len() == 0,
        !st.done,
        st.parens == 0,
        nl == seq!['\n'] || nl == seq!['\r', '\n'],
        forall|i: int| 0 <= i < b.len() ==> #[trigger] b[i] == ' ' || b[i] == '\t',
        z.len() == 0 || z[0] == '\n',
    ensures
        pieces::facing(st, nl + b + z).next() == (
            LexerView {
                rest: z,
                start: st.end,
                end: st.end + nl.len() + b.len(),
                ..st
            },
            Some(plain(st.end as int, Token::Newline, (st.end + nl.len()) as int)),
        ),
{
    assert(nl + b + z =~= nl + (b + z));
    lemma_line_break(st, nl, b + z);
    lemma_blank(b, z);
    assert(z.len() > 0 ==> (b + z)[b.len() as int] == z[0]);
}

/// A line with something on it. A margin of `s` spaces and `t` tabs, in any order, is `s + 8 * t`
/// wide. If it is wider than the innermost open block, it opens one of that width. Otherwise it
/// closes the blocks that are wider, and then there must be none open if the margin is empty, or the
/// innermost must be as wide as it is. Tabs are an error in a dialect that does not allow them.
pub proof fn law_indented_lines(st: LexerView, nl: Seq<char>, b: Seq<char>, z: Seq<char>)
    requires
        st.buffer.len() == 0,
        !st.done,
        st.parens == 0,
        laws::is_nested(st.levels),
        nl == seq!['\n'] || nl == seq!['\r', '\n'],
        forall|i: int| 0 <= i < b.len() ==> #[trigger] b[i] == ' ' || b[i] == '\t',
        z.len() > 0,
        z[0] != ' ' && z[0] != '\t' && z[0] != '\n' && z[0] != '#',
    ensures
        ({
            let (new, lexeme) = pieces::facing(st, nl + b + z).next();
            let t = b.to_multiset().count('\t');
            let width = b.to_multiset().count(' ') + 8 * t;
            let now = if st.levels.len() == 0 {
                0
            } else {
                st.levels.last()
            };
            let kept = new.levels.len();
            let line = plain(st.end as int, Token::Newline, (st.end + nl.len()) as int);
            &&& new == LexerView {
                rest: z,
                start: st.end,
                end: st.end + nl.len() + b.len(),
                levels: new.levels,
                buffer: new.buffer,
                ..st
            }
            &&& if t > 0 && !st.tabs {
                &&& lexeme == Some(
                    LexemeView::Error {
                        message: LexemeError::InvalidTab,
                        begin: st.end as int,
                        end: st.end as int,
                    },
                )
                &&& new.levels == st.levels
                &&& new.buffer.len() == 0
            } else if width > now {
                &&& lexeme == Some(line)
                &&& new.levels == st.levels.push(width)
                &&& new.buffer == seq![plain(st.end + 1int, Token::Indent, new.end as int)]
            } else {
                &&& kept <= st.levels.len()
                &&& new.levels == st.levels.take(kept as int)
                &&& forall|i: int| 0 <= i < kept ==> st.levels[i] <= width
                &&& forall|i: int| kept <= i < st.levels.len() ==> st.levels[i] > width
                &&& if (kept == 0 && width == 0) || (kept > 0 && st.levels[kept - 1] == width) {
                    &&& lexeme == Some(line)
                    &&& new.buffer.len() == st.levels.len() - kept
                    &&& forall|i: int|
                        0 <= i < new.buffer.len() ==> #[trigger] new.buffer[i] == plain(
                            st.end + 1int,
                            Token::Dedent,
                            st.end + 1int,
                        )
                } else {
                    &&& lexeme == Some(
                        LexemeView::Error {
                            message: LexemeError::Indentation,
                            begin: st.end as int,
                            end: new.end as int,
                        },
                    )
                    &&& new.buffer.len() == 0
                }
            }
        }),
{
    let s = b + z;
    assert(nl + b + z =~= nl + s);
    lemma_line_break(st, nl, s);
    lemma_blank(b, z);
    lemma_count(b, ' ');
    lemma_count(b, '\t');
    assert(s[b.len() as int] == z[0]);
    let width = b.to_multiset().count(' ') + b.to_multiset().count('\t') * 8;
    laws::law_unwind_keeps_outer_blocks(st.levels, width);
    let at = pieces::past(st, nl, s);
    let (new, error) = at.calculate_indent();
    let n = (st.levels.len() - indent::unwind(st.levels, width).len()) as nat;
    assert(at.buffer + state::dedents(n, st.end + 1int) =~= state::dedents(n, st.end + 1int));
    if new.buffer.len() == 1 {
        assert(new.buffer =~= seq![new.buffer[0]]);
    }
    assert(new.levels == st.levels ==> st.levels.take(st.levels.len() as int) =~= st.levels);
}

/// A line with nothing but a comment on it makes no difference but to where things stand: what the
/// line break before it comes to is what it would come to without that line.
pub proof fn law_comment_lines(
    st: LexerView,
    nl: Seq<char>,
    b: Seq<char>,
    comment: Seq<char>,
    y: Seq<char>,
)
    requires
        st.buffer.len() == 0,
        !st.done,
        st.parens == 0,
        nl == seq!['\n'] || nl == seq!['\r', '\n'],
        forall|i: int| 0 <= i < b.len() ==> #[trigger] b[i] == ' ' || b[i] == '\t',
        forall|i: int| 0 <= i < comment.len() ==> #[trigger] comment[i] != '\n',
    ensures
        ({
            let line = b + seq!['#'] + comment + seq!['\n'];
            let size = text::utf8_len(line);
            let (new, lexeme) = pieces::facing(st, nl + line + y).next();
            let (other, without) = pieces::facing(st, nl + y).next();
            &&& new == LexerView { end: other.end + size, buffer: new.buffer, ..other }
            &&& new.buffer.len() == other.buffer.len()
            &&& forall|i: int|
                0 <= i < new.buffer.len() ==> #[trigger] new.buffer[i] == (LexemeView::Token {
                    begin: other.buffer[i].begin() + size,
                    token: other.buffer[i]->token,
                    end: other.buffer[i].end() + size,
                })
            &&& lexeme == match without {
                Some(
                    LexemeView::Error { message: LexemeError::Indentation, begin, end },
                ) => Some(
                    LexemeView::Error {
                        message: LexemeError::Indentation,
                        begin,
                        end: end + size,
                    },
                ),
                _ => without,
            }
        }),
{
    let line = b + seq!['#'] + comment + seq!['\n'];
    let s = line + y;
    let at = pieces::past(st, nl, s);
    assert(nl + line + y =~= nl + s);
    lemma_line_break(st, nl, s);
    lemma_line_break(st, nl, y);
    laws::law_comment_lines_leave_no_trace(at, b, comment, y);
    let below = indent::margin(y).len as int;
    indent::lemma_margin(y);
    let here = indent::margin(s).len as int;
    assert(s.take(here) =~= line + y.take(below));
    text::lemma_utf8_len_concat(line, y.take(below));
    assert(s.skip(here) =~= y.skip(below));
}

/// A comment on the last line is passed over with all of that line.
pub proof fn law_last_comment(st: LexerView, nl: Seq<char>, b: Seq<char>, comment: Seq<char>)
    requires
        st.buffer.len() == 0,
        !st.done,
        st.parens == 0,
        nl == seq!['\n'] || nl == seq!['\r', '\n'],
        forall|i: int| 0 <= i < b.len() ==> #[trigger] b[i] == ' ' || b[i] == '\t',
        forall|i: int| 0 <= i < comment.len() ==> #[trigger] comment[i] != '\n',
    ensures
        ({
            let line = b + seq!['#'] + comment;
            pieces::facing(st, nl + line).next() == (
                LexerView {
                    rest: seq![],
                    start: st.end,
                    end: st.end + nl.len() + text::utf8_len(line),
                    ..st
                },
                Some(plain(st.end as int, Token::Newline, (st.end + nl.len()) as int)),
            )
        }),
{
    let line = b + seq!['#'] + comment;
    let tail = seq!['#'] + comment;
    assert(line =~= b + tail);
    lemma_line_break(st, nl, line);
    lemma_blank(b, tail);
    assert(line[b.len() as int] == '#');
    assert forall|i: int| 0 <= i < tail.len() implies Class::NotNewline.has(#[trigger] tail[i]) by {
        if i > 0 {
            assert(tail[i] == comment[i - 1]);
        }
    }
    pieces::lemma_run_of(Class::NotNewline, tail, seq![]);
    assert(tail + seq![] =~= tail);
    assert(line.take(line.len() as int) =~= line);
    assert(line.skip(line.len() as int) =~= seq![]);
}

/// A text with nothing but a comment in it comes to nothing.
pub proof fn law_only_comment(b: Seq<char>, comment: Seq<char>, tabs: bool)
    requires
        forall|i: int| 0 <= i < b.len() ==> #[trigger] b[i] == ' ' || b[i] == '\t',
        forall|i: int| 0 <= i < comment.len() ==> #[trigger] comment[i] != '\n',
    ensures
        ({
            let line = b + seq!['#'] + comment;
            LexerView::initial(line, tabs) == LexerView {
                rest: seq![],
                start: 0,
                end: text::utf8_len(line),
                levels: seq![],
                parens: 0,
                buffer: seq![],
                done: false,
                tabs,
            }
        }),
{
    let line = b + seq!['#'] + comment;
    let tail = seq!['#'] + comment;
    assert(line =~= b + tail);
    lemma_blank(b, tail);
    assert(line[b.len() as int] == '#');
    assert forall|i: int| 0 <= i < tail.len() implies Class::NotNewline.has(#[trigger] tail[i]) by {
        if i > 0 {
            assert(tail[i] == comment[i - 1]);
        }
    }
    pieces::lemma_run_of(Class::NotNewline, tail, seq![]);
    assert(tail + seq![] =~= tail);
    assert(line.take(line.len() as int) =~= line);
    assert(line.skip(line.len() as int) =~= seq![]);
}

/// A line with nothing but a comment on it, before the first line, makes no difference either.
pub proof fn law_first_comment(b: Seq<char>, comment: Seq<char>, y: Seq<char>, tabs: bool)
    requires
        forall|i: int| 0 <= i < b.len() ==> #[trigger] b[i] == ' ' || b[i] == '\t',
        forall|i: int| 0 <= i < comment.len() ==> #[trigger] comment[i] != '\n',
    ensures
        ({
            let line = b + seq!['#'] + comment + seq!['\n'];
            let size = text::utf8_len(line);
            let new = LexerView::initial(line + y, tabs);
            let other = LexerView::initial(y, tabs);
            &&& new == LexerView { end: other.end + size, buffer: new.buffer, ..other }
            &&& new.buffer.len() == other.buffer.len()
            &&& forall|i: int|
                0 <= i < new.buffer.len() ==> #[trigger] new.buffer[i] == match other.buffer[i] {
                    LexemeView::Token { begin, token, end } => LexemeView::Token {
                        begin: begin + size,
                        token,
                        end: end + size,
                    },
                    error => error,
                }
        }),
{
    let line = b + seq!['#'] + comment + seq!['\n'];
    let s = line + y;
    let at = LexerView::fresh(s, tabs);
    laws::law_comment_lines_leave_no_trace(at, b, comment, y);
    let below = indent::margin(y).len as int;
    indent::lemma_margin(y);
    let here = indent::margin(s).len as int;
    assert(s.take(here) =~= line + y.take(below));
    text::lemma_utf8_len_concat(line, y.take(below));
    assert(s.skip(here) =~= y.skip(below));
    if let Some(l) = indent::margin(y).line {
        assert(indent::unwind(seq![], l.spaces + l.tabs * 8) =~= seq![]);
    }
}

/// The first line can be indented too. Only the start of a block comes of it, or an error.
pub proof fn law_first_line(b: Seq<char>, z: Seq<char>, tabs: bool)
    requires
        forall|i: int| 0 <= i < b.len() ==> #[trigger] b[i] == ' ' || b[i] == '\t',
        z.len() == 0 || (z[0] != ' ' && z[0] != '\t' && z[0] != '#'),
    ensures
        ({
            let st = LexerView::initial(b + z, tabs);
            let t = b.to_multiset().count('\t');
            let width = b.to_multiset().count(' ') + 8 * t;
            &&& st.rest == z
            &&& st.start == 0
            &&& st.end == b.len()
            &&& st.parens == 0
            &&& !st.done
            &&& st.tabs == tabs
            &&& if z.len() == 0 || z[0] == '\n' {
                st.levels.len() == 0 && st.buffer.len() == 0
            } else if t > 0 && !tabs {
                &&& st.levels.len() == 0
                &&& st.buffer == seq![
                    LexemeView::Error { message: LexemeError::InvalidTab, begin: 0, end: 0 },
                ]
            } else if width > 0 {
                &&& st.levels == seq![width]
                &&& st.buffer == seq![plain(1, Token::Indent, b.len() as int)]
            } else {
                st.levels.len() == 0 && st.buffer.len() == 0
            }
        }),
{
    let s = b + z;
    lemma_blank(b, z);
    lemma_count(b, ' ');
    lemma_count(b, '\t');
    assert(z.len() > 0 ==> s[b.len() as int] == z[0]);
    let fresh = LexerView::fresh(s, tabs);
    let width = b.to_multiset().count(' ') + b.to_multiset().count('\t') * 8;
    assert(indent::unwind(seq![], width) =~= seq![]);
    let st = LexerView::initial(s, tabs);
    if st.buffer.len() == 1 {
        assert(st.buffer =~= seq![st.buffer[0]]);
    }
    if st.levels.len() == 1 {
        assert(st.levels =~= seq![st.levels[0]]);
    }
    assert(fresh.buffer + state::dedents(0, 1) =~= seq![]);
}

/// What waits is returned first, in its order. At the end there is nothing more.
pub proof fn law_what_waits_is_next(st: LexerView)
    ensures
        st.buffer.len() > 0 ==> st.next() == (
            LexerView { buffer: st.buffer.drop_first(), ..st },
            Some(st.buffer[0]),
        ),
        st.buffer.len() == 0 && st.done ==> st.next() == (st, None::<LexemeView>),
{
}

/// At the end of the text a line ends, and then all blocks that are open.
pub proof fn law_end_of_text(st: LexerView)
    requires
        st.buffer.len() == 0,
        !st.done,
        st.rest.len() == 0,
    ensures
        ({
            let (new, lexeme) = st.next();
            let end = st.end as int;
            &&& lexeme == Some(plain(end, Token::Newline, end))
            &&& new == LexerView {
                start: st.end,
                levels: seq![],
                done: true,
                buffer: new.buffer,
                ..st
            }
            &&& new.buffer.len() == st.levels.len()
            &&& forall|i: int|
                0 <= i < new.buffer.len() ==> #[trigger] new.buffer[i] == plain(
                    end,
                    Token::Dedent,
                    end,
                )
        }),
{
    let n = st.levels.len();
    let end = st.end as int;
    assert(st.buffer + state::dedents(n, end) =~= state::dedents(n, end));
}

} // verus!
