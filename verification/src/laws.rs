//! What holds of every run of the lexer.

use crate::diagnostic;
use crate::diagnostic::LexemeError;
use crate::grammar;
use crate::grammar::Class;
use crate::indent;
use crate::lexer::Lexer;
use crate::state;
use crate::state::LexemeView;
use crate::state::LexerView;
use crate::state::Turn;
use crate::string_literal;
use crate::string_literal::StringStep;
use crate::text;
use crate::token::Token;
use crate::token::TokenView;
use vstd::prelude::*;

verus! {

/// Whether blocks are nested as they can be: each is indented, and further than the one around it.
pub open spec fn is_nested(levels: Seq<nat>) -> bool {
    &&& forall|i: int| 0 <= i < levels.len() ==> 0 < #[trigger] levels[i]
    &&& forall|i: int, j: int| 0 <= i < j < levels.len() ==> levels[i] < levels[j]
}

/// Whether a lexeme lies within a text of so many bytes.
pub open spec fn is_within(lexeme: LexemeView, total: nat) -> bool {
    0 <= lexeme.begin() <= lexeme.end() <= total
}

/// Whether the lexer may return such a lexeme: its tokens are not the ones that only help it along.
pub open spec fn is_proper(lexeme: LexemeView) -> bool {
    &&& !lexeme.is_plain(Token::Error)
    &&& !lexeme.is_plain(Token::Tabs)
    &&& !lexeme.is_plain(Token::RawSingleQuote)
    &&& !lexeme.is_plain(Token::RawDoubleQuote)
    &&& lexeme.is_plain(Token::Dedent) ==> lexeme.begin() == lexeme.end()
}

/// Whether such a lexeme may wait in the buffer: one that says where a block starts or ends, or an
/// error about a tab.
pub open spec fn may_wait(lexeme: LexemeView, tabs: bool) -> bool {
    match lexeme {
        LexemeView::Token { begin, token, end } => {
            ||| token == TokenView::Plain(Token::Indent)
            ||| token == TokenView::Plain(Token::Dedent) && begin == end
        },
        LexemeView::Error { message, .. } => message == LexemeError::InvalidTab && !tabs,
    }
}

/// What holds of every state that the lexer gets into.
pub open spec fn is_valid(st: LexerView) -> bool {
    &&& st.start <= st.end
    &&& is_nested(st.levels)
    &&& st.done ==> st.levels.len() == 0 && st.rest.len() == 0
    &&& forall|i: int|
        0 <= i < st.buffer.len() ==> may_wait(#[trigger] st.buffer[i], st.tabs) && is_within(
            st.buffer[i],
            st.total(),
        )
    &&& forall|i: int|
        0 <= i < st.buffer.len() && (#[trigger] st.buffer[i]).is_plain(Token::Indent)
            ==> st.buffer.len() == 1 && st.levels.len() > 0
    // Blocks start and end outside of brackets, or at the end of the text.
    &&& forall|i: int|
        0 <= i < st.buffer.len() && #[trigger] st.buffer[i] is Token ==> st.parens == 0
            || st.buffer[i].begin() == st.total()
}

/// The blocks that are still open at a line are the outer ones: those that are indented no further
/// than the line.
pub proof fn law_unwind_keeps_outer_blocks(levels: Seq<nat>, indent: nat)
    requires
        is_nested(levels),
    ensures
        ({
            let rest = indent::unwind(levels, indent);
            &&& rest.len() <= levels.len()
            &&& rest == levels.take(rest.len() as int)
            &&& is_nested(rest)
            &&& forall|i: int| 0 <= i < rest.len() ==> rest[i] <= indent
            &&& forall|i: int| rest.len() <= i < levels.len() ==> levels[i] > indent
        }),
    decreases levels.len(),
{
    if indent::innermost(levels) > indent {
        let outer = levels.drop_last();
        law_unwind_keeps_outer_blocks(outer, indent);
        let rest = indent::unwind(levels, indent);
        assert(rest =~= levels.take(rest.len() as int));
        assert forall|i: int| rest.len() <= i < levels.len() implies levels[i] > indent by {
            if i < outer.len() {
                assert(outer[i] == levels[i]);
            }
        }
    } else {
        assert(levels =~= levels.take(levels.len() as int));
        assert forall|i: int| 0 <= i < levels.len() implies levels[i] <= indent by {
            assert(levels[i] <= levels.last());
        }
    }
}

/// What a line does to the open blocks, however they are indented. If it is indented further than the
/// innermost, it opens one. Otherwise it closes blocks from the innermost on, as long as they are
/// indented further, and the line must be indented as the innermost then is, or not at all if none is
/// left.
pub proof fn law_lines_open_and_close_blocks(levels: Seq<nat>, indent: nat)
    ensures
        ({
            let new = indent::settle(levels, indent);
            let change = indent::change(levels, indent);
            let n = levels.len() - new.len();
            if indent > (if levels.len() == 0 {
                0
            } else {
                levels.last()
            }) {
                new == levels.push(indent) && change is Indent
            } else {
                &&& n >= 0
                &&& new == levels.take(new.len() as int)
                &&& forall|i: int| new.len() <= i < levels.len() ==> levels[i] > indent
                &&& new.len() > 0 ==> new.last() <= indent
                &&& if indent == (if new.len() == 0 {
                    0
                } else {
                    new.last()
                }) {
                    change matches indent::ChangeView::Dedents(m) && m == n
                } else {
                    change is Misaligned
                }
            }
        }),
{
    lemma_unwind(levels, indent);
}

proof fn lemma_unwind(levels: Seq<nat>, indent: nat)
    ensures
        ({
            let rest = indent::unwind(levels, indent);
            &&& rest.len() <= levels.len()
            &&& rest == levels.take(rest.len() as int)
            &&& forall|i: int| rest.len() <= i < levels.len() ==> levels[i] > indent
            &&& rest.len() > 0 ==> rest.last() <= indent
        }),
    decreases levels.len(),
{
    let rest = indent::unwind(levels, indent);
    if indent::innermost(levels) > indent {
        let outer = levels.drop_last();
        lemma_unwind(outer, indent);
        assert(rest =~= levels.take(rest.len() as int));
        assert forall|i: int| rest.len() <= i < levels.len() implies levels[i] > indent by {
            if i < outer.len() {
                assert(outer[i] == levels[i]);
            }
        }
    } else {
        assert(levels =~= levels.take(levels.len() as int));
    }
}

/// However a line is indented, the blocks that are open after it are nested, and unless it is
/// misaligned the innermost is indented as the line is.
pub proof fn law_settle_keeps_nesting(levels: Seq<nat>, indent: nat)
    requires
        is_nested(levels),
    ensures
        is_nested(indent::settle(levels, indent)),
        !(indent::change(levels, indent) is Misaligned) ==> indent::innermost(
            indent::settle(levels, indent),
        ) == indent,
        indent::change(levels, indent) is Misaligned ==> !levels.contains(indent) && indent > 0,
{
    law_unwind_keeps_outer_blocks(levels, indent);
    if indent > indent::innermost(levels) {
        let new = levels.push(indent);
        assert forall|i: int, j: int| 0 <= i < j < new.len() implies new[i] < new[j] by {
            if j == levels.len() {
                assert(levels[i] <= levels.last());
            }
        }
    } else if indent::change(levels, indent) is Misaligned {
        let rest = indent::unwind(levels, indent);
        assert forall|i: int| 0 <= i < levels.len() implies levels[i] != indent by {
            if i < rest.len() {
                assert(rest[i] <= rest.last());
                assert(levels[i] == rest[i]);
            }
        }
    }
}

/// Reading a margin keeps a state valid, and what it complains about lies within the text. A line
/// can only close blocks that a line break before it has left open.
pub proof fn lemma_calculate_indent(st: LexerView)
    requires
        is_valid(st),
        st.start < st.end || st.levels.len() == 0,
        st.buffer.len() == 0,
        st.parens == 0,
        !st.done,
    ensures
        ({
            let (new, error) = st.calculate_indent();
            &&& is_valid(new)
            &&& new.total() == st.total()
            &&& new.start == st.start
            &&& new.end >= st.end
            &&& new.tabs == st.tabs
            &&& new.parens == st.parens
            &&& new.done == st.done
            &&& new.rest.len() <= st.rest.len()
            &&& error matches Some(e) ==> is_within(e, st.total()) && (may_wait(e, st.tabs) || (
            is_misaligned(e) && st.levels.len() > 0))
        }),
{
    let m = indent::margin(st.rest);
    indent::lemma_margin(st.rest);
    text::lemma_utf8_len_split(st.rest, m.len as int);
    let (new, error) = st.calculate_indent();
    if let Some(line) = m.line {
        let width = line.spaces + line.tabs * 8;
        law_settle_keeps_nesting(st.levels, width);
        law_unwind_keeps_outer_blocks(st.levels, width);
    }
}

/// The state that the lexer starts in is valid.
pub proof fn law_initial_is_valid(input: Seq<char>, tabs: bool)
    ensures
        is_valid(LexerView::initial(input, tabs)),
        LexerView::initial(input, tabs).total() == text::utf8_len(input),
        LexerView::initial(input, tabs).tabs == tabs,
        !LexerView::initial(input, tabs).done,
{
    lemma_calculate_indent(LexerView::fresh(input, tabs));
}

/// What a turn leaves valid, and what it returns.
pub proof fn lemma_turn(st: LexerView)
    requires
        is_valid(st),
    ensures
        match st.turn() {
            Turn::Again(new) => {
                &&& is_valid(new)
                &&& new.total() == st.total()
                &&& new.tabs == st.tabs
                &&& new.done == st.done
                &&& new.end >= st.end
                &&& new.rest.len() < st.rest.len()
            },
            Turn::Return(new, None) => new == st && st.done && st.buffer.len() == 0,
            Turn::Return(new, Some(lexeme)) => {
                &&& is_valid(new)
                &&& new.total() == st.total()
                &&& new.tabs == st.tabs
                &&& new.end >= st.end
                &&& is_proper(lexeme)
                &&& is_within(lexeme, st.total())
                &&& lexeme matches LexemeView::Error { message, .. } ==> (st.tabs ==> message
                    != LexemeError::InvalidTab)
                &&& st.buffer.len() == 0 && lexeme is Token ==> st.end <= lexeme.begin()
                    && lexeme.end() <= new.end
                &&& {
                    ||| new.done && !st.done
                    ||| new.done == st.done && new.rest.len() < st.rest.len()
                    ||| new.done == st.done && new.rest == st.rest && new.buffer.len()
                        < st.buffer.len()
                }
            },
        },
{
    if st.buffer.len() > 0 {
        assert(may_wait(st.buffer[0], st.tabs));
    } else if !st.done {
        let raw = grammar::raw_next(st.rest, st.end);
        grammar::lemma_raw_next(st.rest, st.end);
        grammar::lemma_quote_size(st.rest, st.end);
        grammar::lemma_raw_token(st.rest, st.end);
        let at = st.behind(raw);
        assert(is_valid(at));
        assert(at.total() == st.total());
        if let Some(token) = raw.token {
            if token == TokenView::Plain(Token::Newline) {
                if at.parens == 0 {
                    lemma_calculate_indent(at);
                }
            } else if token == TokenView::Plain(Token::RawSingleQuote) {
                lemma_string(at, '\'');
            } else if token == TokenView::Plain(Token::RawDoubleQuote) {
                lemma_string(at, '"');
            }
        }
    }
}

/// Reading a string literal keeps a state valid.
pub proof fn lemma_string(st: LexerView, quote: char)
    requires
        is_valid(st),
        quote == '\'' || quote == '"',
        st.end == st.start + 1 || st.end == st.start + 2,
        !st.done,
    ensures
        ({
            let (new, lexeme) = st.string(quote);
            &&& is_valid(new)
            &&& new.total() == st.total()
            &&& new.tabs == st.tabs
            &&& new.done == st.done
            &&& new.end >= st.end
            &&& new.rest.len() <= st.rest.len()
            &&& is_within(lexeme, st.total())
            &&& lexeme is Token ==> lexeme.end() <= new.end && lexeme.begin() >= st.start
                && lexeme->token is StringLiteral
            &&& lexeme matches LexemeView::Error { message, .. } ==> message
                != LexemeError::InvalidTab
        }),
{
    let q = st.quoting(quote);
    let begin = st.start + if q.raw {
        1nat
    } else {
        0nat
    };
    string_literal::lemma_string_step(q, st.rest, begin);
    string_literal::lemma_string_messages(q, st.rest, begin);
    if let StringStep::Literal { len, .. } = string_literal::string_step(q, st.rest, begin) {
        text::lemma_utf8_len_split(st.rest, len as int);
    }
}

/// A call leaves a valid state valid, whatever comes of it: the text and the dialect stay the same,
/// blocks stay nested, and what is returned lies within the text. Nothing is rejected for its tabs
/// in a dialect that allows them. A token that did not have to wait lies between what had been read
/// before the call and what has been read after it.
pub proof fn law_next_keeps_state_valid(st: LexerView)
    requires
        is_valid(st),
    ensures
        match st.next() {
            (new, None) => new == st,
            (new, Some(lexeme)) => {
                &&& is_valid(new)
                &&& new.total() == st.total()
                &&& new.tabs == st.tabs
                &&& new.end >= st.end
                &&& is_proper(lexeme)
                &&& is_within(lexeme, st.total())
                &&& lexeme matches LexemeView::Error { message, .. } ==> (st.tabs ==> message
                    != LexemeError::InvalidTab)
                &&& st.buffer.len() == 0 && lexeme is Token ==> st.end <= lexeme.begin()
                    && lexeme.end() <= new.end
            },
        },
    decreases st.rest.len(),
{
    lemma_turn(st);
    if let Turn::Again(new) = st.turn() {
        law_next_keeps_state_valid(new);
        if let (_, None) = new.next() {
            law_end_is_final(new);
        }
        if let (_, Some(lexeme)) = new.next() {
            if new.buffer.len() > 0 {
                assert(lexeme == new.buffer[0]);
                assert(lexeme is Error) by {
                    lemma_again_buffers_errors(st);
                }
            }
        }
    }
}

/// What a turn without a result puts into an empty buffer is an error.
pub proof fn lemma_again_buffers_errors(st: LexerView)
    ensures
        st.turn() matches Turn::Again(new) ==> {
            &&& st.buffer.len() == 0
            &&& new.levels == st.levels
            &&& new.parens == st.parens
            &&& new.buffer.len() <= 1
            &&& new.buffer.len() == 1 ==> new.buffer[0] is Error
        },
{
}

/// Once there is nothing left to return, there never is again.
pub proof fn law_end_is_final(st: LexerView)
    requires
        is_valid(st),
        st.next() matches (_, None),
    ensures
        st.next() == (st, None::<LexemeView>),
        st.done,
        st.rest.len() == 0,
        st.levels.len() == 0,
        st.buffer.len() == 0,
    decreases st.rest.len(),
{
    lemma_turn(st);
    if let Turn::Again(new) = st.turn() {
        law_end_is_final(new);
    }
}

/// Each call brings the end nearer: it comes upon the end of the text, or reads some of it, or
/// returns something that waited.
pub proof fn law_next_makes_progress(st: LexerView)
    requires
        is_valid(st),
    ensures
        st.next() matches (new, Some(_)) ==> {
            ||| new.done && !st.done
            ||| new.done == st.done && new.rest.len() < st.rest.len()
            ||| new.done == st.done && new.rest == st.rest && new.buffer.len() < st.buffer.len()
        },
    decreases st.rest.len(),
{
    lemma_turn(st);
    if let Turn::Again(new) = st.turn() {
        law_next_makes_progress(new);
    }
}

/// All that the lexer returns from `st` on.
pub open spec fn lexemes(st: LexerView) -> Seq<LexemeView>
    decreases (if st.done { 0nat } else { 1nat }), st.rest.len(), st.buffer.len(),
        when is_valid(st)
{
    proof {
        law_next_makes_progress(st);
        law_next_keeps_state_valid(st);
    }
    match st.next() {
        (new, Some(lexeme)) => seq![lexeme] + lexemes(new),
        _ => seq![],
    }
}

/// Every lexeme lies within the text, and none of them is a token that only helps the lexer along.
pub proof fn law_lexemes_lie_within_the_text(st: LexerView, n: int)
    requires
        is_valid(st),
        0 <= n < lexemes(st).len(),
    ensures
        is_within(lexemes(st)[n], st.total()),
        is_proper(lexemes(st)[n]),
    decreases n,
{
    law_next_keeps_state_valid(st);
    law_next_makes_progress(st);
    if let (new, Some(_)) = st.next() {
        if n > 0 {
            assert(lexemes(st)[n] == lexemes(new)[n - 1]);
            law_lexemes_lie_within_the_text(new, n - 1);
        }
    }
}

/// Where the lexer ends up.
pub open spec fn end_state(st: LexerView) -> LexerView
    decreases (if st.done { 0nat } else { 1nat }), st.rest.len(), st.buffer.len(),
        when is_valid(st)
{
    proof {
        law_next_makes_progress(st);
        law_next_keeps_state_valid(st);
    }
    match st.next() {
        (new, Some(_)) => end_state(new),
        (new, None) => new,
    }
}

/// Every run comes to the end of the text, and then there is nothing left to return.
pub proof fn law_runs_come_to_an_end(st: LexerView)
    requires
        is_valid(st),
    ensures
        ({
            let end = end_state(st);
            &&& end.next() == (end, None::<LexemeView>)
            &&& end.done
            &&& end.rest.len() == 0
            &&& end.levels.len() == 0
            &&& end.buffer.len() == 0
        }),
    decreases (if st.done { 0nat } else { 1nat }), st.rest.len(), st.buffer.len(),
{
    law_next_makes_progress(st);
    law_next_keeps_state_valid(st);
    match st.next() {
        (new, Some(_)) => {
            law_runs_come_to_an_end(new);
        },
        (_, None) => {
            law_end_is_final(st);
        },
    }
}

/// What waits is returned first, in its order, and does not change what comes behind it.
pub proof fn law_what_waits_comes_first(st: LexerView)
    requires
        is_valid(st),
    ensures
        is_valid(LexerView { buffer: seq![], ..st }),
        lexemes(st) == st.buffer + lexemes(LexerView { buffer: seq![], ..st }),
        end_state(st) == end_state(LexerView { buffer: seq![], ..st }),
    decreases st.buffer.len(),
{
    let empty = LexerView { buffer: seq![], ..st };
    if st.buffer.len() == 0 {
        assert(st =~= empty);
        assert(st.buffer + lexemes(empty) =~= lexemes(empty));
    } else {
        law_next_keeps_state_valid(st);
        let new = LexerView { buffer: st.buffer.drop_first(), ..st };
        assert(st.next() == (new, Some(st.buffer[0])));
        law_what_waits_comes_first(new);
        assert(LexerView { buffer: seq![], ..new } =~= empty);
        assert(lexemes(st) =~= st.buffer + lexemes(empty));
    }
}

/// What a lexeme adds to the number of open blocks.
pub open spec fn block_step(lexeme: LexemeView) -> int {
    if lexeme.is_plain(Token::Indent) {
        1
    } else if lexeme.is_plain(Token::Dedent) {
        -1
    } else {
        0
    }
}

/// What lexemes add to the number of open blocks, all together.
pub open spec fn block_depth(s: Seq<LexemeView>) -> int
    decreases s.len(),
{
    if s.len() == 0 {
        0
    } else {
        block_step(s[0]) + block_depth(s.drop_first())
    }
}

/// How many blocks are open by what has been returned.
pub open spec fn open_blocks(st: LexerView) -> int {
    st.levels.len() - block_depth(st.buffer)
}

/// Whether a line is indented as no open block is.
pub open spec fn is_misaligned(lexeme: LexemeView) -> bool {
    lexeme matches LexemeView::Error { message, .. } && message == LexemeError::Indentation
}

proof fn lemma_dedents_depth(n: nat, at: int)
    ensures
        block_depth(state::dedents(n, at)) == -n,
    decreases n,
{
    if n > 0 {
        lemma_dedents_depth((n - 1) as nat, at);
        assert(state::dedents(n, at).drop_first() =~= state::dedents((n - 1) as nat, at));
    }
}

/// What waits never closes more blocks than are open.
proof fn lemma_open_blocks(st: LexerView)
    requires
        is_valid(st),
    ensures
        open_blocks(st) >= 0,
{
    if st.buffer.len() == 1 {
        assert(st.buffer.drop_first() =~= Seq::<LexemeView>::empty());
        assert(block_depth(st.buffer) == block_step(st.buffer[0]) + block_depth(
            st.buffer.drop_first(),
        ));
    } else {
        lemma_no_indent_depth(st.buffer);
    }
}

proof fn lemma_no_indent_depth(s: Seq<LexemeView>)
    requires
        forall|i: int| 0 <= i < s.len() ==> !(#[trigger] s[i]).is_plain(Token::Indent),
    ensures
        block_depth(s) <= 0,
    decreases s.len(),
{
    if s.len() > 0 {
        lemma_no_indent_depth(s.drop_first());
    }
}

proof fn lemma_turn_counts_blocks(st: LexerView)
    requires
        is_valid(st),
    ensures
        match st.turn() {
            Turn::Again(new) => open_blocks(new) == open_blocks(st),
            Turn::Return(new, Some(lexeme)) => !is_misaligned(lexeme) ==> open_blocks(new)
                == open_blocks(st) + block_step(lexeme),
            _ => true,
        },
{
    if st.buffer.len() == 0 && !st.done {
        let raw = grammar::raw_next(st.rest, st.end);
        let at = st.behind(raw);
        grammar::lemma_raw_next(st.rest, st.end);
        grammar::lemma_raw_token(st.rest, st.end);
        lemma_dedents_depth(st.levels.len(), at.end as int);
        assert(at.buffer + state::dedents(st.levels.len(), at.end as int) =~= state::dedents(
            st.levels.len(),
            at.end as int,
        ));
        match raw.token {
            Some(TokenView::Plain(Token::Newline)) => {
                lemma_margin_counts_blocks(at);
            },
            Some(TokenView::Plain(Token::Tabs)) => {
                let error = at.reject_tab();
                assert(at.buffer.push(error).drop_first() =~= Seq::<LexemeView>::empty());
                reveal_with_fuel(block_depth, 2);
            },
            Some(TokenView::Plain(Token::RawSingleQuote)) => {
                grammar::lemma_quote_size(st.rest, st.end);
                lemma_string(at, '\'');
            },
            Some(TokenView::Plain(Token::RawDoubleQuote)) => {
                grammar::lemma_quote_size(st.rest, st.end);
                lemma_string(at, '"');
            },
            _ => {},
        }
    }
}

proof fn lemma_margin_counts_blocks(st: LexerView)
    requires
        is_valid(st),
        st.buffer.len() == 0,
    ensures
        ({
            let (new, error) = st.calculate_indent();
            (error matches Some(e) ==> !is_misaligned(e)) ==> open_blocks(new) == open_blocks(st)
        }),
{
    let m = indent::margin(st.rest);
    if let Some(line) = m.line {
        let width = line.spaces + line.tabs * 8;
        law_unwind_keeps_outer_blocks(st.levels, width);
        let (new, error) = st.calculate_indent();
        let at = (st.start + line.at + 1) as int;
        let n = (st.levels.len() - indent::unwind(st.levels, width).len()) as nat;
        lemma_dedents_depth(n, at);
        assert(st.buffer + state::dedents(n, at) =~= state::dedents(n, at));
        if new.buffer.len() == 1 {
            assert(new.buffer.drop_first() =~= Seq::<LexemeView>::empty());
            reveal_with_fuel(block_depth, 2);
        }
    }
}

/// The tokens for the start and end of blocks say how many blocks are open: a call changes that
/// number by what it returns. A misaligned line, and nothing else, makes blocks vanish.
pub proof fn law_next_counts_blocks(st: LexerView)
    requires
        is_valid(st),
    ensures
        st.next() matches (new, Some(lexeme)) ==> (!is_misaligned(lexeme) ==> open_blocks(
            new,
        ) == open_blocks(st) + block_step(lexeme)),
    decreases st.rest.len(),
{
    lemma_turn(st);
    lemma_turn_counts_blocks(st);
    if let Turn::Again(new) = st.turn() {
        law_next_counts_blocks(new);
    }
}

/// As long as no line is misaligned, no more blocks are ended than were started.
proof fn lemma_blocks_nest(st: LexerView, n: int)
    requires
        is_valid(st),
        0 <= n <= lexemes(st).len(),
        forall|i: int| 0 <= i < n ==> !is_misaligned(#[trigger] lexemes(st)[i]),
    ensures
        open_blocks(st) + block_depth(lexemes(st).take(n)) >= 0,
        n == lexemes(st).len() ==> open_blocks(st) + block_depth(lexemes(st)) == 0,
    decreases (if st.done { 0nat } else { 1nat }), st.rest.len(), st.buffer.len(),
{
    law_next_makes_progress(st);
    law_next_keeps_state_valid(st);
    law_next_counts_blocks(st);
    lemma_open_blocks(st);
    match st.next() {
        (new, Some(lexeme)) => {
            let all = lexemes(st);
            assert(all.drop_first() =~= lexemes(new));
            if n > 0 {
                assert(!is_misaligned(all[0]));
                assert forall|i: int| 0 <= i < n - 1 implies !is_misaligned(
                    #[trigger] lexemes(new)[i],
                ) by {
                    assert(all[i + 1] == lexemes(new)[i]);
                }
                lemma_blocks_nest(new, n - 1);
                assert(all.take(n).drop_first() =~= lexemes(new).take(n - 1));
            }
        },
        (_, None) => {
            law_end_is_final(st);
        },
    }
}

/// In a text without a misaligned line the ends of blocks match their starts: no block ends before
/// it has started, and at the end of the text all have ended.
pub proof fn law_blocks_are_balanced(input: Seq<char>, tabs: bool, n: int)
    requires
        0 <= n <= lexemes(LexerView::initial(input, tabs)).len(),
        forall|i: int|
            0 <= i < n ==> !is_misaligned(#[trigger] lexemes(LexerView::initial(input, tabs))[i]),
    ensures
        block_depth(lexemes(LexerView::initial(input, tabs)).take(n)) >= 0,
        n == lexemes(LexerView::initial(input, tabs)).len() ==> block_depth(
            lexemes(LexerView::initial(input, tabs)),
        ) == 0,
{
    law_initial_is_valid(input, tabs);
    let st = LexerView::initial(input, tabs);
    let fresh = LexerView::fresh(input, tabs);
    lemma_calculate_indent(fresh);
    lemma_margin_counts_blocks(fresh);
    lemma_blocks_nest(st, n);
    assert(open_blocks(st) == 0) by {
        if let (state, Some(error)) = fresh.calculate_indent() {
            assert(state.buffer.push(error).drop_first() =~= Seq::<LexemeView>::empty());
            reveal_with_fuel(block_depth, 2);
        }
    }
}

/// What a lexeme adds to the number of brackets that have been opened and not closed.
pub open spec fn bracket_step(lexeme: LexemeView) -> int {
    match lexeme {
        LexemeView::Token {
            token: TokenView::Plain(
                Token::OpeningCurly | Token::OpeningRound | Token::OpeningSquare,
            ),
            ..
        } => 1,
        LexemeView::Token {
            token: TokenView::Plain(
                Token::ClosingCurly | Token::ClosingRound | Token::ClosingSquare,
            ),
            ..
        } => -1,
        _ => 0,
    }
}

/// What lexemes add to the number of brackets that have been opened and not closed, all together.
pub open spec fn bracket_depth(s: Seq<LexemeView>) -> int
    decreases s.len(),
{
    if s.len() == 0 {
        0
    } else {
        bracket_step(s[0]) + bracket_depth(s.drop_first())
    }
}

/// Whether a lexeme says where a line ends, or a block starts or ends.
pub open spec fn is_layout(lexeme: LexemeView) -> bool {
    lexeme.is_plain(Token::Newline) || lexeme.is_plain(Token::Indent) || lexeme.is_plain(
        Token::Dedent,
    )
}

/// The lexer knows how many brackets are open, by what it has returned. Where they do not match, no
/// line ends and no block starts or ends before the end of the text.
pub proof fn law_brackets_join_lines(st: LexerView)
    requires
        is_valid(st),
    ensures
        st.next() matches (new, Some(lexeme)) ==> {
            &&& new.parens == st.parens + bracket_step(lexeme)
            &&& is_layout(lexeme) && lexeme.begin() < st.total() ==> st.parens == 0
            &&& st.parens != 0 && !new.done ==> new.levels == st.levels
        },
    decreases st.rest.len(),
{
    lemma_turn(st);
    if st.buffer.len() > 0 {
        assert(may_wait(st.buffer[0], st.tabs));
    } else if !st.done {
        let raw = grammar::raw_next(st.rest, st.end);
        grammar::lemma_raw_next(st.rest, st.end);
        grammar::lemma_quote_size(st.rest, st.end);
        grammar::lemma_raw_token(st.rest, st.end);
        let at = st.behind(raw);
        if raw.token == Some(TokenView::Plain(Token::RawSingleQuote)) {
            lemma_string(at, '\'');
        } else if raw.token == Some(TokenView::Plain(Token::RawDoubleQuote)) {
            lemma_string(at, '"');
        }
        if let Turn::Again(new) = st.turn() {
            lemma_again_buffers_errors(st);
            law_brackets_join_lines(new);
        }
    }
}

proof fn lemma_run_counts_brackets(st: LexerView, n: int)
    requires
        is_valid(st),
        0 <= n < lexemes(st).len(),
        is_layout(lexemes(st)[n]),
        lexemes(st)[n].begin() < st.total(),
    ensures
        st.parens + bracket_depth(lexemes(st).take(n)) == 0,
    decreases n,
{
    law_next_makes_progress(st);
    law_next_keeps_state_valid(st);
    law_brackets_join_lines(st);
    let all = lexemes(st);
    if let (new, Some(_)) = st.next() {
        assert(all.drop_first() =~= lexemes(new));
        if n > 0 {
            assert(all[n] == lexemes(new)[n - 1]);
            lemma_run_counts_brackets(new, n - 1);
            assert(all.take(n).drop_first() =~= lexemes(new).take(n - 1));
        }
    }
}

/// Before the end of the text a line ends, and a block starts or ends, only where as many brackets
/// have been closed as opened.
pub proof fn law_lines_end_outside_brackets(input: Seq<char>, tabs: bool, n: int)
    requires
        0 <= n < lexemes(LexerView::initial(input, tabs)).len(),
        is_layout(lexemes(LexerView::initial(input, tabs))[n]),
        lexemes(LexerView::initial(input, tabs))[n].begin() < text::utf8_len(input),
    ensures
        bracket_depth(lexemes(LexerView::initial(input, tabs)).take(n)) == 0,
{
    law_initial_is_valid(input, tabs);
    lemma_run_counts_brackets(LexerView::initial(input, tabs), n);
}

/// The last lexemes are a line break at the end of the text, and the ends of the blocks that are
/// still open there.
pub proof fn law_last_line_is_ended(st: LexerView) -> (n: nat)
    requires
        is_valid(st),
        !st.done,
    ensures
        ({
            let all = lexemes(st);
            let total = st.total() as int;
            &&& n < all.len()
            &&& all[all.len() - n - 1] == (LexemeView::Token {
                begin: total,
                token: TokenView::Plain(Token::Newline),
                end: total,
            })
            &&& all.skip(all.len() - n) == state::dedents(n, total)
        }),
    decreases st.rest.len(), st.buffer.len(),
{
    law_next_makes_progress(st);
    law_next_keeps_state_valid(st);
    let all = lexemes(st);
    let total = st.total() as int;
    match st.next() {
        (new, Some(lexeme)) => {
            assert(all.drop_first() =~= lexemes(new));
            if new.done {
                law_end_closes_all_blocks(st);
                law_what_waits_comes_first(new);
                let n = new.buffer.len();
                let after = LexerView { buffer: seq![], ..new };
                assert(lexemes(after) =~= seq![]);
                assert(lexemes(new) =~= new.buffer);
                assert(all.skip(1) =~= new.buffer);
                n
            } else {
                let n = law_last_line_is_ended(new);
                let m = lexemes(new).len();
                assert(all.skip(all.len() - n) =~= lexemes(new).skip(m - n));
                assert(all[all.len() - n - 1] == lexemes(new)[m - n - 1]);
                n
            }
        },
        (_, None) => {
            law_end_is_final(st);
            0
        },
    }
}

/// Of every text the last lexemes are a line break at its end, and the ends of the blocks that are
/// still open there.
pub proof fn law_every_text_is_ended(input: Seq<char>, tabs: bool) -> (n: nat)
    ensures
        ({
            let all = lexemes(LexerView::initial(input, tabs));
            let total = text::utf8_len(input) as int;
            &&& n < all.len()
            &&& all[all.len() - n - 1] == (LexemeView::Token {
                begin: total,
                token: TokenView::Plain(Token::Newline),
                end: total,
            })
            &&& all.skip(all.len() - n) == state::dedents(n, total)
        }),
{
    law_initial_is_valid(input, tabs);
    law_last_line_is_ended(LexerView::initial(input, tabs))
}

/// The call that comes upon the end of the text returns a line break there. The ends of all blocks
/// that are open follow, one for each.
pub proof fn law_end_closes_all_blocks(st: LexerView)
    requires
        is_valid(st),
        !st.done,
    ensures
        st.next() matches (new, Some(lexeme)) ==> (new.done ==> {
            &&& lexeme == (LexemeView::Token {
                begin: st.total() as int,
                token: TokenView::Plain(Token::Newline),
                end: st.total() as int,
            })
            &&& new.buffer == state::dedents(st.levels.len(), st.total() as int)
            &&& new.levels.len() == 0
        }),
    decreases st.rest.len(),
{
    lemma_turn(st);
    if st.buffer.len() == 0 {
        let raw = grammar::raw_next(st.rest, st.end);
        grammar::lemma_raw_next(st.rest, st.end);
        grammar::lemma_quote_size(st.rest, st.end);
        let at = st.behind(raw);
        if let Some(token) = raw.token {
            if token == TokenView::Plain(Token::Newline) && at.parens == 0 {
                lemma_calculate_indent(at);
            }
        } else {
            let n = st.levels.len();
            assert(at.buffer + state::dedents(n, at.end as int) =~= state::dedents(
                n,
                at.end as int,
            ));
        }
        if let Turn::Again(new) = st.turn() {
            lemma_again_buffers_errors(st);
            law_end_closes_all_blocks(new);
        }
    }
}

/// A line with nothing but a comment on it leaves no trace: the margin is that of the text below
/// it, and a line break before it opens and closes the same blocks, with the same tokens, as if it
/// were not there.
pub proof fn law_comment_lines_leave_no_trace(
    st: LexerView,
    blank: Seq<char>,
    comment: Seq<char>,
    s: Seq<char>,
)
    requires
        forall|i: int| 0 <= i < blank.len() ==> #[trigger] blank[i] == ' ' || blank[i] == '\t',
        forall|i: int| 0 <= i < comment.len() ==> #[trigger] comment[i] != '\n',
        st.rest == blank + seq!['#'] + comment + seq!['\n'] + s,
    ensures
        ({
            let size = text::utf8_len(blank + seq!['#'] + comment + seq!['\n']);
            let here = indent::margin(st.rest);
            let below = indent::margin(s);
            let (new, error) = st.calculate_indent();
            let (without, other) = LexerView { rest: s, end: st.end + size, ..st }.calculate_indent();
            &&& here.len == blank.len() + comment.len() + 2 + below.len
            &&& match (here.line, below.line) {
                (Some(a), Some(b)) => a.at == size + b.at && a.spaces == b.spaces && a.tabs
                    == b.tabs,
                (None, None) => true,
                _ => false,
            }
            &&& new.rest == without.rest
            &&& new.end == without.end
            &&& new.levels == without.levels
            &&& error == other
            &&& new.buffer.len() == without.buffer.len()
            &&& new.buffer.take(st.buffer.len() as int) == without.buffer.take(
                st.buffer.len() as int,
            )
            &&& forall|i: int|
                st.buffer.len() <= i < new.buffer.len() ==> {
                    &&& #[trigger] new.buffer[i] is Token
                    &&& without.buffer[i] is Token
                    &&& new.buffer[i]->token == without.buffer[i]->token
                    &&& new.buffer[i].begin() == without.buffer[i].begin() + size
                }
        }),
{
    let line = blank + seq!['#'] + comment + seq!['\n'];
    let all = st.rest;
    let n = blank.len() as int;
    let m = comment.len() as int;
    lemma_blank_len(blank, seq!['#'] + comment + seq!['\n'] + s);
    assert(all =~= blank + (seq!['#'] + comment + seq!['\n'] + s));
    assert(all[n] == '#');
    let tail = all.skip(n);
    assert(tail =~= (seq!['#'] + comment) + (seq!['\n'] + s));
    lemma_comment_len(seq!['#'] + comment, s);
    assert(all.skip(n + m + 2) =~= s);
    assert(all.take(n + m + 2) =~= line);
    let below = indent::margin(s).len as int;
    indent::lemma_margin(s);
    assert(all.skip(n + m + 2 + below) =~= s.skip(below));
    assert(all.take(n + m + 2 + below) =~= line + s.take(below));
    text::lemma_utf8_len_concat(line, s.take(below));
}

proof fn lemma_blank_len(blank: Seq<char>, s: Seq<char>)
    requires
        forall|i: int| 0 <= i < blank.len() ==> #[trigger] blank[i] == ' ' || blank[i] == '\t',
        s.len() > 0,
        s[0] != ' ',
        s[0] != '\t',
    ensures
        indent::blank_len(blank + s) == blank.len(),
    decreases blank.len(),
{
    let all = blank + s;
    if blank.len() == 0 {
        assert(all =~= s);
    } else {
        assert(all[0] == blank[0]);
        let rest = blank.drop_first();
        assert(all.drop_first() =~= rest + s);
        lemma_blank_len(rest, s);
    }
}

proof fn lemma_comment_len(comment: Seq<char>, s: Seq<char>)
    requires
        forall|i: int| 0 <= i < comment.len() ==> #[trigger] comment[i] != '\n',
    ensures
        Class::NotNewline.run(comment + (seq!['\n'] + s)) == comment.len(),
    decreases comment.len(),
{
    let all = comment + (seq!['\n'] + s);
    if comment.len() == 0 {
        assert(all[0] == '\n');
    } else {
        assert(all[0] == comment[0]);
        let rest = comment.drop_first();
        assert(all.drop_first() =~= rest + (seq!['\n'] + s));
        lemma_comment_len(rest, s);
    }
}

/// Where the whole text lies within its place in the code map, every error can be reported.
pub proof fn law_errors_lie_within_the_file(lexer: Lexer)
    requires
        is_valid(lexer@),
        lexer@.total() <= diagnostic::span_len(lexer.filespan()),
    ensures
        lexer@.next() matches (_, Some(lexeme)) ==> !lexer.is_beyond(lexeme),
{
    law_next_keeps_state_valid(lexer@);
}

} // verus!
