//! What the lexer does, as a function from state to state.

use crate::diagnostic::LexemeError;
use crate::grammar;
use crate::grammar::RawStep;
use crate::indent;
use crate::indent::ChangeView;
use crate::string_literal;
use crate::string_literal::Quoting;
use crate::string_literal::StringStep;
use crate::text;
use crate::token::Token;
use crate::token::TokenView;
use vstd::prelude::*;

verus! {

/// What the lexer returns: a token or an error, with the bytes `begin..end` that it stands for.
#[verifier::ext_equal]
pub enum LexemeView {
    Token { begin: int, token: TokenView, end: int },
    Error { message: LexemeError, begin: int, end: int },
}

impl LexemeView {
    pub open spec fn begin(self) -> int {
        match self {
            LexemeView::Token { begin, .. } => begin,
            LexemeView::Error { begin, .. } => begin,
        }
    }

    pub open spec fn end(self) -> int {
        match self {
            LexemeView::Token { end, .. } => end,
            LexemeView::Error { end, .. } => end,
        }
    }

    /// Whether this is the token `token`, which carries no text.
    pub open spec fn is_plain(self, token: Token) -> bool {
        self matches LexemeView::Token { token: t, .. } && t == TokenView::Plain(token)
    }
}

/// Where the lexer stands.
#[verifier::ext_equal]
pub struct LexerView {
    /// The text that has not been read yet.
    pub rest: Seq<char>,
    /// The byte at which what was read last starts.
    pub start: nat,
    /// The byte at which `rest` starts.
    pub end: nat,
    /// The indentation of the open blocks, outermost first.
    pub levels: Seq<nat>,
    /// How many more brackets have been opened than closed.
    pub parens: int,
    /// What has been produced, and is yet to be returned.
    pub buffer: Seq<LexemeView>,
    /// Whether the end of the text has been seen.
    pub done: bool,
    /// Whether the dialect allows tabs.
    pub tabs: bool,
}

/// What one turn of the lexer comes to.
#[verifier::ext_equal]
pub enum Turn {
    /// It returns, and nothing is left to return where there is no lexeme.
    Return(LexerView, Option<LexemeView>),
    /// Nothing has come of it, and the lexer takes another turn.
    Again(LexerView),
}

/// So many tokens for the end of a block, all at one position.
pub open spec fn dedents(n: nat, at: int) -> Seq<LexemeView> {
    Seq::new(
        n,
        |i: int|
            LexemeView::Token { begin: at, token: TokenView::Plain(Token::Dedent), end: at },
    )
}

impl LexerView {
    /// Before anything has been read of `input`.
    pub open spec fn fresh(input: Seq<char>, tabs: bool) -> LexerView {
        LexerView {
            rest: input,
            start: 0,
            end: 0,
            levels: seq![],
            parens: 0,
            buffer: seq![],
            done: false,
            tabs,
        }
    }

    /// The length of the whole text.
    pub open spec fn total(self) -> nat {
        self.end + text::utf8_len(self.rest)
    }

    /// What was read last, as a token.
    pub open spec fn wrap(self, token: TokenView) -> LexemeView {
        LexemeView::Token { begin: self.start as int, token, end: self.end as int }
    }

    /// What was read last, as an error.
    pub open spec fn reject(self, message: LexemeError) -> LexemeView {
        LexemeView::Error { message, begin: self.start as int, end: self.end as int }
    }

    /// A tab that the dialect does not allow.
    pub open spec fn reject_tab(self) -> LexemeView {
        LexemeView::Error {
            message: LexemeError::InvalidTab,
            begin: self.start as int,
            end: self.start as int,
        }
    }

    /// Reads the margin of the next line: blocks are opened and closed as it says, and the tokens
    /// for that are put into the buffer. There may be an error instead.
    pub open spec fn calculate_indent(self) -> (LexerView, Option<LexemeView>) {
        let margin = indent::margin(self.rest);
        let moved = LexerView {
            rest: self.rest.skip(margin.len as int),
            end: self.end + text::utf8_len(self.rest.take(margin.len as int)),
            ..self
        };
        match margin.line {
            None => (moved, None),
            Some(line) => {
                let width = line.spaces + line.tabs * 8;
                let settled = LexerView { levels: indent::settle(self.levels, width), ..moved };
                let at = self.start + line.at + 1;
                if line.tabs > 0 && !self.tabs {
                    (moved, Some(moved.reject_tab()))
                } else {
                    match indent::change(self.levels, width) {
                        ChangeView::Indent => (
                            LexerView {
                                buffer: self.buffer.push(
                                    LexemeView::Token {
                                        begin: at as int,
                                        token: TokenView::Plain(Token::Indent),
                                        end: moved.end as int,
                                    },
                                ),
                                ..settled
                            },
                            None,
                        ),
                        ChangeView::Dedents(n) => (
                            LexerView {
                                buffer: self.buffer + dedents(n, at as int),
                                ..settled
                            },
                            None,
                        ),
                        ChangeView::Misaligned => (
                            settled,
                            Some(moved.reject(LexemeError::Indentation)),
                        ),
                    }
                }
            },
        }
    }

    /// Before anything has been returned of `input`: its first line may be indented.
    pub open spec fn initial(input: Seq<char>, tabs: bool) -> LexerView {
        match LexerView::fresh(input, tabs).calculate_indent() {
            (state, None) => state,
            (state, Some(error)) => LexerView { buffer: state.buffer.push(error), ..state },
        }
    }

    /// How the string literal is written whose first quote was read last.
    pub open spec fn quoting(self, quote: char) -> Quoting {
        Quoting {
            quote,
            triple: self.rest.len() >= 2 && self.rest[0] == quote && self.rest[1] == quote,
            raw: self.end - self.start == 2,
        }
    }

    /// The first quote of a string literal was read last: reads the rest of it. There is an error
    /// instead where it has no end, or holds something that is no escape sequence: then it is the
    /// quote alone that has been read.
    pub open spec fn string(self, quote: char) -> (LexerView, LexemeView) {
        let q = self.quoting(quote);
        let begin = self.start + if q.raw {
            1nat
        } else {
            0nat
        };
        match string_literal::string_step(q, self.rest, begin) {
            StringStep::Literal { text, len, size } => (
                LexerView { rest: self.rest.skip(len as int), end: self.end + size, ..self },
                LexemeView::Token {
                    begin: begin as int,
                    token: TokenView::StringLiteral(text),
                    end: (begin + 1 + size) as int,
                },
            ),
            StringStep::Error { message, begin, end } => (
                self,
                LexemeView::Error { message, begin: begin as int, end: end as int },
            ),
        }
    }

    /// The end of the text was come upon: a line break is returned, and then the end of each open
    /// block.
    pub open spec fn finish(self) -> Turn {
        Turn::Return(
            LexerView {
                levels: seq![],
                buffer: self.buffer + dedents(self.levels.len(), self.end as int),
                done: true,
                ..self
            },
            Some(self.wrap(TokenView::Plain(Token::Newline))),
        )
    }

    /// The token `token` was read last.
    pub open spec fn take_token(self, token: TokenView) -> Turn {
        match token {
            TokenView::Plain(Token::Tabs) => Turn::Again(
                if self.tabs {
                    self
                } else {
                    LexerView { buffer: self.buffer.push(self.reject_tab()), ..self }
                },
            ),
            TokenView::Plain(Token::Newline) => if self.parens == 0 {
                match self.calculate_indent() {
                    (state, None) => Turn::Return(state, Some(self.wrap(token))),
                    (state, Some(error)) => Turn::Return(state, Some(error)),
                }
            } else {
                Turn::Again(self)
            },
            TokenView::Plain(Token::Error) => Turn::Return(
                self,
                Some(self.reject(LexemeError::InvalidCharacter)),
            ),
            TokenView::Plain(Token::RawDoubleQuote) => Turn::Return(
                self.string('"').0,
                Some(self.string('"').1),
            ),
            TokenView::Plain(Token::RawSingleQuote) => Turn::Return(
                self.string('\'').0,
                Some(self.string('\'').1),
            ),
            TokenView::Plain(
                Token::OpeningCurly | Token::OpeningRound | Token::OpeningSquare,
            ) => Turn::Return(
                LexerView { parens: self.parens + 1, ..self },
                Some(self.wrap(token)),
            ),
            TokenView::Plain(
                Token::ClosingCurly | Token::ClosingRound | Token::ClosingSquare,
            ) => Turn::Return(
                LexerView { parens: self.parens - 1, ..self },
                Some(self.wrap(token)),
            ),
            _ => Turn::Return(self, Some(self.wrap(token))),
        }
    }

    /// Behind the token of `raw`.
    pub open spec fn behind(self, raw: RawStep) -> LexerView {
        LexerView { rest: raw.rest, start: raw.start, end: raw.end, ..self }
    }

    /// One turn of the lexer.
    pub open spec fn turn(self) -> Turn {
        if self.buffer.len() > 0 {
            Turn::Return(
                LexerView { buffer: self.buffer.drop_first(), ..self },
                Some(self.buffer[0]),
            )
        } else if self.done {
            Turn::Return(self, None)
        } else {
            let raw = grammar::raw_next(self.rest, self.end);
            match raw.token {
                None => self.behind(raw).finish(),
                Some(token) => self.behind(raw).take_token(token),
            }
        }
    }

    /// What the lexer does when it is asked for the next lexeme: turns, until one returns.
    pub open spec fn next(self) -> (LexerView, Option<LexemeView>)
        decreases self.rest.len(),
    {
        proof {
            grammar::lemma_raw_next(self.rest, self.end);
        }
        match self.turn() {
            Turn::Again(state) => state.next(),
            Turn::Return(state, lexeme) => (state, lexeme),
        }
    }
}

} // verus!
