//! The lexer.

use std::collections::VecDeque;
use std::sync::Arc;

use codemap::CodeMap;
use codemap::Span;

use crate::diagnostic;
use crate::diagnostic::dupe_codemap;
use crate::diagnostic::Diagnostic;
use crate::diagnostic::LexemeError;
use crate::grammar;
use crate::grammar::next_token;
use crate::indent;
use crate::indent::read_margin;
use crate::indent::settle_line;
use crate::indent::Change;
use crate::state;
use crate::state::LexemeView;
use crate::state::LexerView;
use crate::state::Turn;
use crate::string_literal;
use crate::string_literal::read_string;
use crate::string_literal::Quoting;
use crate::string_literal::StringRead;
use crate::string_literal::StringStep;
use crate::text;
use crate::text::enumerate_chars;
use crate::text::str_len;
use crate::token::Token;
use crate::token::TokenView;
use vstd::prelude::*;

verus! {

/// The language features that the lexer depends on.
#[derive(Debug, Clone, Copy, PartialEq, Eq, Structural)]
pub struct Dialect {
    /// Whether tabs are allowed.
    pub enable_tabs: bool,
}

/// A token with the positions at which it starts and ends, or an error.
pub type Lexeme = Result<(u64, Token, u64), Diagnostic>;

/// An error about a piece of the source text that `file` covers.
pub open spec fn diagnostic_view(file: Span, d: Diagnostic) -> LexemeView {
    let begin = diagnostic::span_low(d.span) - diagnostic::span_low(file);
    LexemeView::Error {
        message: d.message,
        begin,
        end: begin + diagnostic::span_len(d.span),
    }
}

/// A lexeme of the source text that `file` covers.
pub open spec fn lexeme_view(file: Span, lexeme: Lexeme) -> LexemeView {
    match lexeme {
        Ok((begin, token, end)) => LexemeView::Token {
            begin: begin as int,
            token: token@,
            end: end as int,
        },
        Err(d) => diagnostic_view(file, d),
    }
}

/// What is wrong with the bytes `begin..end`.
struct Complaint {
    message: LexemeError,
    begin: u64,
    end: u64,
}

impl View for Complaint {
    type V = LexemeView;

    closed spec fn view(&self) -> LexemeView {
        LexemeView::Error {
            message: self.message,
            begin: self.begin as int,
            end: self.end as int,
        }
    }
}

/// An error cannot be reported, because it is about something beyond the place of the source text
/// in the code map.
#[derive(Debug, Clone, Copy, PartialEq, Eq, Structural)]
pub struct BeyondFile;

/// Splits source text into tokens.
pub struct Lexer<'a> {
    // Where errors are reported.
    codemap: Arc<CodeMap>,
    filespan: Span,
    /// The indentation of the open blocks.
    indent_levels: Vec<u128>,
    /// Lexemes that have been generated but not yet returned.
    buffer: VecDeque<Lexeme>,
    /// How many more brackets have been opened than closed.
    parens: i128,
    /// The text that has not been read yet.
    rest: &'a str,
    // What was read last.
    start: usize,
    end: usize,
    done: bool,
    dialect_allow_tabs: bool,
}

impl<'a> View for Lexer<'a> {
    type V = LexerView;

    closed spec fn view(&self) -> LexerView {
        LexerView {
            rest: self.rest@,
            start: self.start as nat,
            end: self.end as nat,
            levels: indent::levels_view(self.indent_levels@),
            parens: self.parens as int,
            buffer: self.buffer@.map_values(|lexeme: Lexeme| lexeme_view(self.filespan, lexeme)),
            done: self.done,
            tabs: self.dialect_allow_tabs,
        }
    }
}

impl<'a> Lexer<'a> {
    /// The code map that errors refer to.
    pub closed spec fn codemap(self) -> Arc<CodeMap> {
        self.codemap
    }

    /// The place of the source text in the code map.
    pub closed spec fn filespan(self) -> Span {
        self.filespan
    }

    /// Positions fit the machine, and errors that wait refer to the code map.
    pub closed spec fn wf(self) -> bool {
        &&& self.start <= self.end
        &&& self@.total() <= usize::MAX
        &&& -self.end <= self.parens <= self.end
        &&& forall|i: int|
            0 <= i < self.buffer@.len() ==> (#[trigger] self.buffer@[i] matches Err(d) ==> d.codemap
                == self.codemap && !self.is_beyond(diagnostic_view(self.filespan, d)))
    }

    /// An error about the bytes `start..end`.
    pub fn err_span<T>(&self, msg: LexemeError, start: u64, end: u64) -> (r: Result<T, Diagnostic>)
        requires
            start <= end <= diagnostic::span_len(self.filespan()),
        ensures
            r matches Err(d) && d.codemap == self.codemap() && diagnostic_view(self.filespan(), d)
                == (LexemeView::Error { message: msg, begin: start as int, end: end as int }),
            r matches Err(d) && d.message == msg && diagnostic::span_low(d.span)
                == diagnostic::span_low(self.filespan()) + start && diagnostic::span_len(d.span)
                == end - start,
    {
        Err(
            Diagnostic::add_span(
                msg,
                self.filespan.subspan(start, end),
                dupe_codemap(&self.codemap),
            ),
        )
    }

    /// An error about the position `pos`.
    pub fn err_pos<T>(&self, msg: LexemeError, pos: u64) -> (r: Result<T, Diagnostic>)
        requires
            pos <= diagnostic::span_len(self.filespan()),
        ensures
            r matches Err(d) && d.codemap == self.codemap() && diagnostic_view(self.filespan(), d)
                == (LexemeView::Error { message: msg, begin: pos as int, end: pos as int }),
            r matches Err(d) && d.message == msg && diagnostic::span_low(d.span)
                == diagnostic::span_low(self.filespan()) + pos && diagnostic::span_len(d.span) == 0,
    {
        self.err_span(msg, pos, pos)
    }

    /// Whether `lexeme` is an error about something beyond the place of the source text.
    pub open spec fn is_beyond(self, lexeme: LexemeView) -> bool {
        lexeme is Error && lexeme.end() > diagnostic::span_len(self.filespan())
    }

    /// Reports an error, where that is possible.
    fn report(&self, c: Complaint) -> (r: Result<Option<Lexeme>, BeyondFile>)
        requires
            c.begin <= c.end,
        ensures
            self.answers(*self, (self@, Some(c@)), r),
    {
        if c.end > self.filespan.len() {
            Err(BeyondFile)
        } else {
            Ok(Some(self.err_span(c.message, c.begin, c.end)))
        }
    }

    /// Whether `r` is the answer to a call that began in this state and was to end as `step` says,
    /// and `after` is what the lexer has become.
    /// An error that waited has been put together already.
    pub open spec fn answers(
        self,
        after: Self,
        step: (LexerView, Option<LexemeView>),
        r: Result<Option<Lexeme>, BeyondFile>,
    ) -> bool {
        &&& after@ == step.0
        &&& match (step.1, r) {
            (Some(lexeme), Ok(Some(l))) => {
                &&& !self.is_beyond(lexeme)
                &&& lexeme_view(self.filespan(), l) == lexeme
                &&& l matches Err(d) ==> d.codemap == self.codemap()
            },
            (Some(lexeme), Err(_)) => self.is_beyond(lexeme),
            (None, Ok(None)) => true,
            _ => false,
        }
    }

    /// Puts a lexeme at the end of those that wait.
    fn put(&mut self, lexeme: Lexeme)
        requires
            old(self).wf(),
            lexeme matches Err(d) ==> d.codemap == old(self).codemap && !old(self).is_beyond(
                diagnostic_view(old(self).filespan, d),
            ),
        ensures
            final(self).wf(),
            final(self).codemap() == old(self).codemap(),
            final(self).filespan() == old(self).filespan(),
            final(self)@ == (LexerView {
                buffer: old(self)@.buffer.push(lexeme_view(old(self).filespan, lexeme)),
                ..old(self)@
            }),
    {
        let ghost before = self@;
        self.buffer.push_back(lexeme);
        assert(self@.buffer =~= before.buffer.push(lexeme_view(self.filespan, lexeme)));
        assert(self@ =~= (LexerView {
            buffer: before.buffer.push(lexeme_view(self.filespan, lexeme)),
            ..before
        }));
    }

    /// Puts the tokens for the ends of so many blocks behind the lexemes that wait.
    fn put_dedents(&mut self, n: usize, at: u64)
        requires
            old(self).wf(),
        ensures
            final(self).wf(),
            final(self).codemap() == old(self).codemap(),
            final(self).filespan() == old(self).filespan(),
            final(self)@ == (LexerView {
                buffer: old(self)@.buffer + state::dedents(n as nat, at as int),
                ..old(self)@
            }),
    {
        let ghost before = self@;
        assert(before.buffer + state::dedents(0, at as int) =~= before.buffer);
        let mut i: usize = 0;
        while i < n
            invariant
                i <= n,
                self.wf(),
                self.codemap() == old(self).codemap(),
                self.filespan() == old(self).filespan(),
                self@ == (LexerView {
                    buffer: before.buffer + state::dedents(i as nat, at as int),
                    ..before
                }),
            decreases n - i,
        {
            // Each dedent is only a position, so that several in a row do not overlap.
            self.put(Ok((at, Token::Dedent, at)));
            proof {
                assert(self@.buffer =~= before.buffer + state::dedents(
                    (i + 1) as nat,
                    at as int,
                ));
            }
            i += 1;
        }
    }

    /// A line break has just been read: reads how far the next line is indented, and opens and
    /// closes blocks.
    fn calculate_indent(&mut self) -> (r: Result<(), Complaint>)
        requires
            old(self).wf(),
        ensures
            final(self).wf(),
            final(self).codemap() == old(self).codemap(),
            final(self).filespan() == old(self).filespan(),
            ({
                let (state, error) = old(self)@.calculate_indent();
                &&& final(self)@ == state
                &&& match (r, error) {
                    (Ok(()), None) => true,
                    (Err(c), Some(e)) => c@ == e && c.begin <= c.end,
                    _ => false,
                }
            }),
    {
        let ghost before = self@;
        let margin = read_margin(self.rest);
        proof {
            indent::lemma_margin(before.rest);
            let n = indent::margin(before.rest).len as int;
            text::lemma_utf8_len_split(before.rest, n);
            text::lemma_utf8_len_at_least(before.rest.skip(n));
        }
        self.end = self.end + margin.size;
        self.rest = margin.rest;
        let ghost moved = LexerView {
            rest: before.rest.skip(indent::margin(before.rest).len as int),
            end: before.end + margin.size as nat,
            ..before
        };
        assert(self@ =~= moved);
        match margin.line {
            None => Ok(()),
            Some(line) => {
                if line.tabs > 0 && !self.dialect_allow_tabs {
                    return Err(self.invalid_tab());
                }
                let indent: u128 = line.spaces as u128 + line.tabs as u128 * 8;
                let at: u64 = self.start as u64 + line.at as u64 + 1;
                match settle_line(&mut self.indent_levels, indent) {
                    Change::Indent => {
                        let end: u64 = self.end as u64;
                        self.put(Ok((at, Token::Indent, end)));
                        Ok(())
                    },
                    Change::Dedents(n) => {
                        self.put_dedents(n, at);
                        Ok(())
                    },
                    Change::Misaligned => Err(self.reject(LexemeError::Indentation)),
                }
            },
        }
    }

    /// Starts at the beginning of `input`, which is the text of `filespan` in `codemap`.
    pub fn new(input: &'a str, dialect: &Dialect, codemap: Arc<CodeMap>, filespan: Span) -> (r: Self)
        ensures
            r.wf(),
            r.codemap() == codemap,
            r.filespan() == filespan,
            r@ == LexerView::initial(input@, dialect.enable_tabs),
    {
        // The size of the text is a `usize`, so all positions in it are.
        let _size: usize = str_len(input);
        let mut lexer = Lexer {
            codemap,
            filespan,
            // Aim to size all the buffers such that they never resize.
            indent_levels: Vec::with_capacity(20),
            buffer: VecDeque::with_capacity(10),
            parens: 0,
            rest: input,
            start: 0,
            end: 0,
            done: false,
            dialect_allow_tabs: dialect.enable_tabs,
        };
        assert(lexer@ =~= LexerView::fresh(input@, dialect.enable_tabs));
        if let Err(c) = lexer.calculate_indent() {
            // No block is open yet, so this is about a tab, and at the start of the text.
            assert(indent::unwind(seq![], 0) =~= seq![]);
            let error = lexer.err_pos(c.message, c.begin);
            lexer.put(error);
        }
        lexer
    }

    /// What was read last, as a token.
    fn wrap(&self, token: Token) -> (r: Lexeme)
        ensures
            r is Ok,
            lexeme_view(self.filespan, r) == self@.wrap(token@),
    {
        Ok((self.start as u64, token, self.end as u64))
    }

    /// What was read last, as an error.
    fn reject(&self, message: LexemeError) -> (c: Complaint)
        requires
            self.wf(),
        ensures
            c@ == self@.reject(message),
            c.begin <= c.end,
    {
        Complaint { message, begin: self.start as u64, end: self.end as u64 }
    }

    /// A tab that the dialect does not allow.
    fn invalid_tab(&self) -> (c: Complaint)
        ensures
            c@ == self@.reject_tab(),
            c.begin <= c.end,
    {
        Complaint {
            message: LexemeError::InvalidTab,
            begin: self.start as u64,
            end: self.start as u64,
        }
    }

    /// The first quote of a string literal was read last: reads the rest of it.
    fn string(&mut self, quote: char) -> (r: Result<Option<Lexeme>, BeyondFile>)
        requires
            old(self).wf(),
            quote == '\'' || quote == '"',
            old(self)@.end == old(self)@.start + 1 || old(self)@.end == old(self)@.start + 2,
        ensures
            final(self).wf(),
            final(self).codemap() == old(self).codemap(),
            final(self).filespan() == old(self).filespan(),
            ({
                let (state, lexeme) = old(self)@.string(quote);
                old(self).answers(*final(self), (state, Some(lexeme)), r)
            }),
    {
        let ghost before = self@;
        let mut it = enumerate_chars(self.rest);
        let first = it.next();
        let second = it.peek();
        let triple = match (first, second) {
            (Some((_, a)), Some(b)) => a == quote && b == quote,
            _ => false,
        };
        let raw = self.end - self.start == 2;
        let begin: u64 = if raw {
            self.start as u64 + 1
        } else {
            self.start as u64
        };
        let q = Quoting { quote, triple, raw };
        assert(q == before.quoting(quote));
        proof {
            string_literal::lemma_string_step(q, before.rest, begin as nat);
        }
        match read_string(self.rest, q, begin) {
            StringRead::Literal { text, rest, size } => {
                proof {
                    if let StringStep::Literal { len, .. } = string_literal::string_step(
                        q,
                        before.rest,
                        begin as nat,
                    ) {
                        text::lemma_utf8_len_split(before.rest, len as int);
                    }
                }
                let end: u64 = begin + 1 + size as u64;
                self.rest = rest;
                self.end = self.end + size;
                Ok(Some(Ok((begin, Token::StringLiteral(text), end))))
            },
            StringRead::Error { message, begin, end } => self.report(
                Complaint { message, begin, end },
            ),
        }
    }

    /// The token `token`, which is not for tabs, was read last: what is returned for it, if
    /// anything is.
    fn take_token(&mut self, token: Token) -> (r: Result<Option<Lexeme>, BeyondFile>)
        requires
            old(self).wf(),
            token@ != TokenView::Plain(Token::Tabs),
            token@ == TokenView::Plain(Token::RawSingleQuote) || token@ == TokenView::Plain(
                Token::RawDoubleQuote,
            ) ==> old(self)@.end == old(self)@.start + 1 || old(self)@.end == old(self)@.start + 2,
            old(self)@.start < old(self)@.end,
            -old(self)@.start <= old(self)@.parens <= old(self)@.start,
        ensures
            final(self).wf(),
            final(self).codemap() == old(self).codemap(),
            final(self).filespan() == old(self).filespan(),
            match old(self)@.take_token(token@) {
                Turn::Again(state) => {
                    &&& r == Ok::<Option<Lexeme>, BeyondFile>(None)
                    &&& final(self)@ == state
                },
                Turn::Return(state, lexeme) => lexeme is Some && old(self).answers(
                    *final(self),
                    (state, lexeme),
                    r,
                ),
            },
    {
        match token {
            Token::Newline => {
                if self.parens != 0 {
                    return Ok(None);
                }
                let newline = self.wrap(token);
                if let Err(c) = self.calculate_indent() {
                    return self.report(c);
                }
                Ok(Some(newline))
            },
            Token::Error => self.report(self.reject(LexemeError::InvalidCharacter)),
            Token::RawDoubleQuote => self.string('"'),
            Token::RawSingleQuote => self.string('\''),
            Token::OpeningCurly | Token::OpeningRound | Token::OpeningSquare => {
                self.parens += 1;
                Ok(Some(self.wrap(token)))
            },
            Token::ClosingCurly | Token::ClosingRound | Token::ClosingSquare => {
                self.parens -= 1;
                Ok(Some(self.wrap(token)))
            },
            _ => Ok(Some(self.wrap(token))),
        }
    }

    /// The next lexeme. After the end of the text there is none. Where it is an error that cannot be
    /// reported, the lexer goes on behind it all the same.
    pub fn try_next(&mut self) -> (r: Result<Option<Lexeme>, BeyondFile>)
        requires
            old(self).wf(),
        ensures
            final(self).wf(),
            final(self).codemap() == old(self).codemap(),
            final(self).filespan() == old(self).filespan(),
            old(self).answers(*final(self), old(self)@.next(), r),
    {
        loop
            invariant
                self.wf(),
                self.codemap() == old(self).codemap(),
                self.filespan() == old(self).filespan(),
                self@.next() == old(self)@.next(),
            decreases self@.rest.len(),
        {
            let ghost before = self@;
            if let Some(lexeme) = self.buffer.pop_front() {
                proof {
                    assert(self@.buffer =~= before.buffer.drop_first());
                    assert(self@ =~= (LexerView { buffer: before.buffer.drop_first(), ..before }));
                }
                return Ok(Some(lexeme));
            }
            if self.done {
                return Ok(None);
            }
            let raw = next_token(self.rest, self.end);
            proof {
                grammar::lemma_raw_next(before.rest, before.end);
                grammar::lemma_quote_size(before.rest, before.end);
            }
            self.rest = raw.rest;
            self.start = raw.start;
            self.end = raw.end;
            assert(self@ =~= before.behind(raw@));
            match raw.token {
                None => {
                    self.done = true;
                    let n: usize = self.indent_levels.len();
                    let pos: u64 = self.end as u64;
                    self.put_dedents(n, pos);
                    self.indent_levels.clear();
                    assert(indent::levels_view(self.indent_levels@) =~= Seq::<nat>::empty());
                    return Ok(Some(self.wrap(Token::Newline)));
                },
                Some(Token::Tabs) => {
                    if !self.dialect_allow_tabs {
                        proof {
                            let waits = LexerView {
                                buffer: self@.buffer.push(self@.reject_tab()),
                                ..self@
                            };
                            assert(waits.buffer.drop_first() =~= self@.buffer);
                            assert(waits.next() == (self@, Some(self@.reject_tab())));
                        }
                        return self.report(self.invalid_tab());
                    }
                },
                Some(token) => {
                    match self.take_token(token) {
                        Ok(None) => {},
                        r => {
                            return r;
                        },
                    }
                },
            }
        }
    }

    /// The next lexeme. After the end of the text there is none.
    pub fn next(&mut self) -> (r: Option<Lexeme>)
        requires
            old(self).wf(),
            old(self)@.next() matches (_, Some(lexeme)) ==> !old(self).is_beyond(lexeme),
        ensures
            final(self).wf(),
            final(self).codemap() == old(self).codemap(),
            final(self).filespan() == old(self).filespan(),
            old(self).answers(*final(self), old(self)@.next(), Ok(r)),
    {
        match self.try_next() {
            Ok(lexeme) => lexeme,
            Err(_) => None,
        }
    }
}

/// What is said of a lexeme is what it holds: a token its text and positions, an error its message and
/// the bytes of the code map that it is about, counted from where the source text starts there.
pub proof fn law_lexemes_hold_what_is_said(file: Span, lexeme: Lexeme)
    ensures
        match lexeme {
            Ok((begin, token, end)) => lexeme_view(file, lexeme) == (LexemeView::Token {
                begin: begin as int,
                token: match token {
                    Token::Reserved(w) => TokenView::Reserved(w@),
                    Token::Identifier(w) => TokenView::Identifier(w@),
                    Token::StringLiteral(w) => TokenView::StringLiteral(w@),
                    _ => TokenView::Plain(token),
                },
                end: end as int,
            }),
            Err(d) => {
                let begin = diagnostic::span_low(d.span) - diagnostic::span_low(file);
                lexeme_view(file, lexeme) == (LexemeView::Error {
                    message: d.message,
                    begin,
                    end: begin + diagnostic::span_len(d.span),
                })
            },
        },
{
}

} // verus!
