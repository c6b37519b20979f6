//! String literals: from the opening quote on to the text that they denote.

use crate::diagnostic::LexemeError;
use crate::number;
use crate::number::consume_int_r;
use crate::number::to_digit;
use crate::text;
use crate::text::enumerate_chars;
use crate::text::split_chars;
use crate::text::str_len;
use crate::text::EnumeratedChars;
use vstd::prelude::*;
use vstd::utf8::is_scalar;

verus! {

/// [`String::push`] puts a character at the end.
pub assume_specification[ String::push ](s: &mut String, c: char)
    ensures
        final(s)@ == old(s)@.push(c),
;

/// [`char::from_u32`] gives the character with that number, where there is one.
pub assume_specification[ char::from_u32 ](n: u32) -> (c: Option<char>)
    ensures
        c == (if is_scalar(n) {
            Some(n as char)
        } else {
            None
        }),
;

/// How a literal is quoted.
#[derive(Debug, Clone, Copy, PartialEq, Eq, Structural)]
pub struct Quoting {
    /// The quote: `'` or `"`.
    pub quote: char,
    /// Whether three quotes open and close it.
    pub triple: bool,
    /// Whether backslashes stand for themselves.
    pub raw: bool,
}

impl Quoting {
    pub open spec fn wf(self) -> bool {
        self.quote == '\'' || self.quote == '"'
    }

    /// How many quotes in a row there are after `c`, if there were `run` before it.
    pub open spec fn run_after(self, run: nat, c: char) -> nat {
        if c == self.quote {
            run + 1
        } else {
            0
        }
    }

    /// Whether `c` closes the literal, if there were `run` quotes in a row before it.
    pub open spec fn closes(self, run: nat, c: char) -> bool {
        if self.triple {
            self.run_after(run, c) == 3
        } else {
            c == self.quote
        }
    }

    /// Whether `c` does not stand for itself in the literal.
    pub open spec fn is_special(self, c: char) -> bool {
        c == '\\' || c == '\r' || (c == '\n' && !self.triple)
    }

    /// How many characters of `s` come before the first special one.
    pub open spec fn plain_len(self, s: Seq<char>) -> nat
        decreases s.len(),
    {
        if s.len() == 0 || self.is_special(s[0]) {
            0
        } else {
            1 + self.plain_len(s.drop_first())
        }
    }
}

/// What the characters that follow a backslash denote.
pub enum Escape {
    /// This text.
    Text(Seq<char>),
    /// Nothing: they are no escape sequence.
    Invalid,
    /// Nothing: there are none.
    Unfinished,
}

/// An escape sequence that gives the number `code`: there must be one, and a character that has it.
pub open spec fn escape_by_number(code: Option<i32>) -> Escape {
    match code {
        None => Escape::Invalid,
        Some(v) => if is_scalar(v as u32) {
            Escape::Text(seq![v as char])
        } else {
            Escape::Invalid
        },
    }
}

/// The number that the digits at the start of `s` denote.
pub open spec fn leading_number(s: Seq<char>, radix: nat) -> Option<i32> {
    number::digits_to_i32(s.take(number::digit_run(s, radix) as int), radix)
}

/// What the escape sequence denotes that `s`, the text behind a backslash, starts with.
pub open spec fn escape_of(s: Seq<char>) -> Escape {
    if s.len() == 0 {
        Escape::Unfinished
    } else if s[0] == 'n' {
        Escape::Text(seq!['\n'])
    } else if s[0] == 'r' {
        Escape::Text(seq!['\r'])
    } else if s[0] == 't' {
        Escape::Text(seq!['\t'])
    } else if s[0] == '0' {
        // Octal digits, of which there may be none: then it is the character with the number 0.
        if number::digit_run(s.skip(1), 8) == 0 {
            Escape::Text(seq!['\0'])
        } else {
            escape_by_number(leading_number(s.skip(1), 8))
        }
    } else if s[0] == 'x' {
        escape_by_number(leading_number(s.skip(1), 16))
    } else if '1' <= s[0] && s[0] <= '9' {
        Escape::Invalid
    } else if s[0] == 'u' {
        let n = number::digit_run(s.skip(2), 16) as int;
        if s.len() > 2 + n && s[1] == '{' && s[2 + n] == '}' {
            escape_by_number(leading_number(s.skip(2), 16))
        } else {
            Escape::Invalid
        }
    } else if s[0] == '"' || s[0] == '\'' || s[0] == '\\' {
        Escape::Text(seq![s[0]])
    } else if s[0] == '\n' {
        Escape::Text(seq![])
    } else {
        Escape::Text(seq!['\\', s[0]])
    }
}

/// How many characters are looked at to find that out.
pub open spec fn escape_len(s: Seq<char>) -> nat {
    if s.len() == 0 {
        0
    } else if s[0] == '0' {
        1 + number::digit_run(s.skip(1), 8)
    } else if s[0] == 'x' {
        1 + number::digit_run(s.skip(1), 16)
    } else if s[0] == 'u' && s.len() > 1 {
        if s[1] == '{' {
            let n = number::digit_run(s.skip(2), 16);
            if s.len() > 2 + n && leading_number(s.skip(2), 16) is Some {
                3 + n
            } else {
                2 + n
            }
        } else {
            2
        }
    } else {
        1
    }
}

/// What a backslash and `s` behind it denote in a raw literal: only a quote loses its backslash.
pub open spec fn raw_escape_of(s: Seq<char>) -> Escape {
    if s.len() == 0 {
        Escape::Unfinished
    } else if s[0] == '\'' || s[0] == '"' {
        Escape::Text(seq![s[0]])
    } else {
        Escape::Text(seq!['\\', s[0]])
    }
}

pub proof fn lemma_escape_len(s: Seq<char>)
    ensures
        escape_len(s) <= s.len(),
        s.len() > 0 ==> escape_len(s) >= 1,
{
    if s.len() > 0 {
        number::lemma_digit_run(s.skip(1), 8);
        number::lemma_digit_run(s.skip(1), 16);
        if s.len() > 1 {
            number::lemma_digit_run(s.skip(2), 16);
        }
    }
}

/// What is wrong with the bytes `begin..end` of a literal.
#[derive(Debug, Clone, Copy, PartialEq, Eq, Structural)]
pub struct Mistake {
    pub message: LexemeError,
    pub begin: usize,
    pub end: usize,
}

/// Puts the character with the number `code` at the end of `res`, where there is one.
fn push_number(code: Result<i32, ()>, res: &mut String) -> (r: bool)
    requires
        code matches Ok(v) ==> v >= 0,
    ensures
        match code {
            Ok(v) if is_scalar(v as u32) => r && final(res)@ == old(res)@ + seq![v as char],
            _ => !r && final(res)@ == old(res)@,
        },
{
    match code {
        Err(_) => false,
        Ok(v) => match char::from_u32(v as u32) {
            Some(c) => {
                res.push(c);
                assert(res@ =~= old(res)@ + seq![c]);
                true
            },
            None => false,
        },
    }
}

/// Reads what follows a backslash, which ends at byte `pos`: takes the escape sequence off `it` and
/// puts what it denotes at the end of `res`. A mistake in it is said to be at its first character.
pub fn escape(it: &mut EnumeratedChars<'_>, pos: usize, res: &mut String) -> (r: Result<
    (),
    Mistake,
>)
    requires
        old(it).wf(),
    ensures
        final(it).wf(),
        final(it).rest() == old(it).rest().skip(escape_len(old(it).rest()) as int),
        final(it).offset() == old(it).offset() + text::utf8_len(
            old(it).rest().take(escape_len(old(it).rest()) as int),
        ),
        match escape_of(old(it).rest()) {
            Escape::Text(text) => r is Ok && final(res)@ == old(res)@ + text,
            Escape::Invalid => {
                &&& r matches Err(m)
                &&& m.message == LexemeError::InvalidEscapeSequence
                &&& m.begin == pos
                &&& m.end == old(it).offset() + text::char_len(old(it).rest()[0])
                &&& final(res)@ == old(res)@
            },
            Escape::Unfinished => {
                &&& r matches Err(m)
                &&& m.message == LexemeError::UnfinishedStringLiteral
                &&& m.begin == pos
                &&& m.end == pos
                &&& final(res)@ == old(res)@
            },
        },
{
    let ghost s = it.rest();
    let ghost before = res@;
    proof {
        lemma_escape_len(s);
    }
    match it.next() {
        None => Err(
            Mistake { message: LexemeError::UnfinishedStringLiteral, begin: pos, end: pos },
        ),
        Some((end, c)) => {
            let invalid = Mistake {
                message: LexemeError::InvalidEscapeSequence,
                begin: pos,
                end,
            };
            proof {
                assert(s.skip(1) =~= s.drop_first());
                assert(s.take(1) =~= Seq::<char>::empty().push(c));
                text::lemma_utf8_len_push(Seq::<char>::empty(), c);
            }
            if c == 'n' {
                res.push('\n');
                assert(res@ =~= before + seq!['\n']);
                Ok(())
            } else if c == 'r' {
                res.push('\r');
                assert(res@ =~= before + seq!['\r']);
                Ok(())
            } else if c == 't' {
                res.push('\t');
                assert(res@ =~= before + seq!['\t']);
                Ok(())
            } else if c == '0' {
                let octal: bool = match it.peek() {
                    Some(d) => to_digit(d) < 8,
                    None => false,
                };
                if octal {
                    let code = consume_int_r(it, 8);
                    proof {
                        number::lemma_digit_run(s.skip(1), 8);
                        lemma_taken(s, 1, number::digit_run(s.skip(1), 8));
                    }
                    if push_number(code, res) {
                        Ok(())
                    } else {
                        Err(invalid)
                    }
                } else {
                    res.push('\0');
                    assert(res@ =~= before + seq!['\0']);
                    Ok(())
                }
            } else if c == 'x' {
                let code = consume_int_r(it, 16);
                proof {
                    number::lemma_digit_run(s.skip(1), 16);
                    lemma_taken(s, 1, number::digit_run(s.skip(1), 16));
                }
                if push_number(code, res) {
                    Ok(())
                } else {
                    Err(invalid)
                }
            } else if '1' <= c && c <= '9' {
                Err(invalid)
            } else if c == 'u' {
                match it.next() {
                    Some((_, '{')) => {
                        let ghost n = number::digit_run(s.skip(2), 16);
                        proof {
                            assert(s.skip(2) =~= s.skip(1).drop_first());
                            assert(s.take(2) =~= s.take(1).push('{'));
                            text::lemma_utf8_len_push(s.take(1), '{');
                            number::lemma_digit_run(s.skip(2), 16);
                        }
                        let code = consume_int_r(it, 16);
                        proof {
                            lemma_taken(s, 2, n);
                        }
                        if code.is_err() {
                            return Err(invalid);
                        }
                        let closed: bool = match it.next() {
                            Some((_, d)) => {
                                proof {
                                    lemma_taken(s, 2 + n, 1);
                                    assert(s.skip(2 + n as int).take(1) =~= Seq::<
                                        char,
                                    >::empty().push(d));
                                    text::lemma_utf8_len_push(Seq::<char>::empty(), d);
                                    assert(s.skip(2 + n as int).skip(1) =~= s.skip(
                                        2 + n as int,
                                    ).drop_first());
                                }
                                d == '}'
                            },
                            None => false,
                        };
                        if closed {
                            if push_number(code, res) {
                                Ok(())
                            } else {
                                Err(invalid)
                            }
                        } else {
                            Err(invalid)
                        }
                    },
                    Some((_, d)) => {
                        proof {
                            assert(s.skip(2) =~= s.skip(1).drop_first());
                            assert(s.take(2) =~= s.take(1).push(d));
                            text::lemma_utf8_len_push(s.take(1), d);
                        }
                        Err(invalid)
                    },
                    None => Err(invalid),
                }
            } else if c == '"' || c == '\'' || c == '\\' {
                res.push(c);
                assert(res@ =~= before + seq![c]);
                Ok(())
            } else if c == '\n' {
                assert(res@ =~= before + Seq::<char>::empty());
                Ok(())
            } else {
                res.push('\\');
                res.push(c);
                assert(res@ =~= before + seq!['\\', c]);
                Ok(())
            }
        },
    }
}

/// `n` characters after the first `m` end where the first `m + n` do.
proof fn lemma_taken(s: Seq<char>, m: nat, n: nat)
    requires
        m + n <= s.len(),
    ensures
        s.skip(m as int).skip(n as int) == s.skip((m + n) as int),
        text::utf8_len(s.take((m + n) as int)) == text::utf8_len(s.take(m as int))
            + text::utf8_len(s.skip(m as int).take(n as int)),
{
    assert(s.skip(m as int).skip(n as int) =~= s.skip((m + n) as int));
    text::lemma_utf8_len_concat(s.take(m as int), s.skip(m as int).take(n as int));
    assert(s.take(m as int) + s.skip(m as int).take(n as int) =~= s.take((m + n) as int));
}

/// What becomes of a literal.
pub enum ScanView {
    /// It denotes `text`. It takes `size` bytes, up to and with its closing quotes, which are `len`
    /// characters.
    Closed { text: Seq<char>, len: nat, size: nat },
    /// It is never closed.
    Unfinished,
    /// It holds a mistake at the bytes `begin..end`.
    Bad { message: LexemeError, begin: nat, end: nat },
}

/// What becomes of a literal of which `s` is still to be read. What has been read is `at`
/// characters in `offset` bytes, denotes `text`, and ended in `run` quotes in a row.
pub open spec fn scan(
    q: Quoting,
    s: Seq<char>,
    at: nat,
    offset: nat,
    run: nat,
    text: Seq<char>,
) -> ScanView
    decreases s.len(),
{
    if s.len() == 0 {
        ScanView::Unfinished
    } else {
        let c = s[0];
        let tail = s.drop_first();
        let end = offset + text::char_len(c);
        if q.closes(run, c) {
            if !q.triple {
                ScanView::Closed { text, len: at + 1, size: end }
            } else {
                // Two of the three quotes that close it have gone into the text.
                ScanView::Closed { text: text.take(text.len() - 2), len: at + 1, size: end }
            }
        } else if c == '\n' && !q.triple {
            ScanView::Unfinished
        } else if c == '\r' {
            scan(q, tail, at + 1, end, 0, text)
        } else if c != '\\' {
            scan(q, tail, at + 1, end, q.run_after(run, c), text.push(c))
        } else if tail.len() == 0 {
            if q.raw {
                ScanView::Unfinished
            } else {
                ScanView::Bad {
                    message: LexemeError::UnfinishedStringLiteral,
                    begin: end,
                    end,
                }
            }
        } else {
            let n = if q.raw {
                1
            } else {
                escape_len(tail)
            };
            let escape = if q.raw {
                raw_escape_of(tail)
            } else {
                escape_of(tail)
            };
            match escape {
                Escape::Text(t) => if n <= tail.len() {
                    scan(
                        q,
                        tail.skip(n as int),
                        at + 1 + n,
                        end + text::utf8_len(tail.take(n as int)),
                        0,
                        text + t,
                    )
                } else {
                    ScanView::Unfinished
                },
                _ => ScanView::Bad {
                    message: LexemeError::InvalidEscapeSequence,
                    begin: end,
                    end: end + text::char_len(tail[0]),
                },
            }
        }
    }
}

/// What the lexer makes of a literal.
pub enum StringStep {
    /// It denotes `text`, and takes `size` bytes, which are the first `len` characters, behind the
    /// quote that opened it.
    Literal { text: Seq<char>, len: nat, size: nat },
    /// It is answered by an error about the bytes `begin..end`.
    Error { message: LexemeError, begin: nat, end: nat },
}

/// What the lexer makes of a literal, of which the first quote is at byte `start` and `s` is what
/// follows that quote.
///
/// The place of a mistake is counted from the first special character of the literal on.
pub open spec fn string_step(q: Quoting, s: Seq<char>, start: nat) -> StringStep {
    let opening: nat = if q.triple {
        2
    } else {
        0
    };
    let content = s.skip(opening as int);
    let base = text::utf8_len(content.take(q.plain_len(content) as int));
    match scan(q, content, 0, 0, 0, seq![]) {
        ScanView::Closed { text, len, size } => StringStep::Literal {
            text,
            len: opening + len,
            size: opening + size,
        },
        ScanView::Unfinished => StringStep::Error {
            message: LexemeError::UnfinishedStringLiteral,
            begin: start,
            end: start + 1,
        },
        ScanView::Bad { message, begin, end } => StringStep::Error {
            message,
            begin: (begin - base) as nat,
            end: (end - base) as nat,
        },
    }
}

/// What becomes of a literal.
enum Scan {
    Closed { text: String, size: usize },
    Unfinished,
    Bad(Mistake),
}

impl Scan {
    /// Whether this is what `view` says.
    spec fn shows(self, view: ScanView) -> bool {
        match (self, view) {
            (Scan::Closed { text, size }, ScanView::Closed { text: t, size: n, .. }) => text@ == t
                && size == n,
            (Scan::Unfinished, ScanView::Unfinished) => true,
            (Scan::Bad(m), ScanView::Bad { message, begin, end }) => m.message == message
                && m.begin == begin && m.end == end,
            _ => false,
        }
    }
}

/// Whether `text` ends in `run` quotes.
spec fn ends_in_run(q: Quoting, text: Seq<char>, run: nat) -> bool {
    &&& text.len() >= run
    &&& forall|i: int| text.len() - run <= i < text.len() ==> text[i] == q.quote
}

/// Drops the last two characters of `text`, which are quotes.
fn drop_two_quotes(q: Quoting, text: &str) -> (r: String)
    requires
        q.wf(),
        ends_in_run(q, text@, 2),
    ensures
        r@ == text@.take(text@.len() - 2),
{
    let ghost n = text@.len() - 2;
    proof {
        let t = text@;
        assert(t.take(n + 1) =~= t.take(n).push(t[n]));
        assert(t =~= t.take(n + 1).push(t[n + 1]));
        text::lemma_utf8_len_push(t.take(n), t[n]);
        text::lemma_utf8_len_push(t.take(n + 1), t[n + 1]);
    }
    let size: usize = str_len(text) - 2;
    let (kept, _) = split_chars(text, size, Ghost(n));
    kept.to_owned()
}

/// Reads the rest of a literal, character by character. What has been read already is `at`
/// characters, denotes `prefix` and ended in `quotes` quotes in a row.
fn scan_chars(
    from: EnumeratedChars<'_>,
    q: Quoting,
    quotes: u8,
    prefix: String,
    Ghost(at): Ghost<nat>,
) -> (r: Scan)
    requires
        from.wf(),
        q.wf(),
        quotes <= 2,
        ends_in_run(q, prefix@, quotes as nat),
    ensures
        r.shows(scan(q, from.rest(), at, from.offset(), quotes as nat, prefix@)),
{
    let mut it = from;
    let mut run: u8 = quotes;
    let mut text = prefix;
    let ghost mut here: nat = at;
    loop
        invariant
            it.wf(),
            q.wf(),
            run <= 2,
            ends_in_run(q, text@, run as nat),
            scan(q, from.rest(), at, from.offset(), quotes as nat, prefix@) == scan(
                q,
                it.rest(),
                here,
                it.offset(),
                run as nat,
                text@,
            ),
        decreases it.rest().len(),
    {
        let ghost s = it.rest();
        let ghost before = text@;
        match it.next() {
            None => {
                return Scan::Unfinished;
            },
            Some((end, c)) => {
                if !q.triple {
                    if c == q.quote {
                        return Scan::Closed { text, size: end };
                    }
                    if c == '\n' {
                        return Scan::Unfinished;
                    }
                } else if c == q.quote && run == 2 {
                    return Scan::Closed { text: drop_two_quotes(q, text.as_str()), size: end };
                }
                proof {
                    here = here + 1;
                }
                if c == '\r' {
                    run = 0;
                } else if c != '\\' {
                    text.push(c);
                    if c == q.quote {
                        run = run + 1;
                    } else {
                        run = 0;
                    }
                } else if q.raw {
                    let ghost tail = it.rest();
                    run = 0;
                    match it.next() {
                        None => {
                            return Scan::Unfinished;
                        },
                        Some((_, d)) => {
                            proof {
                                assert(tail.skip(1) =~= tail.drop_first());
                                assert(tail.take(1) =~= Seq::<char>::empty().push(d));
                                text::lemma_utf8_len_push(Seq::<char>::empty(), d);
                                here = here + 1;
                            }
                            if d == '\'' || d == '"' {
                                text.push(d);
                                assert(text@ =~= before + seq![d]);
                            } else {
                                text.push('\\');
                                text.push(d);
                                assert(text@ =~= before + seq!['\\', d]);
                            }
                        },
                    }
                } else {
                    let ghost tail = it.rest();
                    run = 0;
                    proof {
                        lemma_escape_len(tail);
                        if tail.len() > 0 {
                            text::lemma_utf8_len_split(tail, 1);
                            assert(tail.take(1) =~= Seq::<char>::empty().push(tail[0]));
                            text::lemma_utf8_len_push(Seq::<char>::empty(), tail[0]);
                        }
                    }
                    match escape(&mut it, end, &mut text) {
                        Ok(()) => {
                            proof {
                                here = here + escape_len(tail);
                            }
                        },
                        Err(mistake) => {
                            return Scan::Bad(mistake);
                        },
                    }
                }
            },
        }
    }
}

/// What the lexer makes of a literal.
pub enum StringRead<'a> {
    /// It denotes `text`, and takes `size` bytes behind the quote that opened it: `rest` follows.
    Literal { text: String, rest: &'a str, size: usize },
    /// It is answered by an error about the bytes `begin..end`.
    Error { message: LexemeError, begin: u64, end: u64 },
}

/// Finishes the reading of a literal that came to the end `outcome`. Its content starts `opening`
/// bytes into `s`, and the first special character stands `base` bytes into the content.
fn conclude<'a>(
    outcome: Scan,
    s: &'a str,
    q: Quoting,
    opening: usize,
    base: usize,
    start: u64,
) -> (r: StringRead<'a>)
    requires
        start < u64::MAX,
        q.triple ==> s@.len() >= 2 && s@[0] == q.quote && s@[1] == q.quote,
        q.wf(),
        opening == (if q.triple {
            2int
        } else {
            0int
        }),
        ({
            let content = s@.skip(opening as int);
            &&& outcome.shows(scan(q, content, 0, 0, 0, seq![]))
            &&& outcome is Closed || base == text::utf8_len(
                content.take(q.plain_len(content) as int),
            )
        }),
    ensures
        r.shows(string_step(q, s@, start as nat), s@),
{
    let ghost content = s@.skip(opening as int);
    proof {
        lemma_scan_bounds(q, content, 0, 0, 0, seq![]);
        lemma_scan_plain(q, content, 0, 0, 0, seq![]);
        lemma_string_step(q, s@, start as nat);
    }
    match outcome {
        Scan::Closed { text, size } => {
            let ghost len = string_step(q, s@, start as nat)->len as int;
            let total: usize = str_len(s);
            proof {
                text::lemma_utf8_len_split(s@, len);
            }
            let (_, rest) = split_chars(s, size + opening, Ghost(len));
            StringRead::Literal { text, rest, size: size + opening }
        },
        Scan::Unfinished => StringRead::Error {
            message: LexemeError::UnfinishedStringLiteral,
            begin: start,
            end: start + 1,
        },
        Scan::Bad(m) => StringRead::Error {
            message: m.message,
            begin: (m.begin - base) as u64,
            end: (m.end - base) as u64,
        },
    }
}

impl<'a> StringRead<'a> {
    /// Whether this is what `step` says of `s`.
    pub open spec fn shows(self, step: StringStep, s: Seq<char>) -> bool {
        match (self, step) {
            (
                StringRead::Literal { text, rest, size },
                StringStep::Literal { text: t, len, size: n },
            ) => text@ == t && rest@ == s.skip(len as int) && size == n,
            (
                StringRead::Error { message, begin, end },
                StringStep::Error { message: m, begin: b, end: e },
            ) => message == m && begin == b && end == e,
            _ => false,
        }
    }
}

/// Every offset that [`scan`] gives lies within the text, behind what had been read.
proof fn lemma_scan_bounds(
    q: Quoting,
    s: Seq<char>,
    at: nat,
    offset: nat,
    run: nat,
    text: Seq<char>,
)
    ensures
        scan(q, s, at, offset, run, text) matches ScanView::Closed { len, size, .. } ==> {
            &&& at < len <= at + s.len()
            &&& size == offset + text::utf8_len(s.take(len - at))
        },
        scan(q, s, at, offset, run, text) matches ScanView::Bad { begin, end, .. } ==> offset
            < begin <= end <= offset + text::utf8_len(s),
    decreases s.len(),
{
    if s.len() > 0 {
        let c = s[0];
        let tail = s.drop_first();
        let end = offset + text::char_len(c);
        text::lemma_utf8_len_at_least(tail);
        if tail.len() > 0 {
            assert(text::utf8_len(tail) == text::char_len(tail[0]) + text::utf8_len(
                tail.drop_first(),
            ));
        }
        text::lemma_step(s, 0);
        lemma_scan_bounds(q, tail, at + 1, end, 0, text);
        lemma_scan_bounds(q, tail, at + 1, end, q.run_after(run, c), text.push(c));
        lemma_first_taken(s);
        if c == '\\' && tail.len() > 0 {
            lemma_escape_len(tail);
            let n = if q.raw {
                1
            } else {
                escape_len(tail)
            };
            let escape = if q.raw {
                raw_escape_of(tail)
            } else {
                escape_of(tail)
            };
            text::lemma_utf8_len_split(tail, n as int);
            if let Escape::Text(t) = escape {
                lemma_more_taken(tail, n);
                lemma_scan_bounds(
                    q,
                    tail.skip(n as int),
                    at + 1 + n,
                    end + text::utf8_len(tail.take(n as int)),
                    0,
                    text + t,
                );
            }
        }
    }
}

/// The first character of `s`, and more.
proof fn lemma_first_taken(s: Seq<char>)
    requires
        s.len() > 0,
    ensures
        forall|k: int|
            1 <= k <= s.len() ==> #[trigger] text::utf8_len(s.take(k)) == text::char_len(s[0])
                + text::utf8_len(s.drop_first().take(k - 1)),
{
    assert forall|k: int| 1 <= k <= s.len() implies #[trigger] text::utf8_len(s.take(k))
        == text::char_len(s[0]) + text::utf8_len(s.drop_first().take(k - 1)) by {
        assert(s.take(k).drop_first() =~= s.drop_first().take(k - 1));
    }
}

/// The first `n` characters of `s`, and more.
proof fn lemma_more_taken(s: Seq<char>, n: nat)
    requires
        n <= s.len(),
    ensures
        forall|k: int|
            n <= k <= s.len() ==> #[trigger] text::utf8_len(s.take(k)) == text::utf8_len(
                s.take(n as int),
            ) + text::utf8_len(s.skip(n as int).take(k - n)),
{
    assert forall|k: int| n <= k <= s.len() implies #[trigger] text::utf8_len(s.take(k))
        == text::utf8_len(s.take(n as int)) + text::utf8_len(s.skip(n as int).take(k - n)) by {
        lemma_taken(s, n, (k - n) as nat);
    }
}

/// Reads a literal. Its first quote is at byte `start`, and `s` is what follows that quote.
pub fn read_string<'a>(s: &'a str, q: Quoting, start: u64) -> (r: StringRead<'a>)
    requires
        q.wf(),
        q.triple ==> s@.len() >= 2 && s@[0] == q.quote && s@[1] == q.quote,
        start < u64::MAX,
    ensures
        r.shows(string_step(q, s@, start as nat), s@),
{
    let opening: usize = if q.triple {
        2
    } else {
        0
    };
    let total: usize = str_len(s);
    proof {
        assert(s@.take(0) =~= Seq::<char>::empty());
        if q.triple {
            assert(s@.take(1) =~= s@.take(0).push(q.quote));
            assert(s@.take(2) =~= s@.take(1).push(q.quote));
            text::lemma_utf8_len_push(s@.take(0), q.quote);
            text::lemma_utf8_len_push(s@.take(1), q.quote);
        }
        text::lemma_utf8_len_split(s@, opening as int);
    }
    let (_, content) = split_chars(s, opening, Ghost(opening as int));
    let ghost c = content@;
    let mut it = enumerate_chars(content);
    let mut run: u8 = 0;
    let ghost mut n: int = 0;
    proof {
        assert(c.take(0) =~= Seq::<char>::empty());
        assert(c.skip(0) =~= c);
    }
    loop
        invariant
            it.wf(),
            q.wf(),
            q.triple ==> s@.len() >= 2 && s@[0] == q.quote && s@[1] == q.quote,
            c == content@,
            c == s@.skip(opening as int),
            opening == (if q.triple {
                2int
            } else {
                0int
            }),
            total == text::utf8_len(s@),
            total == opening + text::utf8_len(c),
            start < u64::MAX,
            0 <= n <= c.len(),
            it.rest() == c.skip(n),
            it.offset() == text::utf8_len(c.take(n)),
            run <= 2,
            run <= n,
            ends_in_run(q, c.take(n), run as nat),
            scan(q, c, 0, 0, 0, seq![]) == scan(
                q,
                c.skip(n),
                n as nat,
                it.offset(),
                run as nat,
                c.take(n),
            ),
            q.plain_len(c) == n + q.plain_len(c.skip(n)),
        ensures
            n == c.len() || q.is_special(c[n]),
        decreases c.len() - n,
    {
        let here = it;
        match it.next() {
            None => break,
            Some((end, d)) => {
                let closes: bool = if q.triple {
                    d == q.quote && run == 2
                } else {
                    d == q.quote
                };
                if closes {
                    proof {
                        let t = c.take(n);
                        if q.triple {
                            assert(t.take(n - 1) =~= c.take(n - 1));
                            assert(t =~= c.take(n - 1).push(t[n - 1]));
                            assert(c.take(n - 1) =~= c.take(n - 2).push(t[n - 2]));
                            text::lemma_utf8_len_push(c.take(n - 1), t[n - 1]);
                            text::lemma_utf8_len_push(c.take(n - 2), t[n - 2]);
                            assert(t.take(n - 2) =~= c.take(n - 2));
                        }
                    }
                    let size: usize = here.pos() - opening;
                    let (kept, _) = split_chars(content, size, Ghost(n - opening));
                    return conclude(
                        Scan::Closed { text: kept.to_owned(), size: end },
                        s,
                        q,
                        opening,
                        0,
                        start,
                    );
                }
                if d == '\\' || d == '\r' || (d == '\n' && !q.triple) {
                    it = here;
                    break;
                }
                proof {
                    assert(c.take(n + 1).drop_last() =~= c.take(n));
                    assert(c.take(n + 1) =~= c.take(n).push(d));
                    text::lemma_utf8_len_push(c.take(n), d);
                    assert(c.skip(n).drop_first() =~= c.skip(n + 1));
                    n = n + 1;
                }
                if d == q.quote {
                    run = run + 1;
                } else {
                    run = 0;
                }
            },
        }
    }
    let base: usize = it.pos();
    if it.peek().is_none() {
        // The end of the text has come first.
        return conclude(Scan::Unfinished, s, q, opening, base, start);
    }
    let (prefix, _) = split_chars(content, base, Ghost(n));
    let outcome = scan_chars(it, q, run, prefix.to_owned(), Ghost(n as nat));
    conclude(outcome, s, q, opening, base, start)
}

/// What is wrong with a literal lies behind the characters that are not special.
proof fn lemma_scan_plain(
    q: Quoting,
    s: Seq<char>,
    at: nat,
    offset: nat,
    run: nat,
    text: Seq<char>,
)
    ensures
        q.plain_len(s) <= s.len(),
        scan(q, s, at, offset, run, text) matches ScanView::Bad { begin, .. } ==> offset
            + text::utf8_len(s.take(q.plain_len(s) as int)) <= begin,
    decreases s.len(),
{
    lemma_scan_bounds(q, s, at, offset, run, text);
    if s.len() == 0 || q.is_special(s[0]) {
        assert(s.take(0) =~= Seq::<char>::empty());
    } else {
        let c = s[0];
        let tail = s.drop_first();
        lemma_scan_plain(
            q,
            tail,
            at + 1,
            offset + text::char_len(c),
            q.run_after(run, c),
            text.push(c),
        );
        let n = q.plain_len(s) as int;
        assert(s.take(n).drop_first() =~= tail.take(n - 1));
    }
}

/// A literal lies within the text, and so does what an error is about.
pub proof fn lemma_string_step(q: Quoting, s: Seq<char>, start: nat)
    requires
        q.wf(),
        q.triple ==> s.len() >= 2 && s[0] == q.quote && s[1] == q.quote,
    ensures
        match string_step(q, s, start) {
            StringStep::Literal { len, size, .. } => len <= s.len() && size == text::utf8_len(
                s.take(len as int),
            ),
            StringStep::Error { begin, end, .. } => begin <= end <= start + 1 + text::utf8_len(s),
        },
{
    let opening: int = if q.triple {
        2
    } else {
        0
    };
    let content = s.skip(opening);
    text::lemma_utf8_len_split(s, opening);
    lemma_scan_plain(q, content, 0, 0, 0, seq![]);
    lemma_scan_bounds(q, content, 0, 0, 0, seq![]);
    if let ScanView::Closed { len, .. } = scan(q, content, 0, 0, 0, seq![]) {
        lemma_taken(s, opening as nat, len);
    }
    if q.triple {
        text::lemma_step(s, 0);
        text::lemma_step(s, 1);
    } else {
        assert(s.take(0) =~= Seq::<char>::empty());
    }
}

/// What can be wrong with a literal.
proof fn lemma_scan_messages(
    q: Quoting,
    s: Seq<char>,
    at: nat,
    offset: nat,
    run: nat,
    text: Seq<char>,
)
    ensures
        scan(q, s, at, offset, run, text) matches ScanView::Bad { message, .. } ==> message
            == LexemeError::UnfinishedStringLiteral || message
            == LexemeError::InvalidEscapeSequence,
    decreases s.len(),
{
    if s.len() > 0 {
        let c = s[0];
        let tail = s.drop_first();
        let end = offset + text::char_len(c);
        lemma_scan_messages(q, tail, at + 1, end, 0, text);
        lemma_scan_messages(q, tail, at + 1, end, q.run_after(run, c), text.push(c));
        if c == '\\' && tail.len() > 0 {
            let n = if q.raw {
                1
            } else {
                escape_len(tail)
            };
            let escape = if q.raw {
                raw_escape_of(tail)
            } else {
                escape_of(tail)
            };
            if let Escape::Text(t) = escape {
                if n <= tail.len() {
                    lemma_scan_messages(
                        q,
                        tail.skip(n as int),
                        at + 1 + n,
                        end + text::utf8_len(tail.take(n as int)),
                        0,
                        text + t,
                    );
                }
            }
        }
    }
}

/// What can be wrong with a literal.
pub proof fn lemma_string_messages(q: Quoting, s: Seq<char>, start: nat)
    ensures
        string_step(q, s, start) matches StringStep::Error { message, .. } ==> message
            == LexemeError::UnfinishedStringLiteral || message
            == LexemeError::InvalidEscapeSequence,
{
    let content = s.skip(
        if q.triple {
            2
        } else {
            0
        },
    );
    lemma_scan_messages(q, content, 0, 0, 0, seq![]);
}

} // verus!
