//! The tokens that the lexer produces.

use crate::text;
use crate::text::enumerate_chars;
use crate::text::split_chars;
use vstd::prelude::*;

verus! {

/// All tokens that can be generated by the lexer.
#[derive(Debug, Clone, PartialEq)]
pub enum Token {
    /// Text that is no token.
    Error,
    /// Tabs, which might be a mistake.
    Tabs,
    /// New indentation block.
    Indent,
    /// Leaving an indentation block.
    Dedent,
    /// Newline outside a string.
    Newline,
    /// The quote that opens a string literal, with the `r` before it if there is one.
    RawSingleQuote,
    /// The quote that opens a string literal, with the `r` before it if there is one.
    RawDoubleQuote,
    /// One of the reserved keywords.
    Reserved(String),
    /// An identifier.
    Identifier(String),
    /// An integer literal (123, 0x1, 0b1011, 0o755, ...).
    IntegerLiteral(i32),
    /// A string literal.
    StringLiteral(String),
    // Keywords
    And,
    Else,
    Load,
    Break,
    For,
    Not,
    Continue,
    If,
    Or,
    Def,
    In,
    Pass,
    Elif,
    Return,
    Lambda,
    // Symbols
    Comma,
    Semicolon,
    Colon,
    PlusEqual,
    MinusEqual,
    StarEqual,
    SlashEqual,
    SlashSlashEqual,
    PercentEqual,
    EqualEqual,
    BangEqual,
    LessEqual,
    GreaterEqual,
    StarStar,
    RightArrow,
    Equal,
    LessThan,
    GreaterThan,
    Minus,
    Plus,
    Star,
    Percent,
    Slash,
    SlashSlash,
    Dot,
    Pipe,
    // Brackets
    OpeningSquare,
    OpeningCurly,
    OpeningRound,
    ClosingSquare,
    ClosingCurly,
    ClosingRound,
}

/// A token as a value: the text that it carries is a sequence of characters.
#[verifier::ext_equal]
pub enum TokenView {
    Reserved(Seq<char>),
    Identifier(Seq<char>),
    StringLiteral(Seq<char>),
    /// A token without text.
    Plain(Token),
}

impl View for Token {
    type V = TokenView;

    open spec fn view(&self) -> TokenView {
        match *self {
            Token::Reserved(s) => TokenView::Reserved(s@),
            Token::Identifier(s) => TokenView::Identifier(s@),
            Token::StringLiteral(s) => TokenView::StringLiteral(s@),
            t => TokenView::Plain(t),
        }
    }
}

/// What the debug format of std, `{:?}`, makes of a text: the text in double quotes, with escape
/// sequences in it where that format puts them.
pub uninterp spec fn debug_text(s: Seq<char>) -> Seq<char>;

/// `format!("{:?}", s)` of std. Which characters it escapes, and how, is left to the name
/// [`debug_text`].
#[verifier::external_body]
fn debug_string(s: &String) -> (r: String)
    ensures
        r@ == debug_text(s@),
{
    format!("{:?}", s)
}

/// The decimal digit `d`.
pub open spec fn digit_char(d: nat) -> char {
    ('0' as nat + d) as char
}

/// `n` in decimal.
pub open spec fn decimal(n: nat) -> Seq<char>
    decreases n,
{
    if n < 10 {
        seq![digit_char(n)]
    } else {
        decimal(n / 10).push(digit_char(n % 10))
    }
}

/// `i` in decimal, with a sign where it is negative.
pub open spec fn signed_decimal(i: int) -> Seq<char> {
    if i < 0 {
        seq!['-'] + decimal((-i) as nat)
    } else {
        decimal(i as nat)
    }
}

/// Puts `n` in decimal at the end of `s`.
fn push_decimal(n: u32, s: &mut String)
    ensures
        final(s)@ == old(s)@ + decimal(n as nat),
    decreases n,
{
    let ghost before = s@;
    if n >= 10 {
        push_decimal(n / 10, s);
    }
    let d: u8 = (n % 10) as u8;
    s.push(('0' as u8 + d) as char);
    assert(s@ =~= before + decimal(n as nat));
}

/// Whether `s` has a quote at its end, and another one before it.
pub open spec fn is_quoting(s: Seq<char>) -> bool {
    s.len() > 0 && s.last() == '\'' && s.drop_last().contains('\'')
}

/// What stands between the first quote of `s` and a quote that it ends with; all of `s` where it
/// does not hold and end in these two.
pub open spec fn unquoted(s: Seq<char>) -> Seq<char> {
    if is_quoting(s) {
        s.subrange(s.index_of_first('\'')->Some_0 + 1, s.len() - 1)
    } else {
        s
    }
}

impl TokenView {
    /// How a message names the token.
    pub open spec fn display(self) -> Seq<char> {
        match self {
            TokenView::Reserved(s) => "reserved keyword '"@ + s + "'"@,
            TokenView::Identifier(s) => "identifier '"@ + s + "'"@,
            TokenView::StringLiteral(s) => "string literal '"@ + s + "'"@,
            TokenView::Plain(Token::IntegerLiteral(i)) => "integer literal '"@ + signed_decimal(
                i as int,
            ) + "'"@,
            TokenView::Plain(Token::Error) => "lexical error"@,
            TokenView::Plain(Token::Indent) => "new indentation block"@,
            TokenView::Plain(Token::Dedent) => "end of indentation block"@,
            TokenView::Plain(Token::Newline) => "new line"@,
            TokenView::Plain(Token::And) => "keyword 'and'"@,
            TokenView::Plain(Token::Else) => "keyword 'else'"@,
            TokenView::Plain(Token::Load) => "keyword 'load'"@,
            TokenView::Plain(Token::Break) => "keyword 'break'"@,
            TokenView::Plain(Token::For) => "keyword 'for'"@,
            TokenView::Plain(Token::Not) => "keyword 'not'"@,
            TokenView::Plain(Token::Continue) => "keyword 'continue'"@,
            TokenView::Plain(Token::If) => "keyword 'if'"@,
            TokenView::Plain(Token::Or) => "keyword 'or'"@,
            TokenView::Plain(Token::Def) => "keyword 'def'"@,
            TokenView::Plain(Token::In) => "keyword 'in'"@,
            TokenView::Plain(Token::Pass) => "keyword 'pass'"@,
            TokenView::Plain(Token::Elif) => "keyword 'elif'"@,
            TokenView::Plain(Token::Return) => "keyword 'return'"@,
            TokenView::Plain(Token::Lambda) => "keyword 'lambda'"@,
            TokenView::Plain(Token::Comma) => "symbol ','"@,
            TokenView::Plain(Token::Semicolon) => "symbol ';'"@,
            TokenView::Plain(Token::Colon) => "symbol ':'"@,
            TokenView::Plain(Token::PlusEqual) => "symbol '+='"@,
            TokenView::Plain(Token::MinusEqual) => "symbol '-='"@,
            TokenView::Plain(Token::StarEqual) => "symbol '*='"@,
            TokenView::Plain(Token::SlashEqual) => "symbol '/='"@,
            TokenView::Plain(Token::SlashSlashEqual) => "symbol '//='"@,
            TokenView::Plain(Token::PercentEqual) => "symbol '%='"@,
            TokenView::Plain(Token::EqualEqual) => "symbol '=='"@,
            TokenView::Plain(Token::BangEqual) => "symbol '!='"@,
            TokenView::Plain(Token::LessEqual) => "symbol '<='"@,
            TokenView::Plain(Token::GreaterEqual) => "symbol '>='"@,
            TokenView::Plain(Token::StarStar) => "symbol '**'"@,
            TokenView::Plain(Token::RightArrow) => "symbol '->'"@,
            TokenView::Plain(Token::Equal) => "symbol '='"@,
            TokenView::Plain(Token::LessThan) => "symbol '<'"@,
            TokenView::Plain(Token::GreaterThan) => "symbol '>'"@,
            TokenView::Plain(Token::Minus) => "symbol '-'"@,
            TokenView::Plain(Token::Plus) => "symbol '+'"@,
            TokenView::Plain(Token::Star) => "symbol '*'"@,
            TokenView::Plain(Token::Percent) => "symbol '%'"@,
            TokenView::Plain(Token::Slash) => "symbol '/'"@,
            TokenView::Plain(Token::SlashSlash) => "symbol '//'"@,
            TokenView::Plain(Token::Dot) => "symbol '.'"@,
            TokenView::Plain(Token::Pipe) => "symbol '|'"@,
            TokenView::Plain(Token::OpeningSquare) => "symbol '['"@,
            TokenView::Plain(Token::OpeningCurly) => "symbol '{'"@,
            TokenView::Plain(Token::OpeningRound) => "symbol '('"@,
            TokenView::Plain(Token::ClosingSquare) => "symbol ']'"@,
            TokenView::Plain(Token::ClosingCurly) => "symbol '}'"@,
            TokenView::Plain(Token::ClosingRound) => "symbol ')'"@,
            TokenView::Plain(Token::RawSingleQuote) => "starting '"@,
            TokenView::Plain(Token::RawDoubleQuote) => "starting \""@,
            TokenView::Plain(Token::Tabs) => ""@,
            TokenView::Plain(_) => ""@,
        }
    }

    /// Source text of the token.
    pub open spec fn unlex(self) -> Seq<char> {
        match self {
            TokenView::Plain(Token::Indent) => "\t"@,
            TokenView::Plain(Token::Newline) => "\n"@,
            TokenView::Plain(Token::Dedent) => "#dedent"@,
            TokenView::StringLiteral(s) => debug_text(s),
            _ => unquoted(self.display()),
        }
    }
}

/// `before`, `s` and a quote, one behind the other.
fn label(before: &str, s: &str) -> (r: String)
    ensures
        r@ == before@ + s@ + "'"@,
{
    let mut r = before.to_owned();
    r.append(s);
    r.append("'");
    r
}

/// What stands between the quotes of `s`.
fn unquote(s: String) -> (r: String)
    ensures
        r@ == unquoted(s@),
{
    let mut it = enumerate_chars(s.as_str());
    let ghost all = s@;
    let ghost mut n: int = 0;
    let ghost mut first: int = 0;
    // Where the first quote ends, where the last character starts, and that character.
    let mut opened: Option<usize> = None;
    let mut last_start: usize = 0;
    let mut last: char = ' ';
    proof {
        assert(all.skip(0) =~= all);
        assert(all.take(0) =~= Seq::<char>::empty());
    }
    loop
        invariant
            it.wf(),
            all == s@,
            0 <= n <= all.len(),
            it.rest() == all.skip(n),
            it.offset() == text::utf8_len(all.take(n)),
            n > 0 ==> last == all[n - 1] && last_start == text::utf8_len(all.take(n - 1)),
            n == 0 ==> last == ' ',
            match opened {
                None => forall|j: int| 0 <= j < n ==> all[j] != '\'',
                Some(k) => {
                    &&& 0 <= first < n
                    &&& all[first] == '\''
                    &&& forall|j: int| 0 <= j < first ==> all[j] != '\''
                    &&& k == text::utf8_len(all.take(first + 1))
                },
            },
        ensures
            n == all.len(),
        decreases all.len() - n,
    {
        let start: usize = it.pos();
        match it.next() {
            None => break,
            Some((end, c)) => {
                proof {
                    assert(all.take(n + 1) =~= all.take(n).push(c));
                    text::lemma_utf8_len_push(all.take(n), c);
                    assert(all.skip(n).drop_first() =~= all.skip(n + 1));
                    if opened is None && c == '\'' {
                        first = n;
                    }
                    n = n + 1;
                }
                if c == '\'' && opened.is_none() {
                    opened = Some(end);
                }
                last_start = start;
                last = c;
            },
        }
    }
    proof {
        assert(all.take(n) =~= all);
    }
    match opened {
        Some(k) => {
            proof {
                lemma_first_index(all, first);
                if first < n - 1 {
                    assert(all.drop_last()[first] == '\'');
                    text::lemma_utf8_len_split(all.take(n - 1), first + 1);
                    assert(all.take(n - 1).take(first + 1) =~= all.take(first + 1));
                } else {
                    assert(all.take(n) =~= all.take(n - 1).push(all[n - 1]));
                    text::lemma_utf8_len_push(all.take(n - 1), all[n - 1]);
                }
            }
            if last == '\'' && k <= last_start {
                let (front, _) = split_chars(s.as_str(), last_start, Ghost(n - 1));
                assert(front@.take(first + 1) =~= all.take(first + 1));
                let (_, inner) = split_chars(front, k, Ghost(first + 1));
                assert(inner@ =~= all.subrange(first + 1, n - 1));
                inner.to_owned()
            } else {
                s
            }
        },
        None => {
            assert(is_quoting(all) ==> all.contains(all.last()));
            s
        },
    }
}

/// Where the first quote stands.
pub proof fn lemma_first_index(s: Seq<char>, i: int)
    requires
        0 <= i < s.len(),
        s[i] == '\'',
        forall|j: int| 0 <= j < i ==> s[j] != '\'',
    ensures
        s.index_of_first('\'') == Some(i),
{
    s.index_of_first_ensures('\'');
    assert(s.contains(s[i]));
}

impl Token {
    /// How a message names the token.
    pub fn to_string(&self) -> (s: String)
        ensures
            s@ == self@.display(),
    {
        match self {
            Token::Reserved(s) => label("reserved keyword '", s.as_str()),
            Token::Identifier(s) => label("identifier '", s.as_str()),
            Token::StringLiteral(s) => label("string literal '", s.as_str()),
            Token::IntegerLiteral(i) => {
                let mut digits = String::new();
                if *i < 0 {
                    digits.push('-');
                    push_decimal((-(*i as i64)) as u32, &mut digits);
                } else {
                    push_decimal(*i as u32, &mut digits);
                }
                assert(digits@ =~= signed_decimal(*i as int));
                label("integer literal '", digits.as_str())
            },
            Token::Error => "lexical error".to_owned(),
            Token::Indent => "new indentation block".to_owned(),
            Token::Dedent => "end of indentation block".to_owned(),
            Token::Newline => "new line".to_owned(),
            Token::And => "keyword 'and'".to_owned(),
            Token::Else => "keyword 'else'".to_owned(),
            Token::Load => "keyword 'load'".to_owned(),
            Token::Break => "keyword 'break'".to_owned(),
            Token::For => "keyword 'for'".to_owned(),
            Token::Not => "keyword 'not'".to_owned(),
            Token::Continue => "keyword 'continue'".to_owned(),
            Token::If => "keyword 'if'".to_owned(),
            Token::Or => "keyword 'or'".to_owned(),
            Token::Def => "keyword 'def'".to_owned(),
            Token::In => "keyword 'in'".to_owned(),
            Token::Pass => "keyword 'pass'".to_owned(),
            Token::Elif => "keyword 'elif'".to_owned(),
            Token::Return => "keyword 'return'".to_owned(),
            Token::Lambda => "keyword 'lambda'".to_owned(),
            Token::Comma => "symbol ','".to_owned(),
            Token::Semicolon => "symbol ';'".to_owned(),
            Token::Colon => "symbol ':'".to_owned(),
            Token::PlusEqual => "symbol '+='".to_owned(),
            Token::MinusEqual => "symbol '-='".to_owned(),
            Token::StarEqual => "symbol '*='".to_owned(),
            Token::SlashEqual => "symbol '/='".to_owned(),
            Token::SlashSlashEqual => "symbol '//='".to_owned(),
            Token::PercentEqual => "symbol '%='".to_owned(),
            Token::EqualEqual => "symbol '=='".to_owned(),
            Token::BangEqual => "symbol '!='".to_owned(),
            Token::LessEqual => "symbol '<='".to_owned(),
            Token::GreaterEqual => "symbol '>='".to_owned(),
            Token::StarStar => "symbol '**'".to_owned(),
            Token::RightArrow => "symbol '->'".to_owned(),
            Token::Equal => "symbol '='".to_owned(),
            Token::LessThan => "symbol '<'".to_owned(),
            Token::GreaterThan => "symbol '>'".to_owned(),
            Token::Minus => "symbol '-'".to_owned(),
            Token::Plus => "symbol '+'".to_owned(),
            Token::Star => "symbol '*'".to_owned(),
            Token::Percent => "symbol '%'".to_owned(),
            Token::Slash => "symbol '/'".to_owned(),
            Token::SlashSlash => "symbol '//'".to_owned(),
            Token::Dot => "symbol '.'".to_owned(),
            Token::Pipe => "symbol '|'".to_owned(),
            Token::OpeningSquare => "symbol '['".to_owned(),
            Token::OpeningCurly => "symbol '{'".to_owned(),
            Token::OpeningRound => "symbol '('".to_owned(),
            Token::ClosingSquare => "symbol ']'".to_owned(),
            Token::ClosingCurly => "symbol '}'".to_owned(),
            Token::ClosingRound => "symbol ')'".to_owned(),
            Token::RawSingleQuote => "starting '".to_owned(),
            Token::RawDoubleQuote => "starting \"".to_owned(),
            Token::Tabs => "".to_owned(),
        }
    }

    /// Source text of the token, for use in tests.
    pub fn unlex(&self) -> (s: String)
        ensures
            s@ == self@.unlex(),
    {
        match self {
            Token::Indent => "\t".to_owned(),
            Token::Newline => "\n".to_owned(),
            Token::Dedent => "#dedent".to_owned(),
            Token::StringLiteral(s) => debug_string(s),
            _ => unquote(self.to_string()),
        }
    }
}

} // verus!
