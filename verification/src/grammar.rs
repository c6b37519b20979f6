//! The grammar: which pieces of text are tokens, and how a text falls into them.

use crate::number;
use crate::number::parse_i32;
use crate::number::to_digit;
use crate::text;
use crate::text::enumerate_chars;
use crate::text::split_chars;
use crate::text::str_eq;
use crate::text::str_len;
use crate::text::EnumeratedChars;
use crate::token::Token;
use crate::token::TokenView;
use vstd::prelude::*;

verus! {

/// A set of characters.
#[derive(Debug, Clone, Copy, PartialEq, Eq, Structural)]
pub enum Class {
    Space,
    Tab,
    /// All that can stand in a comment.
    NotNewline,
    /// All that can stand in an identifier.
    Word,
    /// The digits in a radix.
    Digit(u32),
}

impl Class {
    pub open spec fn has(self, c: char) -> bool {
        match self {
            Class::Space => c == ' ',
            Class::Tab => c == '\t',
            Class::NotNewline => c != '\n',
            Class::Word => is_word_start(c) || ('0' <= c && c <= '9'),
            Class::Digit(radix) => number::is_digit(c, radix as nat),
        }
    }

    pub open spec fn has_all(self, w: Seq<char>) -> bool {
        forall|i: int| 0 <= i < w.len() ==> self.has(#[trigger] w[i])
    }

    /// How many of the first characters of `s` are in the class.
    pub open spec fn run(self, s: Seq<char>) -> nat
        decreases s.len(),
    {
        if s.len() > 0 && self.has(s[0]) {
            1 + self.run(s.drop_first())
        } else {
            0
        }
    }

    /// Whether `c` is in the class.
    fn test(&self, c: char) -> (r: bool)
        ensures
            r == self.has(c),
    {
        match self {
            Class::Space => c == ' ',
            Class::Tab => c == '\t',
            Class::NotNewline => c != '\n',
            Class::Word => ('a' <= c && c <= 'z') || ('A' <= c && c <= 'Z') || c == '_' || ('0' <= c
                && c <= '9'),
            Class::Digit(radix) => to_digit(c) < *radix,
        }
    }
}

/// Whether an identifier can start with `c`.
pub open spec fn is_word_start(c: char) -> bool {
    ('a' <= c && c <= 'z') || ('A' <= c && c <= 'Z') || c == '_'
}

/// One or more characters of the class.
pub open spec fn is_repeated(class: Class, w: Seq<char>) -> bool {
    w.len() > 0 && class.has_all(w)
}

pub open spec fn is_comment(w: Seq<char>) -> bool {
    w.len() > 0 && w[0] == '#' && Class::NotNewline.has_all(w)
}

/// A line break behind a backslash.
pub open spec fn is_escaped_newline(w: Seq<char>) -> bool {
    w == seq!['\\', '\n'] || w == seq!['\\', '\r', '\n']
}

pub open spec fn is_newline(w: Seq<char>) -> bool {
    w == seq!['\n'] || w == seq!['\r', '\n']
}

/// The quote `q`, which may have an `r` before it.
pub open spec fn is_quote(q: char, w: Seq<char>) -> bool {
    w == seq![q] || w == seq!['r', q]
}

pub open spec fn is_identifier(w: Seq<char>) -> bool {
    w.len() > 0 && is_word_start(w[0]) && Class::Word.has_all(w)
}

/// `0`, one of two letters, and digits.
pub open spec fn is_prefixed(w: Seq<char>, lower: char, upper: char, radix: u32) -> bool {
    w.len() > 2 && w[0] == '0' && (w[1] == lower || w[1] == upper) && Class::Digit(radix).has_all(
        w.skip(2),
    )
}

/// The keywords that have no meaning yet.
pub open spec fn is_reserved(w: Seq<char>) -> bool {
    ||| w == "as"@
    ||| w == "import"@
    ||| w == "is"@
    ||| w == "class"@
    ||| w == "nonlocal"@
    ||| w == "del"@
    ||| w == "raise"@
    ||| w == "except"@
    ||| w == "try"@
    ||| w == "finally"@
    ||| w == "while"@
    ||| w == "from"@
    ||| w == "with"@
    ||| w == "global"@
    ||| w == "yield"@
}

/// The token of a keyword.
pub open spec fn keyword(w: Seq<char>) -> Option<Token> {
    if w == "and"@ {
        Some(Token::And)
    } else if w == "else"@ {
        Some(Token::Else)
    } else if w == "load"@ {
        Some(Token::Load)
    } else if w == "break"@ {
        Some(Token::Break)
    } else if w == "for"@ {
        Some(Token::For)
    } else if w == "not"@ {
        Some(Token::Not)
    } else if w == "continue"@ {
        Some(Token::Continue)
    } else if w == "if"@ {
        Some(Token::If)
    } else if w == "or"@ {
        Some(Token::Or)
    } else if w == "def"@ {
        Some(Token::Def)
    } else if w == "in"@ {
        Some(Token::In)
    } else if w == "pass"@ {
        Some(Token::Pass)
    } else if w == "elif"@ {
        Some(Token::Elif)
    } else if w == "return"@ {
        Some(Token::Return)
    } else if w == "lambda"@ {
        Some(Token::Lambda)
    } else {
        None
    }
}

/// The token of a symbol of one character.
pub open spec fn single(a: char) -> Option<Token> {
    match a {
        ',' => Some(Token::Comma),
        ';' => Some(Token::Semicolon),
        ':' => Some(Token::Colon),
        '=' => Some(Token::Equal),
        '<' => Some(Token::LessThan),
        '>' => Some(Token::GreaterThan),
        '-' => Some(Token::Minus),
        '+' => Some(Token::Plus),
        '*' => Some(Token::Star),
        '%' => Some(Token::Percent),
        '/' => Some(Token::Slash),
        '.' => Some(Token::Dot),
        '|' => Some(Token::Pipe),
        '[' => Some(Token::OpeningSquare),
        '{' => Some(Token::OpeningCurly),
        '(' => Some(Token::OpeningRound),
        ']' => Some(Token::ClosingSquare),
        '}' => Some(Token::ClosingCurly),
        ')' => Some(Token::ClosingRound),
        _ => None,
    }
}

/// The token of a symbol of two characters.
pub open spec fn pair(a: char, b: char) -> Option<Token> {
    match (a, b) {
        ('+', '=') => Some(Token::PlusEqual),
        ('-', '=') => Some(Token::MinusEqual),
        ('*', '=') => Some(Token::StarEqual),
        ('/', '=') => Some(Token::SlashEqual),
        ('%', '=') => Some(Token::PercentEqual),
        ('=', '=') => Some(Token::EqualEqual),
        ('!', '=') => Some(Token::BangEqual),
        ('<', '=') => Some(Token::LessEqual),
        ('>', '=') => Some(Token::GreaterEqual),
        ('*', '*') => Some(Token::StarStar),
        ('-', '>') => Some(Token::RightArrow),
        ('/', '/') => Some(Token::SlashSlash),
        _ => None,
    }
}

/// The token of a symbol.
pub open spec fn symbol(w: Seq<char>) -> Option<Token> {
    if w.len() == 1 {
        single(w[0])
    } else if w.len() == 2 {
        pair(w[0], w[1])
    } else if w == seq!['/', '/', '='] {
        Some(Token::SlashSlashEqual)
    } else {
        None
    }
}

/// The token of a number. One that does not fit is an error.
pub open spec fn integer(value: Option<i32>) -> TokenView {
    match value {
        Some(v) => TokenView::Plain(Token::IntegerLiteral(v)),
        None => TokenView::Plain(Token::Error),
    }
}

/// The value of a number without a prefix, which must not start with a zero that it could do
/// without.
pub open spec fn decimal_value(w: Seq<char>) -> Option<i32> {
    if w.len() > 1 && w[0] == '0' {
        None
    } else {
        number::digits_to_i32(w, 10)
    }
}

/// What a piece of text is.
#[verifier::ext_equal]
pub enum PieceView {
    /// Nothing that counts: spaces, a comment, or a line break that a backslash hides.
    Blank,
    Token(TokenView),
}

/// What all of `w` is, as one piece.
pub open spec fn meaning(w: Seq<char>) -> Option<PieceView> {
    if is_repeated(Class::Space, w) || is_escaped_newline(w) || is_comment(w) {
        Some(PieceView::Blank)
    } else if is_repeated(Class::Tab, w) {
        Some(PieceView::Token(TokenView::Plain(Token::Tabs)))
    } else if is_newline(w) {
        Some(PieceView::Token(TokenView::Plain(Token::Newline)))
    } else if is_quote('\'', w) {
        Some(PieceView::Token(TokenView::Plain(Token::RawSingleQuote)))
    } else if is_quote('"', w) {
        Some(PieceView::Token(TokenView::Plain(Token::RawDoubleQuote)))
    } else if is_reserved(w) {
        Some(PieceView::Token(TokenView::Reserved(w)))
    } else if keyword(w) is Some {
        Some(PieceView::Token(TokenView::Plain(keyword(w)->Some_0)))
    } else if is_identifier(w) {
        Some(PieceView::Token(TokenView::Identifier(w)))
    } else if is_repeated(Class::Digit(10), w) {
        Some(PieceView::Token(integer(decimal_value(w))))
    } else if is_prefixed(w, 'x', 'X', 16) {
        Some(PieceView::Token(integer(number::digits_to_i32(w.skip(2), 16))))
    } else if is_prefixed(w, 'b', 'B', 2) {
        Some(PieceView::Token(integer(number::digits_to_i32(w.skip(2), 2))))
    } else if is_prefixed(w, 'o', 'O', 8) {
        Some(PieceView::Token(integer(number::digits_to_i32(w.skip(2), 8))))
    } else if symbol(w) is Some {
        Some(PieceView::Token(TokenView::Plain(symbol(w)->Some_0)))
    } else {
        None
    }
}

/// The length of the longest prefix of `s`, of at most `n` characters, that is a piece.
pub open spec fn longest_piece(s: Seq<char>, n: nat) -> nat
    decreases n,
{
    if n == 0 || meaning(s.take(n as int)) is Some {
        n
    } else {
        longest_piece(s, (n - 1) as nat)
    }
}

/// The length of the piece that `s` starts with: the longest there is. Where there is none, the
/// first character is an error.
pub open spec fn piece_len(s: Seq<char>) -> nat {
    let n = longest_piece(s, s.len());
    if n == 0 {
        1
    } else {
        n
    }
}

/// The piece that `s` starts with.
pub open spec fn piece(s: Seq<char>) -> PieceView {
    let n = longest_piece(s, s.len());
    if n == 0 {
        PieceView::Token(TokenView::Plain(Token::Error))
    } else {
        meaning(s.take(n as int))->Some_0
    }
}

/// Where the lexer stands after it has looked for a token: the token, where it starts and ends,
/// and the text behind it.
#[verifier::ext_equal]
pub struct RawStep {
    pub token: Option<TokenView>,
    pub start: nat,
    pub end: nat,
    pub rest: Seq<char>,
}

/// The first token of `s`, which starts at byte `pos`. There is none where `s` is blank.
pub open spec fn raw_next(s: Seq<char>, pos: nat) -> RawStep
    decreases s.len(),
{
    if s.len() == 0 {
        RawStep { token: None, start: pos, end: pos, rest: s }
    } else {
        let n = piece_len(s);
        let end = pos + text::utf8_len(s.take(n as int));
        proof {
            lemma_longest_piece(s, s.len());
        }
        match piece(s) {
            PieceView::Blank => raw_next(s.skip(n as int), end),
            PieceView::Token(t) => RawStep {
                token: Some(t),
                start: pos,
                end,
                rest: s.skip(n as int),
            },
        }
    }
}

pub proof fn lemma_longest_piece(s: Seq<char>, n: nat)
    ensures
        longest_piece(s, n) <= n,
        longest_piece(s, n) > 0 ==> meaning(s.take(longest_piece(s, n) as int)) is Some,
        forall|m: int|
            longest_piece(s, n) < m <= n ==> #[trigger] meaning(s.take(m)) is None,
    decreases n,
{
    if n == 0 || meaning(s.take(n as int)) is Some {
    } else {
        lemma_longest_piece(s, (n - 1) as nat);
    }
}

/// A prefix that is a piece, and that no longer prefix is one, is the longest.
pub proof fn lemma_is_longest(s: Seq<char>, n: int)
    requires
        0 <= n <= s.len(),
        n > 0 ==> meaning(s.take(n)) is Some,
        forall|m: int| n < m <= s.len() ==> #[trigger] meaning(s.take(m)) is None,
    ensures
        longest_piece(s, s.len()) == n,
{
    lemma_longest_piece(s, s.len());
}

/// What [`Class::run`] counts.
pub proof fn lemma_run(class: Class, s: Seq<char>)
    ensures
        class.run(s) <= s.len(),
        class.has_all(s.take(class.run(s) as int)),
        class.run(s) < s.len() ==> !class.has(s[class.run(s) as int]),
        forall|m: int| class.run(s) < m <= s.len() ==> !class.has_all(#[trigger] s.take(m)),
    decreases s.len(),
{
    let n = class.run(s) as int;
    if s.len() > 0 && class.has(s[0]) {
        let t = s.drop_first();
        lemma_run(class, t);
        assert forall|i: int| 0 <= i < n implies class.has(#[trigger] s.take(n)[i]) by {
            if i > 0 {
                assert(t.take(n - 1)[i - 1] == s[i]);
            }
        }
    }
    assert forall|m: int| n < m <= s.len() implies !class.has_all(#[trigger] s.take(m)) by {
        assert(s.take(m)[n] == s[n]);
    }
}

/// A keyword could be an identifier.
pub proof fn lemma_keyword_is_identifier(w: Seq<char>)
    requires
        is_reserved(w) || keyword(w) is Some,
    ensures
        is_identifier(w),
{
    reveal_strlit("as");
    reveal_strlit("import");
    reveal_strlit("is");
    reveal_strlit("class");
    reveal_strlit("nonlocal");
    reveal_strlit("del");
    reveal_strlit("raise");
    reveal_strlit("except");
    reveal_strlit("try");
    reveal_strlit("finally");
    reveal_strlit("while");
    reveal_strlit("from");
    reveal_strlit("with");
    reveal_strlit("global");
    reveal_strlit("yield");
    reveal_strlit("and");
    reveal_strlit("else");
    reveal_strlit("load");
    reveal_strlit("break");
    reveal_strlit("for");
    reveal_strlit("not");
    reveal_strlit("continue");
    reveal_strlit("if");
    reveal_strlit("or");
    reveal_strlit("def");
    reveal_strlit("in");
    reveal_strlit("pass");
    reveal_strlit("elif");
    reveal_strlit("return");
    reveal_strlit("lambda");
}

/// No identifier is a quote.
pub proof fn lemma_not_quote(w: Seq<char>)
    requires
        is_identifier(w),
    ensures
        !is_quote('\'', w),
        !is_quote('"', w),
{
    if w.len() == 2 {
        assert(Class::Word.has(w[1]));
    }
}

/// How far a piece goes that starts like a word.
pub proof fn lemma_word_ends(s: Seq<char>)
    requires
        s.len() > 0,
        is_word_start(s[0]),
    ensures
        Class::Word.run(s) >= 1,
        forall|m: int|
            0 < m <= s.len() && #[trigger] meaning(s.take(m)) is Some ==> {
                ||| m <= Class::Word.run(s)
                ||| m == 2 && s[0] == 'r' && (s[1] == '\'' || s[1] == '"')
            },
{
    lemma_run(Class::Word, s);
    assert forall|m: int| 0 < m <= s.len() && #[trigger] meaning(s.take(m)) is Some implies {
        ||| m <= Class::Word.run(s)
        ||| m == 2 && s[0] == 'r' && (s[1] == '\'' || s[1] == '"')
    } by {
        let w = s.take(m);
        lemma_head(w);
        if is_quote('\'', w) || is_quote('"', w) {
            assert(w[0] == s[0]);
            assert(w[m - 1] == s[m - 1]);
        }
    }
}

/// The token for the quote that opens a string literal.
pub open spec fn quote_token(quote: char) -> Token {
    if quote == '"' {
        Token::RawDoubleQuote
    } else {
        Token::RawSingleQuote
    }
}

/// A quote with an `r` before it is one piece.
pub proof fn lemma_raw_quote(s: Seq<char>)
    requires
        s.len() >= 2,
        s[0] == 'r',
        s[1] == '\'' || s[1] == '"',
    ensures
        piece_len(s) == 2,
        piece(s) == PieceView::Token(TokenView::Plain(quote_token(s[1]))),
{
    let w = s.take(2);
    assert(w =~= seq!['r', s[1]]);
    assert(!Class::Word.has(s[1]));
    reveal_with_fuel(Class::run, 2);
    lemma_word_ends(s);
    assert(w[0] == 'r' && w[1] == s[1]);
    assert(!Class::Space.has(w[0]));
    assert(!Class::Tab.has(w[0]));
    assert(seq!['r', '"'][1] != seq!['r', '\''][1]);
    lemma_is_longest(s, 2);
}

/// A quote is one piece.
pub proof fn lemma_quote(s: Seq<char>)
    requires
        s.len() >= 1,
        s[0] == '\'' || s[0] == '"',
    ensures
        piece_len(s) == 1,
        piece(s) == PieceView::Token(TokenView::Plain(quote_token(s[0]))),
{
    let w = s.take(1);
    assert(w =~= seq![s[0]]);
    assert(w[0] == s[0]);
    assert(!Class::Space.has(w[0]) && !Class::Tab.has(w[0]));
    assert(seq!['"'][0] != seq!['\''][0]);
    assert forall|m: int| 1 < m <= s.len() implies #[trigger] meaning(s.take(m)) is None by {
        if meaning(s.take(m)) is Some {
            lemma_head(s.take(m));
        }
    }
    lemma_is_longest(s, 1);
}

/// Takes the characters of the class that come next off `it`.
pub(crate) fn skip_run(it: &mut EnumeratedChars<'_>, class: Class)
    requires
        old(it).wf(),
    ensures
        final(it).wf(),
        ({
            let n = class.run(old(it).rest()) as int;
            &&& final(it).rest() == old(it).rest().skip(n)
            &&& final(it).offset() == old(it).offset() + text::utf8_len(old(it).rest().take(n))
        }),
{
    let start: usize = it.pos();
    let ghost all = it.rest();
    let ghost run = class.run(all) as int;
    let ghost mut n: int = 0;
    proof {
        lemma_run(class, all);
        assert(all.skip(0) =~= all);
        assert(all.take(0) =~= Seq::<char>::empty());
    }
    let mut more: bool = match it.peek() {
        Some(c) => class.test(c),
        None => false,
    };
    while more
        invariant
            it.wf(),
            0 <= n <= run <= all.len(),
            it.rest() == all.skip(n),
            run == n + class.run(all.skip(n)),
            it.offset() == start + text::utf8_len(all.take(n)),
            more == (all.skip(n).len() > 0 && class.has(all.skip(n)[0])),
        decreases run - n,
    {
        let step = it.next();
        proof {
            assert(all.skip(n).drop_first() =~= all.skip(n + 1));
            assert(all.take(n + 1) =~= all.take(n).push(all[n]));
            text::lemma_utf8_len_push(all.take(n), all[n]);
            n = n + 1;
        }
        more = match it.peek() {
            Some(c) => class.test(c),
            None => false,
        };
    }
}

/// Splits off the characters of the class that `s` starts with.
fn split_run<'a>(s: &'a str, class: Class) -> (parts: (&'a str, &'a str))
    ensures
        parts.0@ == s@.take(class.run(s@) as int),
        parts.1@ == s@.skip(class.run(s@) as int),
{
    let mut it = enumerate_chars(s);
    skip_run(&mut it, class);
    proof {
        lemma_run(class, s@);
    }
    split_chars(s, it.pos(), Ghost(class.run(s@) as int))
}

/// A piece of text.
pub enum Piece {
    Blank,
    Token(Token),
}

impl View for Piece {
    type V = PieceView;

    open spec fn view(&self) -> PieceView {
        match self {
            Piece::Blank => PieceView::Blank,
            Piece::Token(token) => PieceView::Token(token@),
        }
    }
}

/// The token of a word that could be an identifier.
fn word_token(w: &str) -> (token: Token)
    requires
        is_identifier(w@),
    ensures
        meaning(w@) == Some(PieceView::Token(token@)),
{
    proof {
        lemma_not_quote(w@);
    }
    if str_eq(w, "as")
        || str_eq(w, "import")
        || str_eq(w, "is")
        || str_eq(w, "class")
        || str_eq(w, "nonlocal")
        || str_eq(w, "del")
        || str_eq(w, "raise")
        || str_eq(w, "except")
        || str_eq(w, "try")
        || str_eq(w, "finally")
        || str_eq(w, "while")
        || str_eq(w, "from")
        || str_eq(w, "with")
        || str_eq(w, "global")
        || str_eq(w, "yield")
    {
        Token::Reserved(w.to_owned())
    } else if str_eq(w, "and") {
        Token::And
    } else if str_eq(w, "else") {
        Token::Else
    } else if str_eq(w, "load") {
        Token::Load
    } else if str_eq(w, "break") {
        Token::Break
    } else if str_eq(w, "for") {
        Token::For
    } else if str_eq(w, "not") {
        Token::Not
    } else if str_eq(w, "continue") {
        Token::Continue
    } else if str_eq(w, "if") {
        Token::If
    } else if str_eq(w, "or") {
        Token::Or
    } else if str_eq(w, "def") {
        Token::Def
    } else if str_eq(w, "in") {
        Token::In
    } else if str_eq(w, "pass") {
        Token::Pass
    } else if str_eq(w, "elif") {
        Token::Elif
    } else if str_eq(w, "return") {
        Token::Return
    } else if str_eq(w, "lambda") {
        Token::Lambda
    } else {
        Token::Identifier(w.to_owned())
    }
}

/// The token of a symbol of one character.
fn single_token(a: char) -> (token: Option<Token>)
    ensures
        token == single(a),
{
    match a {
        ',' => Some(Token::Comma),
        ';' => Some(Token::Semicolon),
        ':' => Some(Token::Colon),
        '=' => Some(Token::Equal),
        '<' => Some(Token::LessThan),
        '>' => Some(Token::GreaterThan),
        '-' => Some(Token::Minus),
        '+' => Some(Token::Plus),
        '*' => Some(Token::Star),
        '%' => Some(Token::Percent),
        '/' => Some(Token::Slash),
        '.' => Some(Token::Dot),
        '|' => Some(Token::Pipe),
        '[' => Some(Token::OpeningSquare),
        '{' => Some(Token::OpeningCurly),
        '(' => Some(Token::OpeningRound),
        ']' => Some(Token::ClosingSquare),
        '}' => Some(Token::ClosingCurly),
        ')' => Some(Token::ClosingRound),
        _ => None,
    }
}

/// The token of a symbol of two characters.
fn pair_token(a: char, b: char) -> (token: Option<Token>)
    ensures
        token == pair(a, b),
{
    match (a, b) {
        ('+', '=') => Some(Token::PlusEqual),
        ('-', '=') => Some(Token::MinusEqual),
        ('*', '=') => Some(Token::StarEqual),
        ('/', '=') => Some(Token::SlashEqual),
        ('%', '=') => Some(Token::PercentEqual),
        ('=', '=') => Some(Token::EqualEqual),
        ('!', '=') => Some(Token::BangEqual),
        ('<', '=') => Some(Token::LessEqual),
        ('>', '=') => Some(Token::GreaterEqual),
        ('*', '*') => Some(Token::StarStar),
        ('-', '>') => Some(Token::RightArrow),
        ('/', '/') => Some(Token::SlashSlash),
        _ => None,
    }
}

/// The token of a number.
fn integer_token(value: Option<i32>) -> (token: Token)
    ensures
        token@ == integer(value),
{
    match value {
        Some(v) => Token::IntegerLiteral(v),
        None => Token::Error,
    }
}

/// The first character of a piece tells what kind of piece it is.
pub proof fn lemma_head(w: Seq<char>)
    requires
        meaning(w) is Some,
    ensures
        w.len() > 0,
        w[0] == ' ' ==> is_repeated(Class::Space, w),
        w[0] == '\\' ==> is_escaped_newline(w),
        w[0] == '#' ==> is_comment(w),
        w[0] == '\t' ==> is_repeated(Class::Tab, w),
        w[0] == '\n' || w[0] == '\r' ==> is_newline(w),
        w[0] == '\'' ==> w.len() == 1,
        w[0] == '"' ==> w.len() == 1,
        is_word_start(w[0]) ==> is_identifier(w) || is_quote('\'', w) || is_quote('"', w),
        '0' <= w[0] && w[0] <= '9' ==> {
            ||| is_repeated(Class::Digit(10), w)
            ||| is_prefixed(w, 'x', 'X', 16)
            ||| is_prefixed(w, 'b', 'B', 2)
            ||| is_prefixed(w, 'o', 'O', 8)
        },
{
    if is_reserved(w) || keyword(w) is Some {
        lemma_keyword_is_identifier(w);
    }
    if w.len() > 0 {
        assert(Class::Space.has_all(w) ==> Class::Space.has(w[0]));
        assert(Class::Tab.has_all(w) ==> Class::Tab.has(w[0]));
        assert(Class::Digit(10).has_all(w) ==> Class::Digit(10).has(w[0]));
    }
}

/// A piece that starts with none of the characters that [`lemma_head`] speaks of is a symbol.
pub proof fn lemma_symbol_head(w: Seq<char>)
    requires
        meaning(w) is Some,
        symbol(w) is None,
    ensures
        ({
            ||| w[0] == ' '
            ||| w[0] == '\\'
            ||| w[0] == '#'
            ||| w[0] == '\t'
            ||| w[0] == '\n'
            ||| w[0] == '\r'
            ||| w[0] == '\''
            ||| w[0] == '"'
            ||| is_word_start(w[0])
            ||| '0' <= w[0] && w[0] <= '9'
        }),
{
    if is_reserved(w) || keyword(w) is Some {
        lemma_keyword_is_identifier(w);
    }
    if w.len() > 0 {
        assert(Class::Space.has_all(w) ==> Class::Space.has(w[0]));
        assert(Class::Tab.has_all(w) ==> Class::Tab.has(w[0]));
        assert(Class::Digit(10).has_all(w) ==> Class::Digit(10).has(w[0]));
    }
}

/// A piece with the number of bytes that it takes, and the text behind it.
pub struct Found<'a> {
    pub piece: Piece,
    pub size: usize,
    pub rest: &'a str,
}

impl<'a> Found<'a> {
    /// Whether this is the piece that `s` starts with.
    pub open spec fn leads(self, s: Seq<char>) -> bool {
        &&& self.piece@ == piece(s)
        &&& self.size == text::utf8_len(s.take(piece_len(s) as int))
        &&& self.rest@ == s.skip(piece_len(s) as int)
    }
}

/// Splits off a piece that consists of characters of one class.
fn find_run<'a>(s: &'a str, class: Class, piece: Piece) -> (r: Found<'a>)
    requires
        s@.len() > 0,
        class.has(s@[0]),
        Some(piece@) == meaning(s@.take(class.run(s@) as int)),
        forall|m: int|
            0 < m <= s@.len() && #[trigger] meaning(s@.take(m)) is Some ==> class.has_all(s@.take(m)),
    ensures
        r.leads(s@),
{
    let (word, rest) = split_run(s, class);
    proof {
        lemma_run(class, s@);
        lemma_is_longest(s@, class.run(s@) as int);
    }
    Found { piece, size: str_len(word), rest }
}

/// Splits off a word, or the start of a raw string literal.
fn find_word<'a>(s: &'a str) -> (r: Found<'a>)
    requires
        s@.len() > 0,
        is_word_start(s@[0]),
    ensures
        r.leads(s@),
{
    let mut it = enumerate_chars(s);
    let head = it.next();
    let second = it.peek();
    let end = it.next();
    proof {
        lemma_word_ends(s@);
    }
    let raw = match (head, second) {
        (Some((_, 'r')), Some('\'')) => Some(Token::RawSingleQuote),
        (Some((_, 'r')), Some('"')) => Some(Token::RawDoubleQuote),
        _ => None,
    };
    match raw {
        Some(token) => {
            proof {
                text::lemma_step(s@, 0);
                text::lemma_step(s@, 1);
                lemma_raw_quote(s@);
            }
            Found { piece: Piece::Token(token), size: it.pos(), rest: it.as_str() }
        },
        None => {
            let (word, rest) = split_run(s, Class::Word);
            proof {
                lemma_run(Class::Word, s@);
                assert(is_identifier(word@));
            }
            let token = word_token(word);
            proof {
                lemma_is_longest(s@, word@.len() as int);
            }
            Found { piece: Piece::Token(token), size: str_len(word), rest }
        },
    }
}

/// The radix that a letter behind a `0` stands for. It is 10 where it stands for none.
fn prefix_radix(letter: char) -> (radix: u32)
    ensures
        radix == 16 <==> letter == 'x' || letter == 'X',
        radix == 2 <==> letter == 'b' || letter == 'B',
        radix == 8 <==> letter == 'o' || letter == 'O',
        radix == 16 || radix == 2 || radix == 8 || radix == 10,
{
    match letter {
        'x' | 'X' => 16,
        'b' | 'B' => 2,
        'o' | 'O' => 8,
        _ => 10,
    }
}

/// Which number `s` starts with, where its second character is the letter for `radix`.
pub proof fn lemma_prefixed_number(s: Seq<char>, radix: u32)
    requires
        s.len() >= 2,
        s[0] == '0',
        radix == 16 <==> s[1] == 'x' || s[1] == 'X',
        radix == 2 <==> s[1] == 'b' || s[1] == 'B',
        radix == 8 <==> s[1] == 'o' || s[1] == 'O',
        radix == 16 || radix == 2 || radix == 8,
    ensures
        ({
            let n = Class::Digit(radix).run(s.skip(2));
            &&& n > 0 ==> longest_piece(s, s.len()) == 2 + n && meaning(s.take(2 + n as int))
                == Some(
                PieceView::Token(
                    integer(number::digits_to_i32(s.skip(2).take(n as int), radix as nat)),
                ),
            )
            &&& n == 0 ==> longest_piece(s, s.len()) == 1 && meaning(s.take(1)) == Some(
                PieceView::Token(integer(number::digits_to_i32(s.take(1), 10))),
            )
        }),
{
    let t = s.skip(2);
    let class = Class::Digit(radix);
    let n = class.run(t) as int;
    lemma_run(class, t);
    assert forall|m: int| 1 < m <= s.len() && #[trigger] meaning(s.take(m)) is Some implies 2 < m
        <= 2 + n by {
        let w = s.take(m);
        lemma_head(w);
        assert(w[0] == s[0]);
        assert(w[1] == s[1]);
        assert(!Class::Digit(10).has(w[1]));
        assert(w.skip(2) =~= t.take(m - 2));
    }
    if n > 0 {
        let w = s.take(2 + n);
        assert(w[0] == s[0]);
        assert(w[1] == s[1]);
        assert(w.skip(2) =~= t.take(n));
        assert(!Class::Space.has(w[0]) && !Class::Tab.has(w[0]));
        assert(!is_identifier(w));
        if is_reserved(w) || keyword(w) is Some {
            lemma_keyword_is_identifier(w);
        }
        assert(!Class::Digit(10).has(w[1]));
        lemma_is_longest(s, 2 + n);
    } else {
        lemma_decimal(s.take(1));
        lemma_is_longest(s, 1);
    }
}

/// Digits are a number.
pub proof fn lemma_decimal(w: Seq<char>)
    requires
        is_repeated(Class::Digit(10), w),
    ensures
        meaning(w) == Some(PieceView::Token(integer(decimal_value(w)))),
{
    assert(Class::Digit(10).has(w[0]));
    assert(!Class::Space.has(w[0]) && !Class::Tab.has(w[0]));
    if is_reserved(w) || keyword(w) is Some {
        lemma_keyword_is_identifier(w);
    }
}

/// Splits off a number without a prefix.
fn find_decimal<'a>(s: &'a str) -> (r: Found<'a>)
    requires
        s@.len() > 0,
        Class::Digit(10).has(s@[0]),
        forall|m: int|
            0 < m <= s@.len() && #[trigger] meaning(s@.take(m)) is Some ==> Class::Digit(
                10,
            ).has_all(s@.take(m)),
    ensures
        r.leads(s@),
{
    let (word, rest) = split_run(s, Class::Digit(10));
    let mut it = enumerate_chars(s);
    let first = it.next();
    let second = it.peek();
    proof {
        reveal_with_fuel(Class::run, 2);
        lemma_run(Class::Digit(10), s@);
        lemma_decimal(word@);
        lemma_is_longest(s@, word@.len() as int);
    }
    let padded = match (first, second) {
        (Some((_, '0')), Some(c)) => Class::Digit(10).test(c),
        _ => false,
    };
    assert(padded == (word@.len() > 1 && word@[0] == '0'));
    let value = if padded {
        None
    } else {
        parse_i32(word, 10)
    };
    Found { piece: Piece::Token(integer_token(value)), size: str_len(word), rest }
}

/// Splits off a number.
fn find_number<'a>(s: &'a str) -> (r: Found<'a>)
    requires
        s@.len() > 0,
        '0' <= s@[0] && s@[0] <= '9',
    ensures
        r.leads(s@),
{
    let mut it = enumerate_chars(s);
    let first = it.next();
    let second = it.next();
    let radix: u32 = match (first, second) {
        (Some((_, '0')), Some((_, letter))) => prefix_radix(letter),
        _ => 10,
    };
    if radix != 10 {
        let (digits, rest) = split_run(it.as_str(), Class::Digit(radix));
        proof {
            text::lemma_step(s@, 0);
            text::lemma_step(s@, 1);
            lemma_prefixed_number(s@, radix);
            lemma_run(Class::Digit(radix), s@.skip(2));
            let n = digits@.len() as int;
            text::lemma_utf8_len_concat(s@.take(2), digits@);
            assert(s@.take(2 + n) =~= s@.take(2) + digits@);
            assert(s@.skip(2).skip(n) =~= s@.skip(2 + n));
            text::lemma_utf8_len_split(s@, 2 + n);
        }
        if !digits.is_empty() {
            let value = parse_i32(digits, radix);
            return Found {
                piece: Piece::Token(integer_token(value)),
                size: it.pos() + str_len(digits),
                rest,
            };
        }
        let (zero, rest) = split_chars(s, 1, Ghost(1int));
        proof {
            assert(number::all_digits(zero@, 10));
        }
        let value = parse_i32(zero, 10);
        return Found { piece: Piece::Token(integer_token(value)), size: 1, rest };
    }
    proof {
        assert forall|m: int| 0 < m <= s@.len() && #[trigger] meaning(
            s@.take(m),
        ) is Some implies Class::Digit(10).has_all(s@.take(m)) by {
            lemma_head(s@.take(m));
        }
    }
    find_decimal(s)
}

/// Splits off a symbol, or a character that is no piece.
fn find_symbol<'a>(s: &'a str) -> (r: Found<'a>)
    requires
        s@.len() > 0,
        forall|m: int|
            0 < m <= s@.len() && #[trigger] meaning(s@.take(m)) is Some ==> symbol(s@.take(m)) is Some,
        forall|m: int|
            0 < m <= s@.len() && symbol(#[trigger] s@.take(m)) is Some ==> meaning(s@.take(m))
                == Some(PieceView::Token(TokenView::Plain(symbol(s@.take(m))->Some_0))),
    ensures
        r.leads(s@),
{
    let mut it = enumerate_chars(s);
    let first = it.next();
    let one = it;
    let second = it.next();
    let two = it;
    let third = it.next();
    proof {
        text::lemma_step(s@, 0);
        if s@.len() > 1 {
            text::lemma_step(s@, 1);
        }
        if s@.len() > 2 {
            text::lemma_step(s@, 2);
            assert(s@.take(3) =~= seq![s@[0], s@[1], s@[2]]);
        }
        assert forall|m: int| 3 < m <= s@.len() implies #[trigger] meaning(s@.take(m)) is None by {
            assert(s@.take(m).len() == m);
        }
    }
    if let (Some((_, '/')), Some((_, '/')), Some((_, '='))) = (first, second, third) {
        proof {
            assert(symbol(s@.take(3)) is Some);
            lemma_is_longest(s@, 3);
        }
        return Found {
            piece: Piece::Token(Token::SlashSlashEqual),
            size: it.pos(),
            rest: it.as_str(),
        };
    }
    assert(s@.len() > 2 ==> symbol(s@.take(3)) is None);
    if let (Some((_, a)), Some((_, b))) = (first, second) {
        assert(symbol(s@.take(2)) == pair(a, b));
        if let Some(token) = pair_token(a, b) {
            proof {
                lemma_is_longest(s@, 2);
            }
            return Found { piece: Piece::Token(token), size: two.pos(), rest: two.as_str() };
        }
    }
    assert(s@.len() > 1 ==> symbol(s@.take(2)) is None);
    let token = match first {
        Some((_, a)) => single_token(a),
        None => None,
    };
    assert(symbol(s@.take(1)) == token);
    match token {
        Some(token) => {
            proof {
                lemma_is_longest(s@, 1);
            }
            Found { piece: Piece::Token(token), size: one.pos(), rest: one.as_str() }
        },
        None => {
            proof {
                lemma_is_longest(s@, 0);
            }
            Found { piece: Piece::Token(Token::Error), size: one.pos(), rest: one.as_str() }
        },
    }
}

/// Splits off a line break.
fn find_newline<'a>(s: &'a str) -> (r: Found<'a>)
    requires
        s@.len() > 0,
        s@[0] == '\n' || s@[0] == '\r',
    ensures
        r.leads(s@),
{
    let mut it = enumerate_chars(s);
    let first = it.next();
    let one = it;
    let second = it.next();
    proof {
        text::lemma_step(s@, 0);
        if s@.len() > 1 {
            text::lemma_step(s@, 1);
        }
        assert forall|m: int| 0 < m <= s@.len() && #[trigger] meaning(s@.take(m)) is Some implies (m
            == 1 && s@[0] == '\n') || (m == 2 && s@[0] == '\r' && s@[1] == '\n') by {
            let w = s@.take(m);
            lemma_head(w);
            assert(w[0] == s@[0]);
            assert(w[m - 1] == s@[m - 1]);
        }
    }
    match (first, second) {
        (Some((_, '\n')), _) => {
            proof {
                assert(s@.take(1) =~= seq!['\n']);
                lemma_newline(s@.take(1));
                lemma_is_longest(s@, 1);
            }
            Found { piece: Piece::Token(Token::Newline), size: one.pos(), rest: one.as_str() }
        },
        (_, Some((_, '\n'))) => {
            proof {
                assert(s@.take(2) =~= seq!['\r', '\n']);
                lemma_newline(s@.take(2));
                lemma_is_longest(s@, 2);
            }
            Found { piece: Piece::Token(Token::Newline), size: it.pos(), rest: it.as_str() }
        },
        _ => {
            proof {
                lemma_is_longest(s@, 0);
            }
            Found { piece: Piece::Token(Token::Error), size: one.pos(), rest: one.as_str() }
        },
    }
}

pub proof fn lemma_newline(w: Seq<char>)
    requires
        is_newline(w),
    ensures
        meaning(w) == Some(PieceView::Token(TokenView::Plain(Token::Newline))),
{
    assert(w[0] == '\n' || w[0] == '\r');
    assert(!Class::Space.has(w[0]) && !Class::Tab.has(w[0]));
}

/// Splits off a line break that a backslash hides.
fn find_escaped_newline<'a>(s: &'a str) -> (r: Found<'a>)
    requires
        s@.len() > 0,
        s@[0] == '\\',
    ensures
        r.leads(s@),
{
    let mut it = enumerate_chars(s);
    let first = it.next();
    let one = it;
    let second = it.next();
    let two = it;
    let third = it.next();
    proof {
        text::lemma_step(s@, 0);
        if s@.len() > 1 {
            text::lemma_step(s@, 1);
        }
        if s@.len() > 2 {
            text::lemma_step(s@, 2);
        }
        assert forall|m: int| 0 < m <= s@.len() && #[trigger] meaning(s@.take(m)) is Some implies (m
            == 2 && s@[1] == '\n') || (m == 3 && s@[1] == '\r' && s@[2] == '\n') by {
            let w = s@.take(m);
            lemma_head(w);
            assert(w[1] == s@[1]);
            assert(w[m - 1] == s@[m - 1]);
        }
    }
    match (second, third) {
        (Some((_, '\n')), _) => {
            proof {
                assert(s@.take(2) =~= seq!['\\', '\n']);
                lemma_is_longest(s@, 2);
            }
            Found { piece: Piece::Blank, size: two.pos(), rest: two.as_str() }
        },
        (Some((_, '\r')), Some((_, '\n'))) => {
            proof {
                assert(s@.take(3) =~= seq!['\\', '\r', '\n']);
                lemma_is_longest(s@, 3);
            }
            Found { piece: Piece::Blank, size: it.pos(), rest: it.as_str() }
        },
        _ => {
            proof {
                lemma_is_longest(s@, 0);
            }
            Found { piece: Piece::Token(Token::Error), size: one.pos(), rest: one.as_str() }
        },
    }
}

/// Splits off a quote.
fn find_quote<'a>(s: &'a str) -> (r: Found<'a>)
    requires
        s@.len() > 0,
        s@[0] == '\'' || s@[0] == '"',
    ensures
        r.leads(s@),
{
    let mut it = enumerate_chars(s);
    let first = it.next();
    proof {
        text::lemma_step(s@, 0);
        lemma_quote(s@);
    }
    let token = match first {
        Some((_, '"')) => Token::RawDoubleQuote,
        _ => Token::RawSingleQuote,
    };
    Found { piece: Piece::Token(token), size: it.pos(), rest: it.as_str() }
}

/// Splits off the piece that `s` starts with.
pub fn next_piece<'a>(s: &'a str) -> (r: Found<'a>)
    requires
        s@.len() > 0,
    ensures
        r.leads(s@),
{
    let c = s.get_char(0);
    proof {
        lemma_run(Class::Space, s@);
        lemma_run(Class::Tab, s@);
        lemma_run(Class::NotNewline, s@);
        assert forall|m: int| 0 < m <= s@.len() implies (#[trigger] s@.take(m))[0] == s@[0] by {}
        assert forall|m: int| 0 < m <= s@.len() && #[trigger] meaning(s@.take(m)) is Some implies {
            &&& s@[0] == ' ' ==> Class::Space.has_all(s@.take(m))
            &&& s@[0] == '\t' ==> Class::Tab.has_all(s@.take(m))
            &&& s@[0] == '#' ==> Class::NotNewline.has_all(s@.take(m))
        } by {
            lemma_head(s@.take(m));
        }
    }
    match c {
        ' ' => find_run(s, Class::Space, Piece::Blank),
        '#' => find_run(s, Class::NotNewline, Piece::Blank),
        '\t' => {
            proof {
                let w = s@.take(Class::Tab.run(s@) as int);
                assert(!Class::Space.has(w[0]));
            }
            find_run(s, Class::Tab, Piece::Token(Token::Tabs))
        },
        '\n' | '\r' => find_newline(s),
        '\\' => find_escaped_newline(s),
        '\'' | '"' => find_quote(s),
        'a'..='z' | 'A'..='Z' | '_' => find_word(s),
        '0'..='9' => find_number(s),
        _ => {
            proof {
                assert forall|m: int| 0 < m <= s@.len() && #[trigger] meaning(
                    s@.take(m),
                ) is Some implies symbol(s@.take(m)) is Some by {
                    if symbol(s@.take(m)) is None {
                        lemma_symbol_head(s@.take(m));
                    }
                }
                assert forall|m: int| 0 < m <= s@.len() && symbol(
                    #[trigger] s@.take(m),
                ) is Some implies meaning(s@.take(m)) == Some(
                    PieceView::Token(TokenView::Plain(symbol(s@.take(m))->Some_0)),
                ) by {
                    lemma_symbol(s@.take(m));
                }
            }
            find_symbol(s)
        },
    }
}

/// A symbol is nothing else.
pub proof fn lemma_symbol(w: Seq<char>)
    requires
        symbol(w) is Some,
    ensures
        meaning(w) == Some(PieceView::Token(TokenView::Plain(symbol(w)->Some_0))),
{
    assert(w.len() > 0);
    assert(!Class::Space.has(w[0]) && !Class::Tab.has(w[0]));
    assert(!is_word_start(w[0]));
    if is_reserved(w) || keyword(w) is Some {
        lemma_keyword_is_identifier(w);
    }
    assert(!Class::Digit(10).has(w[0]));
}

/// A token, if there was one, where it starts and ends, and the text behind it.
pub struct RawToken<'a> {
    pub token: Option<Token>,
    pub start: usize,
    pub end: usize,
    pub rest: &'a str,
}

impl<'a> View for RawToken<'a> {
    type V = RawStep;

    open spec fn view(&self) -> RawStep {
        RawStep {
            token: match self.token {
                Some(token) => Some(token@),
                None => None,
            },
            start: self.start as nat,
            end: self.end as nat,
            rest: self.rest@,
        }
    }
}

/// Splits off the first token of `s`, which starts at byte `pos`, and what is blank before it.
pub fn next_token<'a>(s: &'a str, pos: usize) -> (r: RawToken<'a>)
    requires
        pos + text::utf8_len(s@) <= usize::MAX,
    ensures
        r@ == raw_next(s@, pos as nat),
{
    let mut rest = s;
    let mut here: usize = pos;
    while !rest.is_empty()
        invariant
            here + text::utf8_len(rest@) <= usize::MAX,
            raw_next(rest@, here as nat) == raw_next(s@, pos as nat),
        decreases rest@.len(),
    {
        let found = next_piece(rest);
        proof {
            lemma_longest_piece(rest@, rest@.len());
            text::lemma_utf8_len_split(rest@, piece_len(rest@) as int);
        }
        let end: usize = here + found.size;
        match found.piece {
            Piece::Blank => {
                rest = found.rest;
                here = end;
            },
            Piece::Token(token) => {
                return RawToken { token: Some(token), start: here, end, rest: found.rest };
            },
        }
    }
    RawToken { token: None, start: here, end: here, rest }
}

/// What [`raw_next`] leaves behind is the end of the text, and the token stands right before it.
pub proof fn lemma_raw_next(s: Seq<char>, pos: nat)
    ensures
        ({
            let r = raw_next(s, pos);
            &&& pos <= r.start <= r.end
            &&& r.end + text::utf8_len(r.rest) == pos + text::utf8_len(s)
            &&& r.rest.len() <= s.len()
            &&& r.rest == s.skip(s.len() - r.rest.len())
            &&& r.token is None ==> r.start == r.end && r.rest.len() == 0
            &&& r.token is Some ==> r.start < r.end && r.rest.len() < s.len()
        }),
    decreases s.len(),
{
    if s.len() > 0 {
        let n = piece_len(s) as int;
        lemma_longest_piece(s, s.len());
        text::lemma_utf8_len_split(s, n);
        text::lemma_utf8_len_at_least(s.take(n));
        lemma_raw_next(s.skip(n), pos + text::utf8_len(s.take(n)));
        let r = raw_next(s, pos);
        assert(r.rest =~= s.skip(s.len() - r.rest.len()));
    } else {
        assert(s.skip(0) =~= s);
    }
}

/// A quote that opens a string literal takes one byte, or two with an `r` before it.
pub proof fn lemma_quote_size(s: Seq<char>, pos: nat)
    ensures
        ({
            let r = raw_next(s, pos);
            (r.token == Some(TokenView::Plain(Token::RawSingleQuote)) || r.token == Some(
                TokenView::Plain(Token::RawDoubleQuote),
            )) ==> r.end == r.start + 1 || r.end == r.start + 2
        }),
    decreases s.len(),
{
    if s.len() > 0 {
        let n = piece_len(s) as int;
        lemma_longest_piece(s, s.len());
        lemma_quote_size(s.skip(n), pos + text::utf8_len(s.take(n)));
        let w = s.take(n);
        let size = text::utf8_len(w);
        if is_quote('\'', w) || is_quote('"', w) {
            text::lemma_step(w, 0);
            if w.len() == 2 {
                text::lemma_step(w, 1);
            }
            assert(w.take(w.len() as int) =~= w);
            assert(size == w.len());
        }
    }
}

/// No text is a token for the start or end of a block, nor a whole string literal.
pub proof fn lemma_raw_token(s: Seq<char>, pos: nat)
    ensures
        raw_next(s, pos).token matches Some(token) ==> {
            &&& token != TokenView::Plain(Token::Indent)
            &&& token != TokenView::Plain(Token::Dedent)
            &&& !(token is StringLiteral)
        },
    decreases s.len(),
{
    if s.len() > 0 {
        let n = piece_len(s) as int;
        lemma_longest_piece(s, s.len());
        lemma_raw_token(s.skip(n), pos + text::utf8_len(s.take(n)));
        lemma_meaning(s.take(n));
    }
}

proof fn lemma_meaning(w: Seq<char>)
    ensures
        meaning(w) matches Some(PieceView::Token(token)) ==> {
            &&& token != TokenView::Plain(Token::Indent)
            &&& token != TokenView::Plain(Token::Dedent)
            &&& !(token is StringLiteral)
        },
{
}

/// The longest piece wins: no longer start of the text is a piece. Where no start of it is one, its
/// first character is an error.
pub proof fn law_longest_piece_wins(s: Seq<char>)
    requires
        s.len() > 0,
    ensures
        1 <= piece_len(s) <= s.len(),
        forall|m: int| piece_len(s) < m <= s.len() ==> #[trigger] meaning(s.take(m)) is None,
        match meaning(s.take(piece_len(s) as int)) {
            Some(p) => piece(s) == p,
            None => piece_len(s) == 1 && piece(s) == PieceView::Token(
                TokenView::Plain(Token::Error),
            ),
        },
{
    lemma_longest_piece(s, s.len());
}

/// Without carriage returns a line break takes one byte.
pub proof fn lemma_newline_size(s: Seq<char>, pos: nat)
    requires
        !s.contains('\r'),
    ensures
        raw_next(s, pos).token == Some(TokenView::Plain(Token::Newline)) ==> raw_next(s, pos).end
            == raw_next(s, pos).start + 1,
    decreases s.len(),
{
    if s.len() > 0 {
        let n = piece_len(s) as int;
        lemma_longest_piece(s, s.len());
        let tail = s.skip(n);
        assert forall|i: int| 0 <= i < tail.len() implies tail[i] != '\r' by {
            assert(tail[i] == s[i + n]);
            assert(s.contains(s[i + n]));
        }
        lemma_newline_size(tail, pos + text::utf8_len(s.take(n)));
        let w = s.take(n);
        if meaning(w) == Some(PieceView::Token(TokenView::Plain(Token::Newline))) {
            lemma_helpers(w);
            assert(w[0] == s[0]);
            assert(s.contains(s[0]));
            text::lemma_step(w, 0);
            assert(w.take(1) =~= w);
        }
    }
}

/// The word that a token is read from: it starts at the index `i`, and stands right before what is
/// left behind.
pub proof fn lemma_raw_word(s: Seq<char>, pos: nat) -> (i: int)
    ensures
        ({
            let r = raw_next(s, pos);
            let j = s.len() - r.rest.len();
            &&& 0 <= i <= j <= s.len()
            &&& r.start == pos + text::utf8_len(s.take(i))
            &&& r.end == pos + text::utf8_len(s.take(j))
            &&& r.token matches Some(token) ==> {
                ||| meaning(s.subrange(i, j)) == Some(PieceView::Token(token))
                ||| token == TokenView::Plain(Token::Error)
            }
        }),
    decreases s.len(),
{
    lemma_raw_next(s, pos);
    let r = raw_next(s, pos);
    if s.len() == 0 {
        assert(s.take(0) =~= s);
        0
    } else {
        let n = piece_len(s) as int;
        lemma_longest_piece(s, s.len());
        let end = pos + text::utf8_len(s.take(n));
        match piece(s) {
            PieceView::Blank => {
                let tail = s.skip(n);
                let i = lemma_raw_word(tail, end);
                let j = tail.len() - r.rest.len();
                assert(s.take(n + i) =~= s.take(n) + tail.take(i));
                assert(s.take(n + j) =~= s.take(n) + tail.take(j));
                text::lemma_utf8_len_concat(s.take(n), tail.take(i));
                text::lemma_utf8_len_concat(s.take(n), tail.take(j));
                assert(s.subrange(n + i, n + j) =~= tail.subrange(i, j));
                n + i
            },
            PieceView::Token(_) => {
                assert(s.take(0) =~= Seq::<char>::empty());
                assert(s.subrange(0, n) =~= s.take(n));
                0
            },
        }
    }
}

/// Which words are line breaks and quotes.
pub proof fn lemma_helpers(w: Seq<char>)
    ensures
        meaning(w) == Some(PieceView::Token(TokenView::Plain(Token::Newline))) ==> is_newline(w),
        meaning(w) == Some(PieceView::Token(TokenView::Plain(Token::RawSingleQuote))) ==> w.len()
            > 0 && w.last() == '\'',
        meaning(w) == Some(PieceView::Token(TokenView::Plain(Token::RawDoubleQuote))) ==> w.len()
            > 0 && w.last() == '"',
{
}

} // verus!
