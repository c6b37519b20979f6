//! From tokens to text, and from that text back to the same tokens.

use crate::grammar;
use crate::grammar::Class;
use crate::grammar::PieceView;
use crate::grammar::RawStep;
use crate::laws;
use crate::number;
use crate::quoting;
use crate::state;
use crate::state::LexemeView;
use crate::state::LexerView;
use crate::text;
use crate::token;
use crate::token::Token;
use crate::token::TokenView;
use vstd::prelude::*;

verus! {

/// Whether the token stands for a piece of text, and only for one.
pub open spec fn has_source(token: TokenView) -> bool {
    match token {
        TokenView::Reserved(w) => grammar::is_reserved(w),
        TokenView::Identifier(w) => grammar::is_identifier(w) && !grammar::is_reserved(w)
            && grammar::keyword(w) is None,
        TokenView::Plain(Token::IntegerLiteral(i)) => i >= 0,
        TokenView::StringLiteral(_) => false,
        TokenView::Plain(Token::Reserved(_) | Token::Identifier(_) | Token::StringLiteral(_)) =>
            false,
        TokenView::Plain(Token::Indent | Token::Dedent) => false,
        TokenView::Plain(
            Token::Error | Token::Tabs | Token::RawSingleQuote | Token::RawDoubleQuote,
        ) => false,
        TokenView::Plain(_) => true,
    }
}

/// What stands between quotes.
proof fn lemma_unquoted(before: Seq<char>, w: Seq<char>)
    requires
        before.len() > 0,
        before.last() == '\'',
        forall|i: int| 0 <= i < before.len() - 1 ==> before[i] != '\'',
    ensures
        token::unquoted(before + w + seq!['\'']) == w,
{
    let s = before + w + seq!['\''];
    let i = before.len() - 1;
    assert(s[i] == '\'');
    assert(s.drop_last()[i] == '\'');
    token::lemma_first_index(s, i);
    assert(s.subrange(i + 1, s.len() - 1) =~= w);
}

/// The text of a keyword.
pub open spec fn keyword_text(t: Token) -> Seq<char> {
    match t {
        Token::And => "and"@,
        Token::Else => "else"@,
        Token::Load => "load"@,
        Token::Break => "break"@,
        Token::For => "for"@,
        Token::Not => "not"@,
        Token::Continue => "continue"@,
        Token::If => "if"@,
        Token::Or => "or"@,
        Token::Def => "def"@,
        Token::In => "in"@,
        Token::Pass => "pass"@,
        Token::Elif => "elif"@,
        Token::Return => "return"@,
        Token::Lambda => "lambda"@,
        _ => seq![],
    }
}

/// Whether the token is a keyword.
pub open spec fn is_keyword(t: Token) -> bool {
    match t {
        Token::And
        | Token::Else
        | Token::Load
        | Token::Break
        | Token::For
        | Token::Not
        | Token::Continue
        | Token::If
        | Token::Or
        | Token::Def
        | Token::In
        | Token::Pass
        | Token::Elif
        | Token::Return
        | Token::Lambda => true,
        _ => false,
    }
}

/// The source text of a keyword.
proof fn lemma_keyword_source(t: Token)
    requires
        is_keyword(t),
    ensures
        TokenView::Plain(t).unlex() == keyword_text(t),
        grammar::keyword(keyword_text(t)) == Some(t),
{
    let before = "keyword '"@;
    let w = keyword_text(t);
    reveal_strlit("keyword '");
    reveal_strlit("and");
    reveal_strlit("else");
    reveal_strlit("load");
    reveal_strlit("break");
    reveal_strlit("for");
    reveal_strlit("not");
    reveal_strlit("continue");
    reveal_strlit("if");
    reveal_strlit("or");
    reveal_strlit("def");
    reveal_strlit("in");
    reveal_strlit("pass");
    reveal_strlit("elif");
    reveal_strlit("return");
    reveal_strlit("lambda");
    lemma_unquoted(before, w);
    grammar::lemma_keyword_is_identifier(w);
    assert(Class::Word.has(w[0]) && Class::Word.has(w[1]));
    assert(w.len() > 2 ==> Class::Word.has(w[2]));
    match t {
        Token::And => {
            reveal_strlit("keyword 'and'");
            assert("keyword 'and'"@ =~= before + w + seq!['\'']);
        },
        Token::Else => {
            reveal_strlit("keyword 'else'");
            assert("keyword 'else'"@ =~= before + w + seq!['\'']);
        },
        Token::Load => {
            reveal_strlit("keyword 'load'");
            assert("keyword 'load'"@ =~= before + w + seq!['\'']);
        },
        Token::Break => {
            reveal_strlit("keyword 'break'");
            assert("keyword 'break'"@ =~= before + w + seq!['\'']);
        },
        Token::For => {
            reveal_strlit("keyword 'for'");
            assert("keyword 'for'"@ =~= before + w + seq!['\'']);
        },
        Token::Not => {
            reveal_strlit("keyword 'not'");
            assert("keyword 'not'"@ =~= before + w + seq!['\'']);
        },
        Token::Continue => {
            reveal_strlit("keyword 'continue'");
            assert("keyword 'continue'"@ =~= before + w + seq!['\'']);
        },
        Token::If => {
            reveal_strlit("keyword 'if'");
            assert("keyword 'if'"@ =~= before + w + seq!['\'']);
        },
        Token::Or => {
            reveal_strlit("keyword 'or'");
            assert("keyword 'or'"@ =~= before + w + seq!['\'']);
        },
        Token::Def => {
            reveal_strlit("keyword 'def'");
            assert("keyword 'def'"@ =~= before + w + seq!['\'']);
        },
        Token::In => {
            reveal_strlit("keyword 'in'");
            assert("keyword 'in'"@ =~= before + w + seq!['\'']);
        },
        Token::Pass => {
            reveal_strlit("keyword 'pass'");
            assert("keyword 'pass'"@ =~= before + w + seq!['\'']);
        },
        Token::Elif => {
            reveal_strlit("keyword 'elif'");
            assert("keyword 'elif'"@ =~= before + w + seq!['\'']);
        },
        Token::Return => {
            reveal_strlit("keyword 'return'");
            assert("keyword 'return'"@ =~= before + w + seq!['\'']);
        },
        Token::Lambda => {
            reveal_strlit("keyword 'lambda'");
            assert("keyword 'lambda'"@ =~= before + w + seq!['\'']);
        },
        _ => {},
    }
}

/// The text of a symbol.
pub open spec fn symbol_text(t: Token) -> Seq<char> {
    match t {
        Token::Comma => seq![','],
        Token::Semicolon => seq![';'],
        Token::Colon => seq![':'],
        Token::PlusEqual => seq!['+', '='],
        Token::MinusEqual => seq!['-', '='],
        Token::StarEqual => seq!['*', '='],
        Token::SlashEqual => seq!['/', '='],
        Token::SlashSlashEqual => seq!['/', '/', '='],
        Token::PercentEqual => seq!['%', '='],
        Token::EqualEqual => seq!['=', '='],
        Token::BangEqual => seq!['!', '='],
        Token::LessEqual => seq!['<', '='],
        Token::GreaterEqual => seq!['>', '='],
        Token::StarStar => seq!['*', '*'],
        Token::RightArrow => seq!['-', '>'],
        Token::Equal => seq!['='],
        Token::LessThan => seq!['<'],
        Token::GreaterThan => seq!['>'],
        Token::Minus => seq!['-'],
        Token::Plus => seq!['+'],
        Token::Star => seq!['*'],
        Token::Percent => seq!['%'],
        Token::Slash => seq!['/'],
        Token::SlashSlash => seq!['/', '/'],
        Token::Dot => seq!['.'],
        Token::Pipe => seq!['|'],
        Token::OpeningSquare => seq!['['],
        Token::OpeningCurly => seq!['{'],
        Token::OpeningRound => seq!['('],
        Token::ClosingSquare => seq![']'],
        Token::ClosingCurly => seq!['}'],
        Token::ClosingRound => seq![')'],
        _ => seq![],
    }
}

/// The source text of a symbol.
proof fn lemma_symbol_source(t: Token)
    requires
        symbol_text(t).len() > 0,
    ensures
        TokenView::Plain(t).unlex() == symbol_text(t),
        grammar::symbol(symbol_text(t)) == Some(t),
{
    let before = "symbol '"@;
    let w = symbol_text(t);
    reveal_strlit("symbol '");
    lemma_unquoted(before, w);
    match t {
        Token::Comma => {
            reveal_strlit("symbol ','");
            assert("symbol ','"@ =~= before + w + seq!['\'']);
        },
        Token::Semicolon => {
            reveal_strlit("symbol ';'");
            assert("symbol ';'"@ =~= before + w + seq!['\'']);
        },
        Token::Colon => {
            reveal_strlit("symbol ':'");
            assert("symbol ':'"@ =~= before + w + seq!['\'']);
        },
        Token::PlusEqual => {
            reveal_strlit("symbol '+='");
            assert("symbol '+='"@ =~= before + w + seq!['\'']);
        },
        Token::MinusEqual => {
            reveal_strlit("symbol '-='");
            assert("symbol '-='"@ =~= before + w + seq!['\'']);
        },
        Token::StarEqual => {
            reveal_strlit("symbol '*='");
            assert("symbol '*='"@ =~= before + w + seq!['\'']);
        },
        Token::SlashEqual => {
            reveal_strlit("symbol '/='");
            assert("symbol '/='"@ =~= before + w + seq!['\'']);
        },
        Token::SlashSlashEqual => {
            reveal_strlit("symbol '//='");
            assert("symbol '//='"@ =~= before + w + seq!['\'']);
        },
        Token::PercentEqual => {
            reveal_strlit("symbol '%='");
            assert("symbol '%='"@ =~= before + w + seq!['\'']);
        },
        Token::EqualEqual => {
            reveal_strlit("symbol '=='");
            assert("symbol '=='"@ =~= before + w + seq!['\'']);
        },
        Token::BangEqual => {
            reveal_strlit("symbol '!='");
            assert("symbol '!='"@ =~= before + w + seq!['\'']);
        },
        Token::LessEqual => {
            reveal_strlit("symbol '<='");
            assert("symbol '<='"@ =~= before + w + seq!['\'']);
        },
        Token::GreaterEqual => {
            reveal_strlit("symbol '>='");
            assert("symbol '>='"@ =~= before + w + seq!['\'']);
        },
        Token::StarStar => {
            reveal_strlit("symbol '**'");
            assert("symbol '**'"@ =~= before + w + seq!['\'']);
        },
        Token::RightArrow => {
            reveal_strlit("symbol '->'");
            assert("symbol '->'"@ =~= before + w + seq!['\'']);
        },
        Token::Equal => {
            reveal_strlit("symbol '='");
            assert("symbol '='"@ =~= before + w + seq!['\'']);
        },
        Token::LessThan => {
            reveal_strlit("symbol '<'");
            assert("symbol '<'"@ =~= before + w + seq!['\'']);
        },
        Token::GreaterThan => {
            reveal_strlit("symbol '>'");
            assert("symbol '>'"@ =~= before + w + seq!['\'']);
        },
        Token::Minus => {
            reveal_strlit("symbol '-'");
            assert("symbol '-'"@ =~= before + w + seq!['\'']);
        },
        Token::Plus => {
            reveal_strlit("symbol '+'");
            assert("symbol '+'"@ =~= before + w + seq!['\'']);
        },
        Token::Star => {
            reveal_strlit("symbol '*'");
            assert("symbol '*'"@ =~= before + w + seq!['\'']);
        },
        Token::Percent => {
            reveal_strlit("symbol '%'");
            assert("symbol '%'"@ =~= before + w + seq!['\'']);
        },
        Token::Slash => {
            reveal_strlit("symbol '/'");
            assert("symbol '/'"@ =~= before + w + seq!['\'']);
        },
        Token::SlashSlash => {
            reveal_strlit("symbol '//'");
            assert("symbol '//'"@ =~= before + w + seq!['\'']);
        },
        Token::Dot => {
            reveal_strlit("symbol '.'");
            assert("symbol '.'"@ =~= before + w + seq!['\'']);
        },
        Token::Pipe => {
            reveal_strlit("symbol '|'");
            assert("symbol '|'"@ =~= before + w + seq!['\'']);
        },
        Token::OpeningSquare => {
            reveal_strlit("symbol '['");
            assert("symbol '['"@ =~= before + w + seq!['\'']);
        },
        Token::OpeningCurly => {
            reveal_strlit("symbol '{'");
            assert("symbol '{'"@ =~= before + w + seq!['\'']);
        },
        Token::OpeningRound => {
            reveal_strlit("symbol '('");
            assert("symbol '('"@ =~= before + w + seq!['\'']);
        },
        Token::ClosingSquare => {
            reveal_strlit("symbol ']'");
            assert("symbol ']'"@ =~= before + w + seq!['\'']);
        },
        Token::ClosingCurly => {
            reveal_strlit("symbol '}'");
            assert("symbol '}'"@ =~= before + w + seq!['\'']);
        },
        Token::ClosingRound => {
            reveal_strlit("symbol ')'");
            assert("symbol ')'"@ =~= before + w + seq!['\'']);
        },
        _ => {},
    }
}

/// A number in decimal is read back as that number.
proof fn lemma_decimal_source(n: nat)
    ensures
        number::radix_value(token::decimal(n), 10) == n,
        grammar::is_repeated(Class::Digit(10), token::decimal(n)),
        n > 0 ==> token::decimal(n)[0] != '0',
        n < 10 ==> token::decimal(n).len() == 1,
    decreases n,
{
    let w = token::decimal(n);
    let d = token::digit_char(n % 10);
    assert(number::digit_value(d) == n % 10);
    assert(Class::Digit(10).has(d));
    if n < 10 {
        assert(w.drop_last() =~= Seq::<char>::empty());
        reveal_with_fuel(number::radix_value, 2);
    } else {
        lemma_decimal_source(n / 10);
        let tens = token::decimal(n / 10);
        assert(w.drop_last() =~= tens);
        assert(w[0] == tens[0]);
        assert forall|i: int| 0 <= i < w.len() implies Class::Digit(10).has(#[trigger] w[i]) by {
            if i < tens.len() {
                assert(w[i] == tens[i]);
            }
        }
    }
}

/// What the source text of a token means.
proof fn lemma_source(t: TokenView)
    requires
        has_source(t),
    ensures
        grammar::meaning(t.unlex()) == Some(PieceView::Token(t)),
        t.unlex().len() > 0,
{
    reveal_strlit("'");
    assert("'"@ =~= seq!['\'']);
    match t {
        TokenView::Reserved(w) => {
            let before = "reserved keyword '"@;
            reveal_strlit("reserved keyword '");
            lemma_unquoted(before, w);
            grammar::lemma_keyword_is_identifier(w);
            grammar::lemma_not_quote(w);
        },
        TokenView::Identifier(w) => {
            let before = "identifier '"@;
            reveal_strlit("identifier '");
            lemma_unquoted(before, w);
            grammar::lemma_not_quote(w);
        },
        TokenView::Plain(Token::IntegerLiteral(i)) => {
            let before = "integer literal '"@;
            let w = token::decimal(i as nat);
            reveal_strlit("integer literal '");
            lemma_unquoted(before, w);
            lemma_decimal_source(i as nat);
            grammar::lemma_decimal(w);
        },
        TokenView::Plain(Token::Newline) => {
            reveal_strlit("\n");
            assert("\n"@ =~= seq!['\n']);
            grammar::lemma_newline("\n"@);
        },
        TokenView::Plain(p) => {
            if is_keyword(p) {
                let w = keyword_text(p);
                lemma_keyword_source(p);
                grammar::lemma_keyword_is_identifier(w);
                grammar::lemma_not_quote(w);
                lemma_keyword_not_reserved(w);
            } else {
                lemma_symbol_source(p);
                grammar::lemma_symbol(symbol_text(p));
            }
        },
        _ => {},
    }
}

/// No keyword is reserved for later.
pub proof fn lemma_keyword_not_reserved(w: Seq<char>)
    requires
        grammar::keyword(w) is Some,
    ensures
        !grammar::is_reserved(w),
{
    reveal_strlit("as");
    reveal_strlit("import");
    reveal_strlit("is");
    reveal_strlit("class");
    reveal_strlit("nonlocal");
    reveal_strlit("del");
    reveal_strlit("raise");
    reveal_strlit("except");
    reveal_strlit("try");
    reveal_strlit("finally");
    reveal_strlit("while");
    reveal_strlit("from");
    reveal_strlit("with");
    reveal_strlit("global");
    reveal_strlit("yield");
    reveal_strlit("and");
    reveal_strlit("else");
    reveal_strlit("load");
    reveal_strlit("break");
    reveal_strlit("for");
    reveal_strlit("not");
    reveal_strlit("continue");
    reveal_strlit("if");
    reveal_strlit("or");
    reveal_strlit("def");
    reveal_strlit("in");
    reveal_strlit("pass");
    reveal_strlit("elif");
    reveal_strlit("return");
    reveal_strlit("lambda");
    grammar::lemma_keyword_is_identifier(w);
    assert(Class::Word.has(w[0]) && Class::Word.has(w[1]));
    assert(w.len() > 2 ==> Class::Word.has(w[2]));
}

/// A space ends a piece that does not itself start with a space or as a comment.
proof fn lemma_space_ends_piece(w: Seq<char>, s: Seq<char>)
    requires
        w.len() > 0,
        w[0] != ' ',
        w[0] != '#',
        grammar::meaning(w) is Some,
    ensures
        grammar::longest_piece(w + seq![' '] + s, (w + seq![' '] + s).len()) == w.len(),
        (w + seq![' '] + s).take(w.len() as int) == w,
{
    let all = w + seq![' '] + s;
    let n = w.len() as int;
    assert(all.take(n) =~= w);
    assert forall|m: int| n < m <= all.len() implies #[trigger] grammar::meaning(
        all.take(m),
    ) is None by {
        let v = all.take(m);
        assert(v[n] == ' ');
        assert(v[0] == w[0]);
        if grammar::meaning(v) is Some {
            grammar::lemma_head(v);
            if grammar::symbol(v) is None {
                grammar::lemma_symbol_head(v);
            }
            assert(!Class::Tab.has(v[n]));
            assert(!Class::Word.has(v[n]));
            assert(!Class::Digit(10).has(v[n]));
            if n >= 2 {
                assert(v.skip(2)[n - 2] == ' ');
                assert(!Class::Digit(16).has(' ') && !Class::Digit(2).has(' ') && !Class::Digit(
                    8,
                ).has(' '));
            }
        }
    }
    grammar::lemma_is_longest(all, n);
}

/// The source text of a token, alone or before a space, is read as that token: all of it, and
/// nothing more.
pub proof fn law_source_is_read_back(t: TokenView, s: Seq<char>, pos: nat)
    requires
        has_source(t),
    ensures
        ({
            let w = t.unlex();
            let end = pos + text::utf8_len(w);
            &&& grammar::raw_next(w, pos) == (RawStep {
                token: Some(t),
                start: pos,
                end,
                rest: seq![],
            })
            &&& grammar::raw_next(w + seq![' '] + s, pos) == (RawStep {
                token: Some(t),
                start: pos,
                end,
                rest: seq![' '] + s,
            })
        }),
{
    let w = t.unlex();
    let n = w.len() as int;
    lemma_source(t);
    grammar::lemma_head(w);
    assert(w[0] != ' ' && w[0] != '#') by {
        if w[0] == ' ' || w[0] == '#' {
            assert(grammar::meaning(w) == Some(PieceView::Blank));
        }
    }
    assert(w.take(n) =~= w);
    assert(w.skip(n) =~= seq![]);
    grammar::lemma_is_longest(w, n);
    lemma_space_ends_piece(w, s);
    assert((w + seq![' '] + s).skip(n) =~= seq![' '] + s);
}

/// Spaces before a token only move it.
pub proof fn law_spaces_only_move_tokens(s: Seq<char>, pos: nat)
    ensures
        grammar::raw_next(seq![' '] + s, pos) == grammar::raw_next(s, pos + 1),
{
    let all = seq![' '] + s;
    let n = Class::Space.run(s) as int;
    grammar::lemma_run(Class::Space, all);
    grammar::lemma_run(Class::Space, s);
    assert(all.drop_first() =~= s);
    assert(Class::Space.run(all) == n + 1);
    lemma_spaces(all);
    text::lemma_step(all, 0);
    assert(all.take(1 + n) =~= all.take(1) + s.take(n));
    text::lemma_utf8_len_concat(all.take(1), s.take(n));
    assert(all.skip(n + 1) =~= s.skip(n));
    if n > 0 {
        lemma_spaces(s);
    } else {
        assert(s.take(0) =~= seq![]);
        assert(s.skip(0) =~= s);
    }
}

/// The spaces that a text starts with are one blank piece.
proof fn lemma_spaces(s: Seq<char>)
    requires
        s.len() > 0,
        s[0] == ' ',
    ensures
        grammar::piece(s) == PieceView::Blank,
        grammar::piece_len(s) == Class::Space.run(s),
{
    let n = Class::Space.run(s) as int;
    grammar::lemma_run(Class::Space, s);
    assert(n > 0);
    assert forall|m: int| n < m <= s.len() implies #[trigger] grammar::meaning(
        s.take(m),
    ) is None by {
        assert(s.take(m)[0] == ' ');
        if grammar::meaning(s.take(m)) is Some {
            grammar::lemma_head(s.take(m));
        }
    }
    grammar::lemma_is_longest(s, n);
}

/// Every token that text is read as stands for that text: it is the source text of the token,
/// apart from how a number or a line break is written. Tabs, quotes and errors are the exception.
pub proof fn law_tokens_have_source(w: Seq<char>)
    ensures
        grammar::meaning(w) matches Some(PieceView::Token(t)) ==> {
            ||| has_source(t) && (t.unlex() == w || t is Plain && (t->Plain_0 is IntegerLiteral
                || t->Plain_0 is Newline))
            ||| t is Plain && (t->Plain_0 is Error || t->Plain_0 is Tabs
                || t->Plain_0 is RawSingleQuote || t->Plain_0 is RawDoubleQuote)
        },
{
    if let Some(PieceView::Token(t)) = grammar::meaning(w) {
        match t {
            TokenView::Reserved(_) | TokenView::Identifier(_) => {
                lemma_word_source(t);
            },
            TokenView::Plain(p) => {
                if is_keyword(p) {
                    lemma_keyword_source(p);
                } else if symbol_text(p).len() > 0 {
                    lemma_symbol_source(p);
                    assert(w =~= symbol_text(p));
                }
            },
            _ => {},
        }
    }
}

/// The tokens that a text is made of.
pub open spec fn raw_tokens(s: Seq<char>, pos: nat) -> Seq<TokenView>
    decreases s.len(),
{
    proof {
        grammar::lemma_raw_next(s, pos);
    }
    let raw = grammar::raw_next(s, pos);
    match raw.token {
        Some(token) => seq![token] + raw_tokens(raw.rest, raw.end),
        None => seq![],
    }
}

/// The source text of tokens, each with a space behind it.
pub open spec fn source(tokens: Seq<TokenView>) -> Seq<char>
    decreases tokens.len(),
{
    if tokens.len() == 0 {
        seq![]
    } else {
        tokens[0].unlex() + seq![' '] + source(tokens.drop_first())
    }
}

/// Text that is put together from the source text of tokens falls into the same tokens.
pub proof fn law_unlex_then_lex(tokens: Seq<TokenView>, pos: nat)
    requires
        forall|i: int| 0 <= i < tokens.len() ==> has_source(#[trigger] tokens[i]),
    ensures
        raw_tokens(source(tokens), pos) == tokens,
    decreases tokens.len(),
{
    let s = source(tokens);
    if tokens.len() > 0 {
        let t = tokens[0];
        let others = tokens.drop_first();
        law_source_is_read_back(t, source(others), pos);
        let end = pos + text::utf8_len(t.unlex());
        law_spaces_only_move_tokens(source(others), end);
        law_unlex_then_lex(others, end + 1);
        assert(raw_tokens(seq![' '] + source(others), end) == raw_tokens(source(others), end + 1));
        assert(raw_tokens(s, pos) =~= tokens);
    }
}

/// The source text of a word is the word.
pub proof fn lemma_word_source(t: TokenView)
    ensures
        t matches TokenView::Reserved(w) ==> t.unlex() == w,
        t matches TokenView::Identifier(w) ==> t.unlex() == w,
{
    reveal_strlit("'");
    assert("'"@ =~= seq!['\'']);
    reveal_strlit("reserved keyword '");
    reveal_strlit("identifier '");
    match t {
        TokenView::Reserved(w) => lemma_unquoted("reserved keyword '"@, w),
        TokenView::Identifier(w) => lemma_unquoted("identifier '"@, w),
        _ => {},
    }
}

/// Whether the lexer returns one token of the text `s`, over all of it, then the line break at the
/// end of it, and nothing more.
pub open spec fn is_lexed_as(s: Seq<char>, tabs: bool, t: TokenView) -> bool {
    let end = text::utf8_len(s) as int;
    let st = LexerView::initial(s, tabs);
    let first = LexemeView::Token { begin: 0, token: t, end };
    let second = LexemeView::Token { begin: end, token: TokenView::Plain(Token::Newline), end };
    &&& st.next().1 == Some(first)
    &&& st.next().0.next().1 == Some(second)
    &&& laws::lexemes(st) == seq![first, second]
}

/// The lexer undoes `unlex`: of the source text of a token it returns that token.
pub proof fn law_source_is_lexed_back(t: TokenView, tabs: bool)
    requires
        has_source(t),
    ensures
        is_lexed_as(t.unlex(), tabs, t),
{
    let w = t.unlex();
    let end = text::utf8_len(w);
    let st = LexerView::initial(w, tabs);
    laws::law_initial_is_valid(w, tabs);
    lemma_source_starts(t, tabs);
    law_source_is_read_back(t, seq![], 0);
    let at = LexerView { rest: seq![], start: 0, end, ..st };
    let raw = grammar::raw_next(w, 0);
    assert(st.behind(raw) == at);
    lemma_empty_margin(at);
    lemma_then_ends(st);
}

/// What follows a lexeme that has left nothing to read.
proof fn lemma_then_ends(st: LexerView)
    requires
        laws::is_valid(st),
        st.next().1 is Some,
        ({
            let one = st.next().0;
            &&& one.rest.len() == 0
            &&& one.levels.len() == 0
            &&& one.buffer.len() == 0
            &&& !one.done
        }),
    ensures
        ({
            let total = st.total() as int;
            let end = LexemeView::Token {
                begin: total,
                token: TokenView::Plain(Token::Newline),
                end: total,
            };
            &&& st.next().0.next().1 == Some(end)
            &&& laws::lexemes(st) == seq![st.next().1->Some_0, end]
        }),
{
    let (one, first) = st.next();
    laws::law_next_keeps_state_valid(st);
    let (two, second) = one.next();
    assert(one.rest =~= seq![]);
    assert(two.buffer =~= seq![]);
    laws::law_next_keeps_state_valid(one);
    laws::law_next_makes_progress(st);
    laws::law_next_makes_progress(one);
    assert(laws::lexemes(two) =~= seq![]);
    assert(laws::lexemes(one) =~= seq![second->Some_0]);
    assert(laws::lexemes(st) =~= seq![first->Some_0, second->Some_0]);
}

/// At the end of a text there is no margin.
proof fn lemma_empty_margin(st: LexerView)
    requires
        st.rest.len() == 0,
    ensures
        st.calculate_indent() == (st, None::<LexemeView>),
{
    assert(st.rest.skip(0) =~= st.rest);
    assert(st.rest.take(0) =~= seq![]);
    assert(st.calculate_indent().0 =~= st);
}

/// The source text of a token is not indented.
proof fn lemma_source_starts(t: TokenView, tabs: bool)
    requires
        has_source(t),
    ensures
        LexerView::initial(t.unlex(), tabs) == LexerView::fresh(t.unlex(), tabs),
{
    let w = t.unlex();
    lemma_source(t);
    grammar::lemma_head(w);
    assert(w[0] != ' ' && w[0] != '#' && w[0] != '\t') by {
        if w[0] == ' ' || w[0] == '#' {
            assert(grammar::meaning(w) == Some(PieceView::Blank));
        }
        if w[0] == '\t' {
            assert(!Class::Space.has(w[0]));
        }
    }
    lemma_not_indented(w, tabs);
}

/// A text that starts with neither blanks nor a comment is not indented.
proof fn lemma_not_indented(w: Seq<char>, tabs: bool)
    requires
        w.len() > 0,
        w[0] != ' ',
        w[0] != '\t',
        w[0] != '#',
    ensures
        LexerView::initial(w, tabs) == LexerView::fresh(w, tabs),
{
    let fresh = LexerView::fresh(w, tabs);
    assert(w.skip(0) =~= w);
    assert(w.take(0) =~= seq![]);
    assert(fresh.buffer + state::dedents(0, 1) =~= seq![]);
    assert(fresh.calculate_indent().0 =~= fresh);
}

/// Of a text between quotes the lexer returns the string literal that it spells, however it does so.
pub proof fn law_literal_is_lexed_back(quote: char, w: Seq<char>, t: Seq<char>, tabs: bool)
    requires
        quote == '\'' || quote == '"',
        quoting::spells(quote, w, t),
    ensures
        is_lexed_as(seq![quote] + w + seq![quote], tabs, TokenView::StringLiteral(t)),
{
    let s = seq![quote] + w + seq![quote];
    let st = LexerView::initial(s, tabs);
    laws::law_initial_is_valid(s, tabs);
    lemma_not_indented(s, tabs);
    assert(s + seq![] =~= s);
    quoting::law_spelled_text_is_read_back(st, quote, w, t, seq![]);
    text::lemma_utf8_len_concat(seq![quote], w);
    text::lemma_utf8_len_push(seq![quote] + w, quote);
    text::lemma_utf8_len_push(seq![], quote);
    assert((seq![quote] + w).push(quote) =~= s);
    assert(Seq::<char>::empty().push(quote) =~= seq![quote]);
    lemma_then_ends(st);
}

/// The lexer undoes `unlex` of a string literal too, wherever the text in double quotes that std's
/// debug format makes of it spells it.
pub proof fn law_unlexed_literal_is_lexed_back(w: Seq<char>, t: Seq<char>, tabs: bool)
    ensures
        ({
            let token = TokenView::StringLiteral(t);
            token.unlex() == seq!['"'] + w + seq!['"'] && quoting::spells('"', w, t)
                ==> is_lexed_as(token.unlex(), tabs, token)
        }),
{
    if quoting::spells('"', w, t) {
        law_literal_is_lexed_back('"', w, t, tabs);
    }
}

/// A message names a keyword, a symbol, a word, a number and a string literal by what it is, and by
/// its source text in quotes; a string literal by the text that it denotes.
pub proof fn law_names(t: TokenView)
    ensures
        match t {
            TokenView::Reserved(w) => t.display() == "reserved keyword '"@ + w + "'"@,
            TokenView::Identifier(w) => t.display() == "identifier '"@ + w + "'"@,
            TokenView::StringLiteral(w) => t.display() == "string literal '"@ + w + "'"@,
            TokenView::Plain(Token::IntegerLiteral(_)) => t.display() == "integer literal '"@
                + t.unlex() + "'"@,
            TokenView::Plain(
                Token::And
                | Token::Else
                | Token::Load
                | Token::Break
                | Token::For
                | Token::Not
                | Token::Continue
                | Token::If
                | Token::Or
                | Token::Def
                | Token::In
                | Token::Pass
                | Token::Elif
                | Token::Return
                | Token::Lambda,
            ) => t.display() == "keyword '"@ + t.unlex() + "'"@,
            TokenView::Plain(
                Token::Comma
                | Token::Semicolon
                | Token::Colon
                | Token::PlusEqual
                | Token::MinusEqual
                | Token::StarEqual
                | Token::SlashEqual
                | Token::SlashSlashEqual
                | Token::PercentEqual
                | Token::EqualEqual
                | Token::BangEqual
                | Token::LessEqual
                | Token::GreaterEqual
                | Token::StarStar
                | Token::RightArrow
                | Token::Equal
                | Token::LessThan
                | Token::GreaterThan
                | Token::Minus
                | Token::Plus
                | Token::Star
                | Token::Percent
                | Token::Slash
                | Token::SlashSlash
                | Token::Dot
                | Token::Pipe
                | Token::OpeningSquare
                | Token::OpeningCurly
                | Token::OpeningRound
                | Token::ClosingSquare
                | Token::ClosingCurly
                | Token::ClosingRound,
            ) => t.display() == "symbol '"@ + t.unlex() + "'"@,
            _ => true,
        },
{
    reveal_strlit("'");
    assert("'"@ =~= seq!['\'']);
    match t {
        TokenView::Plain(Token::IntegerLiteral(i)) => {
            reveal_strlit("integer literal '");
            lemma_unquoted("integer literal '"@, token::signed_decimal(i as int));
        },
        TokenView::Plain(p) => {
            if is_keyword(p) {
                lemma_keyword_name(p);
            } else if symbol_text(p).len() > 0 {
                lemma_symbol_name(p);
            }
        },
        _ => {},
    }
}

/// A negative number is written as a minus sign and the number without it.
pub proof fn law_negative_numbers(i: i32)
    requires
        i32::MIN < i < 0,
    ensures
        TokenView::Plain(Token::IntegerLiteral(i)).unlex() == seq!['-'] + TokenView::Plain(
            Token::IntegerLiteral((-i) as i32),
        ).unlex(),
{
    reveal_strlit("'");
    assert("'"@ =~= seq!['\'']);
    reveal_strlit("integer literal '");
    lemma_unquoted("integer literal '"@, token::signed_decimal(i as int));
    lemma_unquoted("integer literal '"@, token::signed_decimal(-i));
}

/// How a keyword is named.
proof fn lemma_keyword_name(t: Token)
    requires
        is_keyword(t),
    ensures
        TokenView::Plain(t).display() == "keyword '"@ + TokenView::Plain(t).unlex() + seq!['\''],
{
    lemma_keyword_source(t);
    let before = "keyword '"@;
    let w = keyword_text(t);
    reveal_strlit("keyword '");
    reveal_strlit("and");
    reveal_strlit("else");
    reveal_strlit("load");
    reveal_strlit("break");
    reveal_strlit("for");
    reveal_strlit("not");
    reveal_strlit("continue");
    reveal_strlit("if");
    reveal_strlit("or");
    reveal_strlit("def");
    reveal_strlit("in");
    reveal_strlit("pass");
    reveal_strlit("elif");
    reveal_strlit("return");
    reveal_strlit("lambda");
    match t {
        Token::And => {
            reveal_strlit("keyword 'and'");
            assert("keyword 'and'"@ =~= before + w + seq!['\'']);
        },
        Token::Else => {
            reveal_strlit("keyword 'else'");
            assert("keyword 'else'"@ =~= before + w + seq!['\'']);
        },
        Token::Load => {
            reveal_strlit("keyword 'load'");
            assert("keyword 'load'"@ =~= before + w + seq!['\'']);
        },
        Token::Break => {
            reveal_strlit("keyword 'break'");
            assert("keyword 'break'"@ =~= before + w + seq!['\'']);
        },
        Token::For => {
            reveal_strlit("keyword 'for'");
            assert("keyword 'for'"@ =~= before + w + seq!['\'']);
        },
        Token::Not => {
            reveal_strlit("keyword 'not'");
            assert("keyword 'not'"@ =~= before + w + seq!['\'']);
        },
        Token::Continue => {
            reveal_strlit("keyword 'continue'");
            assert("keyword 'continue'"@ =~= before + w + seq!['\'']);
        },
        Token::If => {
            reveal_strlit("keyword 'if'");
            assert("keyword 'if'"@ =~= before + w + seq!['\'']);
        },
        Token::Or => {
            reveal_strlit("keyword 'or'");
            assert("keyword 'or'"@ =~= before + w + seq!['\'']);
        },
        Token::Def => {
            reveal_strlit("keyword 'def'");
            assert("keyword 'def'"@ =~= before + w + seq!['\'']);
        },
        Token::In => {
            reveal_strlit("keyword 'in'");
            assert("keyword 'in'"@ =~= before + w + seq!['\'']);
        },
        Token::Pass => {
            reveal_strlit("keyword 'pass'");
            assert("keyword 'pass'"@ =~= before + w + seq!['\'']);
        },
        Token::Elif => {
            reveal_strlit("keyword 'elif'");
            assert("keyword 'elif'"@ =~= before + w + seq!['\'']);
        },
        Token::Return => {
            reveal_strlit("keyword 'return'");
            assert("keyword 'return'"@ =~= before + w + seq!['\'']);
        },
        Token::Lambda => {
            reveal_strlit("keyword 'lambda'");
            assert("keyword 'lambda'"@ =~= before + w + seq!['\'']);
        },
        _ => {},
    }
}

/// How a symbol is named.
proof fn lemma_symbol_name(t: Token)
    requires
        symbol_text(t).len() > 0,
    ensures
        TokenView::Plain(t).display() == "symbol '"@ + TokenView::Plain(t).unlex() + seq!['\''],
{
    lemma_symbol_source(t);
    let before = "symbol '"@;
    let w = symbol_text(t);
    reveal_strlit("symbol '");
    match t {
        Token::Comma => {
            reveal_strlit("symbol ','");
            assert("symbol ','"@ =~= before + w + seq!['\'']);
        },
        Token::Semicolon => {
            reveal_strlit("symbol ';'");
            assert("symbol ';'"@ =~= before + w + seq!['\'']);
        },
        Token::Colon => {
            reveal_strlit("symbol ':'");
            assert("symbol ':'"@ =~= before + w + seq!['\'']);
        },
        Token::PlusEqual => {
            reveal_strlit("symbol '+='");
            assert("symbol '+='"@ =~= before + w + seq!['\'']);
        },
        Token::MinusEqual => {
            reveal_strlit("symbol '-='");
            assert("symbol '-='"@ =~= before + w + seq!['\'']);
        },
        Token::StarEqual => {
            reveal_strlit("symbol '*='");
            assert("symbol '*='"@ =~= before + w + seq!['\'']);
        },
        Token::SlashEqual => {
            reveal_strlit("symbol '/='");
            assert("symbol '/='"@ =~= before + w + seq!['\'']);
        },
        Token::SlashSlashEqual => {
            reveal_strlit("symbol '//='");
            assert("symbol '//='"@ =~= before + w + seq!['\'']);
        },
        Token::PercentEqual => {
            reveal_strlit("symbol '%='");
            assert("symbol '%='"@ =~= before + w + seq!['\'']);
        },
        Token::EqualEqual => {
            reveal_strlit("symbol '=='");
            assert("symbol '=='"@ =~= before + w + seq!['\'']);
        },
        Token::BangEqual => {
            reveal_strlit("symbol '!='");
            assert("symbol '!='"@ =~= before + w + seq!['\'']);
        },
        Token::LessEqual => {
            reveal_strlit("symbol '<='");
            assert("symbol '<='"@ =~= before + w + seq!['\'']);
        },
        Token::GreaterEqual => {
            reveal_strlit("symbol '>='");
            assert("symbol '>='"@ =~= before + w + seq!['\'']);
        },
        Token::StarStar => {
            reveal_strlit("symbol '**'");
            assert("symbol '**'"@ =~= before + w + seq!['\'']);
        },
        Token::RightArrow => {
            reveal_strlit("symbol '->'");
            assert("symbol '->'"@ =~= before + w + seq!['\'']);
        },
        Token::Equal => {
            reveal_strlit("symbol '='");
            assert("symbol '='"@ =~= before + w + seq!['\'']);
        },
        Token::LessThan => {
            reveal_strlit("symbol '<'");
            assert("symbol '<'"@ =~= before + w + seq!['\'']);
        },
        Token::GreaterThan => {
            reveal_strlit("symbol '>'");
            assert("symbol '>'"@ =~= before + w + seq!['\'']);
        },
        Token::Minus => {
            reveal_strlit("symbol '-'");
            assert("symbol '-'"@ =~= before + w + seq!['\'']);
        },
        Token::Plus => {
            reveal_strlit("symbol '+'");
            assert("symbol '+'"@ =~= before + w + seq!['\'']);
        },
        Token::Star => {
            reveal_strlit("symbol '*'");
            assert("symbol '*'"@ =~= before + w + seq!['\'']);
        },
        Token::Percent => {
            reveal_strlit("symbol '%'");
            assert("symbol '%'"@ =~= before + w + seq!['\'']);
        },
        Token::Slash => {
            reveal_strlit("symbol '/'");
            assert("symbol '/'"@ =~= before + w + seq!['\'']);
        },
        Token::SlashSlash => {
            reveal_strlit("symbol '//'");
            assert("symbol '//'"@ =~= before + w + seq!['\'']);
        },
        Token::Dot => {
            reveal_strlit("symbol '.'");
            assert("symbol '.'"@ =~= before + w + seq!['\'']);
        },
        Token::Pipe => {
            reveal_strlit("symbol '|'");
            assert("symbol '|'"@ =~= before + w + seq!['\'']);
        },
        Token::OpeningSquare => {
            reveal_strlit("symbol '['");
            assert("symbol '['"@ =~= before + w + seq!['\'']);
        },
        Token::OpeningCurly => {
            reveal_strlit("symbol '{'");
            assert("symbol '{'"@ =~= before + w + seq!['\'']);
        },
        Token::OpeningRound => {
            reveal_strlit("symbol '('");
            assert("symbol '('"@ =~= before + w + seq!['\'']);
        },
        Token::ClosingSquare => {
            reveal_strlit("symbol ']'");
            assert("symbol ']'"@ =~= before + w + seq!['\'']);
        },
        Token::ClosingCurly => {
            reveal_strlit("symbol '}'");
            assert("symbol '}'"@ =~= before + w + seq!['\'']);
        },
        Token::ClosingRound => {
            reveal_strlit("symbol ')'");
            assert("symbol ')'"@ =~= before + w + seq!['\'']);
        },
        _ => {},
    }
}

} // verus!
