use std::sync::Arc;

use codemap::CodeMap;
use starlark_lexer::diagnostic::LexemeError;
use starlark_lexer::lexer::Dialect;
use starlark_lexer::lexer::Lexer;
use starlark_lexer::token::Token;

fn all_fixed() -> Vec<(Token, &'static str)> {
    vec![
        (Token::And, "and"),
        (Token::Else, "else"),
        (Token::Load, "load"),
        (Token::Break, "break"),
        (Token::For, "for"),
        (Token::Not, "not"),
        (Token::Continue, "continue"),
        (Token::If, "if"),
        (Token::Or, "or"),
        (Token::Def, "def"),
        (Token::In, "in"),
        (Token::Pass, "pass"),
        (Token::Elif, "elif"),
        (Token::Return, "return"),
        (Token::Lambda, "lambda"),
        (Token::Comma, ","),
        (Token::Semicolon, ";"),
        (Token::Colon, ":"),
        (Token::PlusEqual, "+="),
        (Token::MinusEqual, "-="),
        (Token::StarEqual, "*="),
        (Token::SlashEqual, "/="),
        (Token::SlashSlashEqual, "//="),
        (Token::PercentEqual, "%="),
        (Token::EqualEqual, "=="),
        (Token::BangEqual, "!="),
        (Token::LessEqual, "<="),
        (Token::GreaterEqual, ">="),
        (Token::StarStar, "**"),
        (Token::RightArrow, "->"),
        (Token::Equal, "="),
        (Token::LessThan, "<"),
        (Token::GreaterThan, ">"),
        (Token::Minus, "-"),
        (Token::Plus, "+"),
        (Token::Star, "*"),
        (Token::Percent, "%"),
        (Token::Slash, "/"),
        (Token::SlashSlash, "//"),
        (Token::Dot, "."),
        (Token::Pipe, "|"),
        (Token::OpeningSquare, "["),
        (Token::OpeningCurly, "{"),
        (Token::OpeningRound, "("),
        (Token::ClosingSquare, "]"),
        (Token::ClosingCurly, "}"),
        (Token::ClosingRound, ")"),
    ]
}

fn lex(source: &str) -> Vec<Token> {
    let mut map = CodeMap::new();
    let filespan = map.add_file("test".to_owned(), source.to_owned()).span;
    let dialect = Dialect { enable_tabs: true };
    let mut lexer = Lexer::new(source, &dialect, Arc::new(map), filespan);
    let mut tokens = Vec::new();
    while let Some(lexeme) = lexer.next() {
        match lexeme {
            Ok((_, token, _)) => tokens.push(token),
            Err(d) => panic!("{}", d.message.to_string()),
        }
    }
    tokens
}

#[test]
fn fixed_tokens_and_their_text() {
    for (token, text) in all_fixed() {
        assert_eq!(token.unlex(), text);
        assert_eq!(lex(text), vec![token, Token::Newline]);
    }
}

#[test]
fn reserved_words() {
    let words = [
        "as", "import", "is", "class", "nonlocal", "del", "raise", "except", "try", "finally",
        "while", "from", "with", "global", "yield",
    ];
    for word in words {
        let token = Token::Reserved(word.to_owned());
        assert_eq!(token.to_string(), format!("reserved keyword '{}'", word));
        assert_eq!(token.unlex(), word);
        assert_eq!(lex(word), vec![token, Token::Newline]);
    }
}

#[test]
fn names_in_messages() {
    assert_eq!(Token::And.to_string(), "keyword 'and'");
    assert_eq!(Token::OpeningCurly.to_string(), "symbol '{'");
    assert_eq!(Token::ClosingCurly.to_string(), "symbol '}'");
    assert_eq!(Token::Error.to_string(), "lexical error");
    assert_eq!(Token::Indent.to_string(), "new indentation block");
    assert_eq!(Token::Dedent.to_string(), "end of indentation block");
    assert_eq!(Token::Newline.to_string(), "new line");
    assert_eq!(Token::RawSingleQuote.to_string(), "starting '");
    assert_eq!(Token::RawDoubleQuote.to_string(), "starting \"");
    assert_eq!(Token::Tabs.to_string(), "");
    assert_eq!(
        Token::Identifier("x".to_owned()).to_string(),
        "identifier 'x'"
    );
    assert_eq!(
        Token::StringLiteral("a'b".to_owned()).to_string(),
        "string literal 'a'b'"
    );
    assert_eq!(
        Token::IntegerLiteral(1203).to_string(),
        "integer literal '1203'"
    );
    assert_eq!(
        Token::IntegerLiteral(i32::MIN).to_string(),
        "integer literal '-2147483648'"
    );
}

#[test]
fn source_text_of_tokens() {
    assert_eq!(Token::Indent.unlex(), "\t");
    assert_eq!(Token::Newline.unlex(), "\n");
    assert_eq!(Token::Dedent.unlex(), "#dedent");
    assert_eq!(Token::Error.unlex(), "lexical error");
    assert_eq!(Token::Tabs.unlex(), "");
    assert_eq!(Token::RawSingleQuote.unlex(), "starting '");
    assert_eq!(Token::RawDoubleQuote.unlex(), "starting \"");
    assert_eq!(Token::IntegerLiteral(0).unlex(), "0");
    assert_eq!(Token::IntegerLiteral(-15).unlex(), "-15");
    assert_eq!(Token::Identifier("x'y".to_owned()).unlex(), "x'y");
    assert_eq!(
        Token::StringLiteral("a\"b\\\n\t'\0".to_owned()).unlex(),
        "\"a\\\"b\\\\\\n\\t'\\0\""
    );
}

#[test]
fn unlex_then_lex() {
    let mut tokens = vec![
        Token::Identifier("some_name".to_owned()),
        Token::IntegerLiteral(42),
        Token::IntegerLiteral(i32::MAX),
        Token::Reserved("while".to_owned()),
        Token::StringLiteral("it's \"é\"\n".to_owned()),
    ];
    // The brackets come last, so that they are balanced.
    tokens.extend(all_fixed().into_iter().map(|(token, _)| token));
    let mut source = String::new();
    for token in &tokens {
        source.push_str(&token.unlex());
        source.push(' ');
    }
    tokens.push(Token::Newline);
    assert_eq!(lex(&source), tokens);
}

#[test]
fn messages() {
    assert_eq!(
        LexemeError::Indentation.to_string(),
        "Parse error: incorrect indentation"
    );
    assert_eq!(
        LexemeError::InvalidCharacter.to_string(),
        "Parse error: Character not valid at present location"
    );
    assert_eq!(
        LexemeError::InvalidTab.to_string(),
        "Parse error: tabs are not allowed in the dialect"
    );
    assert_eq!(
        LexemeError::UnfinishedStringLiteral.to_string(),
        "Parse error: unfinished string literal"
    );
    assert_eq!(
        LexemeError::InvalidEscapeSequence.to_string(),
        "Parse error: invalid string escape sequence"
    );
}

#[test]
fn literals_are_lexed_back() {
    let values = [
        "",
        "plain",
        "\"quoted\" and 'single'",
        "back\\slash\ttab\r\nline",
        "\u{1}\u{7f}\u{e9}\u{301}\u{200b}\u{feff}\u{10ffff}",
        "\u{1}2 \u{7}f",
    ];
    for value in values {
        let token = Token::StringLiteral(value.to_owned());
        assert_eq!(lex(&token.unlex()), vec![token, Token::Newline]);
    }
}
