use std::sync::Arc;

use codemap::CodeMap;
use starlark_lexer::diagnostic::LexemeError;
use starlark_lexer::lexer::BeyondFile;
use starlark_lexer::lexer::Dialect;
use starlark_lexer::lexer::Lexer;
use starlark_lexer::token::Token;

#[derive(Debug, PartialEq)]
enum Got {
    Tok(u64, Token, u64),
    Bad(LexemeError, u64, u64),
    Beyond,
}

fn run(source: &str, enable_tabs: bool) -> Vec<Got> {
    let mut map = CodeMap::new();
    // The text is not the first one in the map, so its positions do not start at zero.
    map.add_file("other".to_owned(), "something else".to_owned());
    let filespan = map.add_file("test".to_owned(), source.to_owned()).span;
    let map = Arc::new(map);
    let dialect = Dialect { enable_tabs };
    let mut lexer = Lexer::new(source, &dialect, map.clone(), filespan);
    let mut got = Vec::new();
    loop {
        match lexer.try_next() {
            Ok(Some(Ok((begin, token, end)))) => got.push(Got::Tok(begin, token, end)),
            Ok(Some(Err(d))) => {
                assert!(Arc::ptr_eq(&d.codemap, &map));
                got.push(Got::Bad(
                    d.message,
                    d.span.low() - filespan.low(),
                    d.span.high() - filespan.low(),
                ));
            }
            Ok(None) => {
                // There never is anything again.
                assert!(matches!(lexer.try_next(), Ok(None)));
                assert!(lexer.next().is_none());
                return got;
            }
            Err(BeyondFile) => got.push(Got::Beyond),
        }
    }
}

fn lex(source: &str) -> Vec<Got> {
    run(source, true)
}

fn tokens(source: &str) -> Vec<Token> {
    lex(source)
        .into_iter()
        .map(|got| match got {
            Got::Tok(_, token, _) => token,
            other => panic!("{:?}", other),
        })
        .collect()
}

fn id(s: &str) -> Token {
    Token::Identifier(s.to_owned())
}

fn text(s: &str) -> Token {
    Token::StringLiteral(s.to_owned())
}

#[test]
fn empty_text_is_one_line_break() {
    assert_eq!(lex(""), vec![Got::Tok(0, Token::Newline, 0)]);
}

#[test]
fn one_line() {
    assert_eq!(
        lex("a\n"),
        vec![
            Got::Tok(0, id("a"), 1),
            Got::Tok(1, Token::Newline, 2),
            Got::Tok(2, Token::Newline, 2),
        ]
    );
}

#[test]
fn block_with_positions() {
    assert_eq!(
        lex("def f():\n  pass\n"),
        vec![
            Got::Tok(0, Token::Def, 3),
            Got::Tok(4, id("f"), 5),
            Got::Tok(5, Token::OpeningRound, 6),
            Got::Tok(6, Token::ClosingRound, 7),
            Got::Tok(7, Token::Colon, 8),
            Got::Tok(8, Token::Newline, 9),
            Got::Tok(9, Token::Indent, 11),
            Got::Tok(11, Token::Pass, 15),
            Got::Tok(15, Token::Newline, 16),
            Got::Tok(16, Token::Newline, 16),
            Got::Tok(16, Token::Dedent, 16),
        ]
    );
}

#[test]
fn nested_blocks_close_together() {
    assert_eq!(
        lex("a\n b\n  c\nd"),
        vec![
            Got::Tok(0, id("a"), 1),
            Got::Tok(1, Token::Newline, 2),
            Got::Tok(2, Token::Indent, 3),
            Got::Tok(3, id("b"), 4),
            Got::Tok(4, Token::Newline, 5),
            Got::Tok(5, Token::Indent, 7),
            Got::Tok(7, id("c"), 8),
            Got::Tok(8, Token::Newline, 9),
            Got::Tok(9, Token::Dedent, 9),
            Got::Tok(9, Token::Dedent, 9),
            Got::Tok(9, id("d"), 10),
            Got::Tok(10, Token::Newline, 10),
        ]
    );
}

#[test]
fn open_blocks_end_with_the_text() {
    assert_eq!(
        tokens("a\n b\n  c"),
        vec![
            id("a"),
            Token::Newline,
            Token::Indent,
            id("b"),
            Token::Newline,
            Token::Indent,
            id("c"),
            Token::Newline,
            Token::Dedent,
            Token::Dedent,
        ]
    );
}

#[test]
fn first_line_may_be_indented() {
    assert_eq!(
        lex("  a"),
        vec![
            Got::Tok(1, Token::Indent, 2),
            Got::Tok(2, id("a"), 3),
            Got::Tok(3, Token::Newline, 3),
            Got::Tok(3, Token::Dedent, 3),
        ]
    );
}

#[test]
fn misaligned_line_takes_the_place_of_its_line_break() {
    assert_eq!(
        lex("a\n  b\n c"),
        vec![
            Got::Tok(0, id("a"), 1),
            Got::Tok(1, Token::Newline, 2),
            Got::Tok(2, Token::Indent, 4),
            Got::Tok(4, id("b"), 5),
            Got::Bad(LexemeError::Indentation, 5, 7),
            Got::Tok(7, id("c"), 8),
            Got::Tok(8, Token::Newline, 8),
        ]
    );
}

#[test]
fn windows_line_breaks() {
    assert_eq!(
        lex("a\r\n b"),
        vec![
            Got::Tok(0, id("a"), 1),
            Got::Tok(1, Token::Newline, 3),
            Got::Tok(2, Token::Indent, 4),
            Got::Tok(4, id("b"), 5),
            Got::Tok(5, Token::Newline, 5),
            Got::Tok(5, Token::Dedent, 5),
        ]
    );
}

#[test]
fn blank_lines_are_line_breaks() {
    assert_eq!(
        lex("a\n  \nb"),
        vec![
            Got::Tok(0, id("a"), 1),
            Got::Tok(1, Token::Newline, 2),
            Got::Tok(4, Token::Newline, 5),
            Got::Tok(5, id("b"), 6),
            Got::Tok(6, Token::Newline, 6),
        ]
    );
}

#[test]
fn comment_lines_leave_no_trace() {
    assert_eq!(
        lex("a\n   # c\n b"),
        vec![
            Got::Tok(0, id("a"), 1),
            Got::Tok(1, Token::Newline, 2),
            Got::Tok(9, Token::Indent, 10),
            Got::Tok(10, id("b"), 11),
            Got::Tok(11, Token::Newline, 11),
            Got::Tok(11, Token::Dedent, 11),
        ]
    );
    assert_eq!(tokens("a\n   # c\nb"), tokens("a\nb"));
    assert_eq!(
        lex("a\n# c"),
        vec![
            Got::Tok(0, id("a"), 1),
            Got::Tok(1, Token::Newline, 2),
            Got::Tok(5, Token::Newline, 5),
        ]
    );
}

#[test]
fn comment_behind_a_token() {
    assert_eq!(tokens("a # b 'c\nd"), tokens("a\nd"));
}

#[test]
fn brackets_join_lines() {
    assert_eq!(
        tokens("f(\n   a,\n b)\nc"),
        vec![
            id("f"),
            Token::OpeningRound,
            id("a"),
            Token::Comma,
            id("b"),
            Token::ClosingRound,
            Token::Newline,
            id("c"),
            Token::Newline,
        ]
    );
    assert_eq!(
        tokens("[{\n}\n]"),
        vec![
            Token::OpeningSquare,
            Token::OpeningCurly,
            Token::ClosingCurly,
            Token::ClosingSquare,
            Token::Newline,
        ]
    );
    // More brackets closed than opened do the same.
    assert_eq!(
        tokens(")\na"),
        vec![Token::ClosingRound, id("a"), Token::Newline]
    );
}

#[test]
fn escaped_line_breaks_are_blank() {
    assert_eq!(
        lex("a\\\nb\\\r\n c"),
        vec![
            Got::Tok(0, id("a"), 1),
            Got::Tok(3, id("b"), 4),
            Got::Tok(8, id("c"), 9),
            Got::Tok(9, Token::Newline, 9),
        ]
    );
}

#[test]
fn tabs_where_they_are_allowed() {
    assert_eq!(
        lex("a\n\tb\n        c\n \t d"),
        vec![
            Got::Tok(0, id("a"), 1),
            Got::Tok(1, Token::Newline, 2),
            Got::Tok(2, Token::Indent, 3),
            Got::Tok(3, id("b"), 4),
            Got::Tok(4, Token::Newline, 5),
            Got::Tok(13, id("c"), 14),
            Got::Tok(14, Token::Newline, 15),
            Got::Tok(15, Token::Indent, 18),
            Got::Tok(18, id("d"), 19),
            Got::Tok(19, Token::Newline, 19),
            Got::Tok(19, Token::Dedent, 19),
            Got::Tok(19, Token::Dedent, 19),
        ]
    );
    assert_eq!(tokens("a\t\tb"), vec![id("a"), id("b"), Token::Newline]);
}

#[test]
fn tabs_where_they_are_not_allowed() {
    assert_eq!(
        run("\ta", false),
        vec![
            Got::Bad(LexemeError::InvalidTab, 0, 0),
            Got::Tok(1, id("a"), 2),
            Got::Tok(2, Token::Newline, 2),
        ]
    );
    assert_eq!(
        run("a\n\tb\t c", false),
        vec![
            Got::Tok(0, id("a"), 1),
            Got::Bad(LexemeError::InvalidTab, 1, 1),
            Got::Tok(3, id("b"), 4),
            Got::Bad(LexemeError::InvalidTab, 4, 4),
            Got::Tok(6, id("c"), 7),
            Got::Tok(7, Token::Newline, 7),
        ]
    );
    // A line with nothing on it does not count.
    assert_eq!(run("\t\n", false)[0], Got::Tok(1, Token::Newline, 2));
}

#[test]
fn invalid_characters() {
    assert_eq!(
        lex("a $é\u{20ac} ! \\x\r"),
        vec![
            Got::Tok(0, id("a"), 1),
            Got::Bad(LexemeError::InvalidCharacter, 2, 3),
            Got::Bad(LexemeError::InvalidCharacter, 3, 5),
            Got::Bad(LexemeError::InvalidCharacter, 5, 8),
            Got::Bad(LexemeError::InvalidCharacter, 9, 10),
            Got::Bad(LexemeError::InvalidCharacter, 11, 12),
            Got::Tok(12, id("x"), 13),
            Got::Bad(LexemeError::InvalidCharacter, 13, 14),
            Got::Tok(14, Token::Newline, 14),
        ]
    );
}

#[test]
fn numbers() {
    assert_eq!(
        tokens("0 7 123 0xfF 0XA 0b101 0B1 0o17 0O7 2147483647 0x7fffffff"),
        vec![
            Token::IntegerLiteral(0),
            Token::IntegerLiteral(7),
            Token::IntegerLiteral(123),
            Token::IntegerLiteral(255),
            Token::IntegerLiteral(10),
            Token::IntegerLiteral(5),
            Token::IntegerLiteral(1),
            Token::IntegerLiteral(15),
            Token::IntegerLiteral(7),
            Token::IntegerLiteral(2147483647),
            Token::IntegerLiteral(2147483647),
            Token::Newline,
        ]
    );
}

#[test]
fn numbers_that_are_none() {
    for (source, end) in [("2147483648", 10), ("012", 3), ("00", 2), ("0x80000000", 10)] {
        assert_eq!(
            lex(source)[0],
            Got::Bad(LexemeError::InvalidCharacter, 0, end)
        );
    }
}

#[test]
fn longest_piece_wins() {
    assert_eq!(
        tokens("0x 0b12 0o8 12a"),
        vec![
            Token::IntegerLiteral(0),
            id("x"),
            Token::IntegerLiteral(1),
            Token::IntegerLiteral(2),
            Token::IntegerLiteral(0),
            id("o8"),
            Token::IntegerLiteral(12),
            id("a"),
            Token::Newline,
        ]
    );
    assert_eq!(
        tokens("//= // / /= **= *** -> -= <= == === r rs"),
        vec![
            Token::SlashSlashEqual,
            Token::SlashSlash,
            Token::Slash,
            Token::SlashEqual,
            Token::StarStar,
            Token::Equal,
            Token::StarStar,
            Token::Star,
            Token::RightArrow,
            Token::MinusEqual,
            Token::LessEqual,
            Token::EqualEqual,
            Token::EqualEqual,
            Token::Equal,
            id("r"),
            id("rs"),
            Token::Newline,
        ]
    );
    assert_eq!(
        tokens("and andy import imports _x9"),
        vec![
            Token::And,
            id("andy"),
            Token::Reserved("import".to_owned()),
            id("imports"),
            id("_x9"),
            Token::Newline,
        ]
    );
}

#[test]
fn strings_with_positions() {
    assert_eq!(
        lex("'ab' \"c\" r'd' '''e''' r\"\"\"f\"\"\""),
        vec![
            Got::Tok(0, text("ab"), 4),
            Got::Tok(5, text("c"), 8),
            Got::Tok(10, text("d"), 13),
            Got::Tok(14, text("e"), 21),
            Got::Tok(23, text("f"), 30),
            Got::Tok(30, Token::Newline, 30),
        ]
    );
}

#[test]
fn strings_with_escapes() {
    let cases = [
        ("'a\\nb'", "a\nb"),
        ("'\\r\\t\\0'", "\r\t\0"),
        ("'\\'\\\"\\\\'", "'\"\\"),
        ("'\\x41\\u{e9}\\0101'", "A\u{e9}A"),
        ("'a\\\nb'", "ab"),
        ("'\\z'", "\\z"),
        ("'a\rb'", "ab"),
        ("r'a\\nb\\''", "a\\nb'"),
        ("\"\"\"a\n\\\"b\"\"\"", "a\n\"b"),
        ("'''a'b''c'''", "a'b''c"),
        ("'é\\n€'", "é\n€"),
        ("''", ""),
        ("''''''", ""),
    ];
    for (source, value) in cases {
        assert_eq!(
            lex(source),
            vec![
                Got::Tok(
                    if source.starts_with('r') { 1 } else { 0 },
                    text(value),
                    source.len() as u64
                ),
                Got::Tok(source.len() as u64, Token::Newline, source.len() as u64),
            ]
        );
    }
}

#[test]
fn unfinished_strings() {
    // What follows the first quote is read as if there had been none.
    assert_eq!(
        lex("x 'a"),
        vec![
            Got::Tok(0, id("x"), 1),
            Got::Bad(LexemeError::UnfinishedStringLiteral, 2, 3),
            Got::Tok(3, id("a"), 4),
            Got::Tok(4, Token::Newline, 4),
        ]
    );
    assert_eq!(
        lex("r'a\n")[0],
        Got::Bad(LexemeError::UnfinishedStringLiteral, 1, 2)
    );
    assert_eq!(
        lex("'''ab\\n")[0],
        Got::Bad(LexemeError::UnfinishedStringLiteral, 0, 1)
    );
    // Here it is the backslash that the error is about.
    assert_eq!(
        lex("'ab\\")[0],
        Got::Bad(LexemeError::UnfinishedStringLiteral, 1, 1)
    );
}

#[test]
fn invalid_escapes() {
    for source in ["'ab\\x'", "'ab\\1'", "'ab\\u'", "'ab\\u{41'", "'ab\\u{}'"] {
        assert_eq!(
            lex(source)[0],
            Got::Bad(LexemeError::InvalidEscapeSequence, 1, 2)
        );
    }
    assert_eq!(
        lex("'\\u{80000000}'")[0],
        Got::Bad(LexemeError::InvalidEscapeSequence, 1, 2)
    );
}

#[test]
fn unclosed_triple_quotes() {
    // Two quotes, or one, do not close it; what follows its first quote is read once more.
    assert_eq!(
        lex("'''a''"),
        vec![
            Got::Bad(LexemeError::UnfinishedStringLiteral, 0, 1),
            Got::Tok(1, text(""), 3),
            Got::Tok(3, id("a"), 4),
            Got::Tok(4, text(""), 6),
            Got::Tok(6, Token::Newline, 6),
        ]
    );
    assert_eq!(
        lex("''''"),
        vec![
            Got::Bad(LexemeError::UnfinishedStringLiteral, 0, 1),
            Got::Bad(LexemeError::UnfinishedStringLiteral, 1, 2),
            Got::Tok(2, text(""), 4),
            Got::Tok(4, Token::Newline, 4),
        ]
    );
    for source in [
        "'''",
        "'''''",
        "''''abc",
        "'''a'",
        "'''a\n''",
        "\"\"\"a\\\"\"\"",
    ] {
        assert_eq!(
            lex(source)[0],
            Got::Bad(LexemeError::UnfinishedStringLiteral, 0, 1)
        );
    }
    assert_eq!(
        lex("r\"\"\"\"abc")[0],
        Got::Bad(LexemeError::UnfinishedStringLiteral, 1, 2)
    );
}

#[test]
fn escapes_of_no_character() {
    assert_eq!(
        lex("a '\\u{d800}'"),
        vec![
            Got::Tok(0, id("a"), 1),
            Got::Bad(LexemeError::InvalidEscapeSequence, 1, 2),
            Got::Bad(LexemeError::InvalidCharacter, 3, 4),
            Got::Tok(4, id("u"), 5),
            Got::Tok(5, Token::OpeningCurly, 6),
            Got::Tok(6, id("d800"), 10),
            Got::Tok(10, Token::ClosingCurly, 11),
            Got::Bad(LexemeError::UnfinishedStringLiteral, 11, 12),
            Got::Tok(12, Token::Newline, 12),
        ]
    );
    for source in ["'ab\\x110000'", "'ab\\u{110000}'", "'ab\\07777777'"] {
        assert_eq!(
            lex(source)[0],
            Got::Bad(LexemeError::InvalidEscapeSequence, 1, 2)
        );
    }
}

#[test]
fn text_that_is_longer_than_its_place() {
    let mut map = CodeMap::new();
    let filespan = map.add_file("test".to_owned(), "abc".to_owned()).span;
    let map = Arc::new(map);
    let dialect = Dialect { enable_tabs: false };
    // Tokens may lie beyond the place of the text in the code map, but errors may not.
    let mut lexer = Lexer::new("ab$ cd $", &dialect, map, filespan);
    assert!(matches!(lexer.try_next(), Ok(Some(Ok((0, Token::Identifier(_), 2))))));
    match lexer.try_next() {
        Ok(Some(Err(d))) => {
            assert_eq!(d.message, LexemeError::InvalidCharacter);
            assert_eq!(d.span, filespan.subspan(2, 3));
        }
        _ => panic!("no error"),
    }
    assert!(matches!(lexer.next(), Some(Ok((4, Token::Identifier(_), 6)))));
    assert!(matches!(lexer.try_next(), Err(BeyondFile)));
    assert!(matches!(lexer.try_next(), Ok(Some(Ok((8, Token::Newline, 8))))));
    assert!(matches!(lexer.try_next(), Ok(None)));
}

#[test]
fn blocks_are_balanced() {
    let source = "a\n  b\n    c\n  d\n  # x\n      e\nf(\n  g)\n h\n";
    let mut depth = 0;
    for token in tokens(source) {
        match token {
            Token::Indent => depth += 1,
            Token::Dedent => depth -= 1,
            _ => {}
        }
        assert!(depth >= 0);
    }
    assert_eq!(depth, 0);
}

#[test]
fn tokens_come_in_order() {
    let source = "if a:\n\tb = [1,\n 2]\r\n\tc('x', r\"y\")\n# z\nd\n";
    let mut last = 0;
    for got in lex(source) {
        match got {
            Got::Tok(begin, _, end) => {
                assert!(last <= begin);
                assert!(begin <= end && end <= source.len() as u64);
                last = begin;
            }
            other => panic!("{:?}", other),
        }
    }
}

#[test]
fn last_line_is_ended() {
    let got = lex("a\n b\n  c # d");
    let n = got.len();
    assert_eq!(
        got[n - 3..],
        [
            Got::Tok(12, Token::Newline, 12),
            Got::Tok(12, Token::Dedent, 12),
            Got::Tok(12, Token::Dedent, 12),
        ]
    );
}

#[test]
fn spaces_only_move_tokens() {
    assert_eq!(
        lex("a   +b"),
        vec![
            Got::Tok(0, id("a"), 1),
            Got::Tok(4, Token::Plus, 5),
            Got::Tok(5, id("b"), 6),
            Got::Tok(6, Token::Newline, 6),
        ]
    );
    assert_eq!(tokens("a   +b"), tokens("a+b"));
}

#[test]
fn quoted_text_is_read_back() {
    let values = ["", "plain", "it's", "a\\b\n\r\"c\"", "\0\t\u{7f}é€😀"];
    for value in values {
        for quote in ['\'', '"'] {
            let mut source = String::from(quote);
            for c in value.chars() {
                match c {
                    '\n' => source.push_str("\\n"),
                    '\r' => source.push_str("\\r"),
                    '\\' => source.push_str("\\\\"),
                    c if c == quote => {
                        source.push('\\');
                        source.push(c);
                    }
                    c => source.push(c),
                }
            }
            source.push(quote);
            let end = source.len() as u64;
            assert_eq!(lex(&source)[0], Got::Tok(0, text(value), end));
        }
    }
}

#[test]
fn plain_text_stands_for_itself() {
    let value = "a\nb é";
    for (before, after, at) in [("'''", "'''", 0), ("r\"\"\"", "\"\"\"", 1)] {
        let source = format!("{}{}{}", before, value, after);
        let end = source.len() as u64;
        assert_eq!(lex(&source)[0], Got::Tok(at, text(value), end));
    }
}

#[test]
fn tokens_do_not_overlap() {
    let source = "if a:\n    b = '''x\n'''\n\n  # c\n    [1,\n 2]\nd\n";
    let mut last = 0;
    for got in lex(source) {
        match got {
            Got::Tok(begin, _, end) => {
                assert!(last <= begin && begin <= end && end <= source.len() as u64);
                last = end;
            }
            other => panic!("{:?}", other),
        }
    }
}

#[test]
fn tokens_stand_for_their_text() {
    let source = "assert_x = lambda y: import not 0x1F + r'z' // \"\"\"w\"\"\" [é";
    for got in lex(source) {
        if let Got::Tok(begin, token, end) = got {
            let written = &source[begin as usize..end as usize];
            match token {
                Token::IntegerLiteral(n) => {
                    assert_eq!((written, n), ("0x1F", 31));
                }
                Token::StringLiteral(s) => {
                    assert!(written.contains(&s));
                    assert_eq!(written.chars().next(), written.chars().last());
                }
                Token::Newline => assert_eq!(written, ""),
                token => assert_eq!(written, token.unlex()),
            }
        }
    }
}

#[test]
fn layout_stays_outside_brackets() {
    let mut open = 0;
    let source = "a(\n  b[\n1])\n  c\n}\n  d\n e";
    for got in lex(source) {
        match got {
            Got::Tok(begin, token, _) => match token {
                Token::OpeningRound | Token::OpeningSquare | Token::OpeningCurly => open += 1,
                Token::ClosingRound | Token::ClosingSquare | Token::ClosingCurly => open -= 1,
                Token::Newline | Token::Indent | Token::Dedent => {
                    assert!(open == 0 || begin == source.len() as u64);
                }
                _ => {}
            },
            other => panic!("{:?}", other),
        }
    }
    assert_eq!(open, -1);
}

#[test]
fn one_text_has_many_spellings() {
    for source in [
        "\"a\\n\"",
        "\"\\x61\\n\"",
        "\"\\u{61}\\u{a}\"",
        "\"\\0141\\012\"",
        "\"a\r\\\n\\x0a\"",
    ] {
        let end = source.len() as u64;
        assert_eq!(
            lex(source),
            vec![
                Got::Tok(0, text("a\n"), end),
                Got::Tok(end, Token::Newline, end),
            ]
        );
    }
    // What follows an escape sequence may belong to it.
    assert_eq!(lex("\"\\0\" \"\\01\"")[..2], [
        Got::Tok(0, text("\0"), 4),
        Got::Tok(5, text("\u{1}"), 10),
    ]);
}

#[test]
fn errors_and_their_places() {
    let mut map = CodeMap::new();
    map.add_file("other".to_owned(), "something else".to_owned());
    let filespan = map.add_file("test".to_owned(), "abcdef".to_owned()).span;
    let map = Arc::new(map);
    let dialect = Dialect { enable_tabs: true };
    let lexer = Lexer::new("abcdef", &dialect, map.clone(), filespan);
    for (start, end) in [(0, 0), (1, 4), (6, 6)] {
        match lexer.err_span::<()>(LexemeError::Indentation, start, end) {
            Err(d) => {
                assert_eq!(d.message, LexemeError::Indentation);
                assert_eq!(d.span, filespan.subspan(start, end));
                assert!(Arc::ptr_eq(&d.codemap, &map));
            }
            Ok(()) => panic!("no error"),
        }
    }
    match lexer.err_pos::<()>(LexemeError::InvalidTab, 3) {
        Err(d) => {
            assert_eq!(d.message, LexemeError::InvalidTab);
            assert_eq!(d.span, filespan.subspan(3, 3));
        }
        Ok(()) => panic!("no error"),
    }
}
