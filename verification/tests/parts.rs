use starlark_lexer::diagnostic::LexemeError;
use starlark_lexer::grammar::next_token;
use starlark_lexer::indent::read_margin;
use starlark_lexer::indent::settle_line;
use starlark_lexer::indent::Change;
use starlark_lexer::number::consume_int_r;
use starlark_lexer::number::parse_i32;
use starlark_lexer::string_literal::escape;
use starlark_lexer::string_literal::read_string;
use starlark_lexer::string_literal::Mistake;
use starlark_lexer::string_literal::Quoting;
use starlark_lexer::string_literal::StringRead;
use starlark_lexer::text::enumerate_chars;
use starlark_lexer::text::str_eq;
use starlark_lexer::token::Token;

#[test]
fn characters_with_their_ends() {
    let mut it = enumerate_chars("aé€😀b");
    let mut items = Vec::new();
    while let Some(item) = it.next() {
        items.push(item);
    }
    assert_eq!(
        items,
        vec![(1, 'a'), (3, 'é'), (6, '€'), (10, '😀'), (11, 'b')]
    );
    assert_eq!(it.next(), None);
    assert_eq!(it.pos(), 11);
}

#[test]
fn texts_are_compared() {
    assert!(str_eq("aé", "aé"));
    assert!(!str_eq("aé", "ae"));
    assert!(!str_eq("a", "ab"));
}

#[test]
fn digits_that_fit() {
    assert_eq!(parse_i32("2147483647", 10), Some(2147483647));
    assert_eq!(parse_i32("2147483648", 10), None);
    assert_eq!(parse_i32("fF", 16), Some(255));
    assert_eq!(parse_i32("101", 2), Some(5));
    assert_eq!(parse_i32("", 10), None);
}

#[test]
fn digits_are_taken_off() {
    let mut it = enumerate_chars("17z");
    assert_eq!(consume_int_r(&mut it, 8), Ok(15));
    assert_eq!(it.as_str(), "z");
    assert_eq!(consume_int_r(&mut it, 16), Err(()));
    assert_eq!(it.as_str(), "z");
}

#[test]
fn escapes_one_by_one() {
    let good = [
        ("nx", "\n", "x"),
        ("0", "\0", ""),
        ("09", "\0", "9"),
        ("0101z", "A", "z"),
        ("x41g", "A", "g"),
        ("u{20aC}", "€", ""),
        ("u{10ffff}", "\u{10ffff}", ""),
        ("\nq", "", "q"),
        ("qé", "\\q", "é"),
    ];
    for (source, value, rest) in good {
        let mut it = enumerate_chars(source);
        let mut res = "<".to_owned();
        assert_eq!(escape(&mut it, 0, &mut res), Ok(()));
        assert_eq!(res, format!("<{}", value));
        assert_eq!(it.as_str(), rest);
    }
    // A mistake is said to be at the first character behind the backslash.
    let bad = [
        ("\\5", 2),
        ("\\xg", 2),
        ("\\u41", 2),
        ("\\u{41", 2),
        ("\\u{}", 2),
        ("\\u{d800}", 2),
        ("\\x110000", 2),
        ("\\", 1),
    ];
    for (source, end) in bad {
        let mut it = enumerate_chars(source);
        assert_eq!(it.next(), Some((1, '\\')));
        let mut res = "k".to_owned();
        let message = if end == 1 {
            LexemeError::UnfinishedStringLiteral
        } else {
            LexemeError::InvalidEscapeSequence
        };
        let mistake = Mistake {
            message,
            begin: 1,
            end,
        };
        assert_eq!(escape(&mut it, 1, &mut res), Err(mistake));
        assert_eq!(res, "k");
    }
}

#[test]
fn literals_are_split_off() {
    let q = Quoting {
        quote: '"',
        triple: true,
        raw: false,
    };
    match read_string("\"\"a\"b\\\n\"\"\"c", q, 7) {
        StringRead::Literal { text, rest, size } => {
            assert_eq!(text, "a\"b");
            assert_eq!(rest, "c");
            assert_eq!(size, 10);
        }
        _ => panic!("no literal"),
    }
    // Nothing closes these.
    for s in ["\"\"", "\"\"\"abc", "\"\"a\"\"", "\"\"a\\\"\"\""] {
        assert!(matches!(
            read_string(s, q, 7),
            StringRead::Error {
                message: LexemeError::UnfinishedStringLiteral,
                begin: 7,
                end: 8
            }
        ));
    }
}

#[test]
fn tokens_are_split_off() {
    let raw = next_token("  # c\n\\\n x", 10);
    assert_eq!(raw.token, Some(Token::Newline));
    assert_eq!((raw.start, raw.end), (15, 16));
    assert_eq!(raw.rest, "\\\n x");
    let raw = next_token(raw.rest, raw.end);
    assert_eq!(raw.token, Some(Token::Identifier("x".to_owned())));
    assert_eq!((raw.start, raw.end), (19, 20));
    let raw = next_token(" ", 3);
    assert_eq!(raw.token, None);
    assert_eq!((raw.start, raw.end), (4, 4));
}

#[test]
fn margins() {
    let m = read_margin("  \t x\n");
    let line = m.line.unwrap();
    assert_eq!((line.at, line.spaces, line.tabs), (0, 3, 1));
    assert_eq!((m.size, m.rest), (4, "x\n"));

    let m = read_margin("  # é\n x");
    let line = m.line.unwrap();
    assert_eq!((line.at, line.spaces, line.tabs), (7, 1, 0));
    assert_eq!((m.size, m.rest), (8, "x"));

    let m = read_margin("  \nx");
    assert!(m.line.is_none());
    assert_eq!((m.size, m.rest), (2, "\nx"));

    let m = read_margin(" # x");
    assert!(m.line.is_none());
    assert_eq!((m.size, m.rest), (4, ""));

    // A carriage return is something on the line.
    assert_eq!(read_margin(" \r\n").line.unwrap().spaces, 1);
}

#[test]
fn lines_open_and_close_blocks() {
    let mut levels = vec![];
    assert_eq!(settle_line(&mut levels, 0), Change::Dedents(0));
    assert_eq!(settle_line(&mut levels, 2), Change::Indent);
    assert_eq!(settle_line(&mut levels, 4), Change::Indent);
    assert_eq!(settle_line(&mut levels, 8), Change::Indent);
    assert_eq!(levels, vec![2, 4, 8]);
    assert_eq!(settle_line(&mut levels, 8), Change::Dedents(0));
    assert_eq!(settle_line(&mut levels, 2), Change::Dedents(2));
    assert_eq!(levels, vec![2]);
    assert_eq!(settle_line(&mut levels, 1), Change::Misaligned);
    assert_eq!(levels, vec![]);
}
