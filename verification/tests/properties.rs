//! Behavioural properties of the scanner: numeric values, span
//! round-trips, heredoc stripping, error reporting and robustness on
//! arbitrary Unicode input.

use rdl_parser::error::Error;
use rdl_parser::heredoc::strip_heredoc_indent;
use rdl_parser::lexer::{Lexer, LexerItem};
use rdl_parser::pos::Location;
use rdl_parser::token::Token;

fn loc(pos: usize) -> Location {
    Location::new(0, pos, pos)
}

fn first(input: &str) -> LexerItem {
    Lexer::new(input).next().unwrap()
}

fn first_value(input: &str) -> Token<String> {
    first(input).unwrap().value
}

fn first_error_kind(input: &str) -> Error {
    first(input).unwrap_err().value
}

fn first_diag(input: &str) -> Error {
    let mut lexer = Lexer::new(input);
    lexer.next().unwrap().unwrap();
    assert!(!lexer.errors.is_empty(), "no diagnostic for {:?}", input);
    lexer.errors[0].value
}

#[test]
fn decimal_value_matches_arithmetic_value() {
    assert_eq!(first_value("12_34"), Token::IntLiteral(1234));
    assert_eq!(first_value("9_0_0"), Token::IntLiteral(900));
    assert_eq!(first_value("+17"), Token::IntLiteral(17));
    assert_eq!(
        first_value("9223372036854775807"),
        Token::IntLiteral(i64::MAX)
    );
    assert_eq!(
        first_value("-9223372036854775808"),
        Token::IntLiteral(i64::MIN)
    );
}

#[test]
fn radix_value_matches_stated_radix() {
    assert_eq!(first_value("0x12_34"), Token::IntLiteral(4660));
    assert_eq!(first_value("-0b10_10"), Token::IntLiteral(-10));
    assert_eq!(first_value("0o12_34"), Token::IntLiteral(668));
    assert_eq!(first_value("0xdead_BEEF"), Token::IntLiteral(0xDEAD_BEEF));
}

#[test]
fn float_composes_fraction_and_exponent() {
    match first_value("1234.56e-2") {
        Token::FloatLiteral(t) => assert_eq!(t.parse::<f64>().unwrap(), 12.3456),
        other => panic!("{:?}", other),
    }
    match first_value("1234e+2") {
        Token::FloatLiteral(t) => assert_eq!(t.parse::<f64>().unwrap(), 123400.0),
        other => panic!("{:?}", other),
    }
}

#[test]
fn spans_cover_the_input_without_gaps_or_overlaps() {
    // Tokens separated only by their own characters: consecutive spans
    // must tile the input; the final offset is the text's byte length.
    let input = "resource(foo)=1234..\"ab\"";
    let mut lexer = Lexer::new(input);
    let mut offset = 0usize;
    loop {
        let item = lexer.next().unwrap().unwrap();
        if item.value == Token::EOF {
            assert_eq!(item.span.start().absolute, input.len());
            break;
        }
        assert_eq!(item.span.start().absolute, offset, "gap before {:?}", item);
        assert!(item.span.start().absolute <= item.span.end().absolute);
        offset = item.span.end().absolute;
    }
    assert_eq!(offset, input.len());
}

#[test]
fn spans_advance_past_whitespace_monotonically() {
    let input = "let  x = 1 \t ..";
    let mut lexer = Lexer::new(input);
    let mut offset = 0usize;
    loop {
        let item = lexer.next().unwrap().unwrap();
        if item.value == Token::EOF {
            break;
        }
        assert!(item.span.start().absolute >= offset, "overlap at {:?}", item);
        assert!(item.span.start().absolute <= item.span.end().absolute);
        offset = item.span.end().absolute;
    }
}

#[test]
fn heredoc_stripping_is_minimal_and_idempotent() {
    let input = "<<-EOF\n\n  foo\n    bar\nEOF";
    let mut lexer = Lexer::new(input);
    lexer.next().unwrap().unwrap();
    let body = lexer.next().unwrap().unwrap();
    match body.value {
        Token::HeredocString(lines) => {
            assert_eq!(
                lines,
                vec!["\n".to_string(), "foo\n".to_string(), "  bar\n".to_string()]
            );
        }
        other => panic!("{:?}", other),
    }

    // a second stripping pass changes nothing
    let once: Vec<Vec<char>> = vec![
        "\n".chars().collect(),
        "foo\n".chars().collect(),
        "  bar\n".chars().collect(),
    ];
    let twice = strip_heredoc_indent(&once);
    assert_eq!(once, twice);
}

#[test]
fn quoted_heredoc_delimiter_disables_interpolation() {
    let input = "<<'EOF'\n${x}\nEOF";
    let mut lexer = Lexer::new(input);
    lexer.next().unwrap().unwrap();
    let body = lexer.next().unwrap().unwrap();
    match body.value {
        Token::HeredocString(lines) => {
            assert_eq!(lines, vec!["${x}\n".to_string()]);
        }
        other => panic!("{:?}", other),
    }
}

#[test]
fn malformed_heredoc_headers_fail_closed() {
    assert_eq!(
        first_error_kind("<<\nfoo\nEOF"),
        Error::MissingHeredocDelimiter
    );
    assert_eq!(
        first_error_kind("<< \"FOO\nfoo\nEOF"),
        Error::UnterminatedHeredocDelimiter
    );
}

#[test]
fn unicode_escape_yields_the_scalar() {
    assert_eq!(first_value("'\\u{2764}'"), Token::CharLiteral('❤'));
    let mut lexer = Lexer::new("'\\u{}'");
    let item = lexer.next().unwrap().unwrap();
    assert_eq!(item.value, Token::CharLiteral('\0'));
    assert_eq!(lexer.errors[0].value, Error::EmptyUnicodeEscape);
}

#[test]
fn recoverable_numeric_errors_emit_placeholders() {
    assert_eq!(first_diag("99999999999999999999"), Error::NonParseableInt);
    assert_eq!(first_value("99999999999999999999"), Token::IntLiteral(0));
    assert_eq!(first_diag("0x"), Error::LiteralIncomplete);
    assert_eq!(first_value("0x"), Token::IntLiteral(0));
    assert_eq!(first_diag("5x3"), Error::HexLiteralWrongPrefix);
    assert_eq!(first_diag("5b1"), Error::BinLiteralWrongPrefix);
    assert_eq!(first_diag("5o1"), Error::OctLiteralWrongPrefix);
    assert_eq!(
        first_diag("0xFFFF_FFFF_FFFF_FFFF_F"),
        Error::HexLiteralOverflow
    );
    assert_eq!(
        first_diag("-0xFFFF_FFFF_FFFF_FFFF_F"),
        Error::HexLiteralUnderflow
    );
    assert_eq!(first_diag("1234e"), Error::NonParseableFloat);
    match first_value("1234e") {
        Token::FloatLiteral(t) => assert_eq!(t, "0"),
        other => panic!("{:?}", other),
    }
}

#[test]
fn recoverable_char_errors_emit_placeholders() {
    assert_eq!(first_diag("''"), Error::EmptyCharLiteral);
    assert_eq!(first_value("''"), Token::CharLiteral('\0'));
    assert_eq!(first_diag("'ab'"), Error::UnterminatedCharLiteral);
    assert_eq!(first_value("'ab'"), Token::CharLiteral('a'));
    assert_eq!(first_diag("'\\q'"), Error::UnexpectedEscapeCode('q'));
    assert_eq!(first_diag("'\\uX'"), Error::MalformedUnicodeEscape);
    assert_eq!(first_diag("'\\u{D800}'"), Error::InvalidUnicodeEscape);
}

#[test]
fn fatal_errors_are_returned_in_place_of_tokens() {
    assert_eq!(first_error_kind("@"), Error::UnexpectedChar('@'));
    assert_eq!(first_error_kind("/* foo *"), Error::UnexpectedEof);
    let mut lexer = Lexer::new("\"abc");
    lexer.next().unwrap().unwrap();
    assert_eq!(lexer.next().unwrap().unwrap_err().value, Error::UnexpectedEof);
    let mut lexer = Lexer::new("<<EOF\nabc");
    lexer.next().unwrap().unwrap();
    assert_eq!(lexer.next().unwrap().unwrap_err().value, Error::UnexpectedEof);
}

#[test]
fn diagnostics_arrive_in_source_order() {
    let mut lexer = Lexer::new("'' 0x 1234e");
    loop {
        let item = lexer.next().unwrap().unwrap();
        if item.value == Token::EOF {
            break;
        }
    }
    let kinds: Vec<Error> = lexer.errors.iter().map(|e| e.value).collect();
    assert_eq!(
        kinds,
        vec![
            Error::EmptyCharLiteral,
            Error::LiteralIncomplete,
            Error::NonParseableFloat,
        ]
    );
}

#[test]
fn scanning_never_panics_on_arbitrary_unicode() {
    let inputs = [
        "héllo wörld",
        "❤❤❤",
        "こんにちは 1234",
        "\"παρεμβολή ${x}\"",
        "'\u{1F600}'",
        "\u{0}\u{1}\u{7F}",
        "a\u{300}\u{301}combining",
        "🌍🌍🌍 << 🌍",
        "resource \"データ\" { name = \"値\" }",
    ];
    for input in inputs.iter() {
        let mut lexer = Lexer::new(input);
        let mut pulls = 0usize;
        loop {
            let item = lexer.next().unwrap();
            pulls += 1;
            if let Ok(st) = &item {
                if st.value == Token::EOF {
                    assert_eq!(st.span.end().absolute, input.len());
                    break;
                }
            }
            if pulls > 10_000 {
                break;
            }
        }
    }
}

#[test]
fn multibyte_characters_advance_by_encoded_length() {
    let mut lexer = Lexer::new("❤");
    let res = lexer.bump();
    assert_eq!(res, Some((loc(0), Location::new(0, 1, 3), '❤')));
}

#[test]
fn interpolation_counts_nested_braces() {
    let input = "\"${ { } }\"";
    let mut lexer = Lexer::new(input);
    let mut values = Vec::new();
    loop {
        let item = lexer.next().unwrap().unwrap();
        if item.value == Token::EOF {
            break;
        }
        values.push(item.value);
    }
    assert_eq!(
        values,
        vec![
            Token::StringDelimiter,
            Token::StringInterpolation,
            Token::LBrace,
            Token::RBrace,
            Token::StringInterpolation,
            Token::StringDelimiter,
        ]
    );
}

#[test]
fn end_of_input_marker_is_idempotent() {
    let mut lexer = Lexer::new("x");
    lexer.next().unwrap().unwrap();
    for _ in 0..3 {
        let item = lexer.next().unwrap().unwrap();
        assert_eq!(item.value, Token::EOF);
    }
}
