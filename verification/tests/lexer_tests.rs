//! Single-pull tests of the scanner: each case feeds one input and checks
//! the first item the scanner yields, together with the context it leaves
//! behind.

use rdl_parser::error::Error;
use rdl_parser::lexer::{Context, Lexer, LexerItem};
use rdl_parser::pos::{spanned, Location, Spanned};
use rdl_parser::token::{Comment, CommentType, StringLiteral, Token};

fn loc(pos: usize) -> Location {
    Location::new(0, pos, pos)
}

type TestCase<'a> = (&'a str, LexerItem, Context);

fn check(tests: Vec<TestCase>) {
    for (input, expected, expected_context) in tests {
        let s = input.replace("➖", "");
        let input = &*s;
        let mut lexer = Lexer::new(input);

        let res = lexer.next().unwrap();

        assert_eq!(expected, res, "input: {:?}", input);
        assert_eq!(&expected_context, lexer.context(), "input: {:?}", input);
    }
}

#[test]
fn bump() {
    let input = "こんにちは";
    let mut lexer = Lexer::new(input);

    assert_eq!(
        Some((Location::new(0, 0, 0), Location::new(0, 1, 3), 'こ')),
        lexer.bump()
    );
    assert_eq!(
        Some((Location::new(0, 1, 3), Location::new(0, 2, 6), 'ん')),
        lexer.bump()
    );
    assert_eq!(
        Some((Location::new(0, 2, 6), Location::new(0, 3, 9), 'に')),
        lexer.bump()
    );
}

#[test]
fn peek() {
    let input = "##foo##";
    let lexer = Lexer::new(input);

    let res: Option<(Location, char)> = lexer.peek();

    assert_eq!(res, Some((loc(1), '#')))
}

#[test]
fn codepoint() {
    let input = "{2764}";
    let mut lexer = Lexer::new(input);

    let res = lexer.parse_codepoint(loc(0));

    assert_eq!(res, Ok('❤'))
}

#[test]
fn ident_start() {
    assert!(rdl_parser::chars::is_ident_start('a'));
    assert!(rdl_parser::chars::is_ident_start('A'));
    assert!(!rdl_parser::chars::is_ident_start('1'));
    assert!(!rdl_parser::chars::is_ident_start('-'));
    assert!(!rdl_parser::chars::is_ident_start('_'));
}

#[test]
fn ident_continue() {
    assert!(rdl_parser::chars::is_ident_continue('a'));
    assert!(rdl_parser::chars::is_ident_continue('A'));
    assert!(rdl_parser::chars::is_ident_continue('1'));
    assert!(rdl_parser::chars::is_ident_continue('-'));
    assert!(rdl_parser::chars::is_ident_continue('_'));
}

#[test]
fn lexer_string_start() {
    let tests = vec![
        (
            r#"➖"foo"➖"#,
            Ok(spanned(loc(0), loc(1), Token::StringDelimiter)),
            Context::String,
        ),
        (
            r#"➖""➖"#,
            Ok(spanned(loc(0), loc(1), Token::StringDelimiter)),
            Context::String,
        ),
        (
            r#"➖"➖"#,
            Ok(spanned(loc(0), loc(1), Token::StringDelimiter)),
            Context::String,
        ),
    ];

    check(tests)
}

fn hd(delimiter: &str, skip_leading_tabs: bool, quoted_delimiter: bool) -> Context {
    Context::HereDocString {
        delimiter: delimiter.to_string(),
        skip_leading_tabs,
        quoted_delimiter,
    }
}

#[test]
fn lexer_heredoc_start() {
    let tests = vec![
        (
            "<< EOF\nfoo\nEOF",
            Ok(spanned(loc(0), loc(6), Token::StringDelimiter)),
            hd("EOF", false, false),
        ),
        (
            "<<EOF\nfoo\nEOF",
            Ok(spanned(loc(0), loc(5), Token::StringDelimiter)),
            hd("EOF", false, false),
        ),
        (
            "<<   EOF\nfoo\nEOF",
            Ok(spanned(loc(0), loc(8), Token::StringDelimiter)),
            hd("EOF", false, false),
        ),
        (
            "<<- EOF\nfoo\nEOF",
            Ok(spanned(loc(0), loc(7), Token::StringDelimiter)),
            hd("EOF", true, false),
        ),
        (
            "<<-EOF\nfoo\nEOF",
            Ok(spanned(loc(0), loc(6), Token::StringDelimiter)),
            hd("EOF", true, false),
        ),
        (
            "<<-   EOF\nfoo\nEOF",
            Ok(spanned(loc(0), loc(9), Token::StringDelimiter)),
            hd("EOF", true, false),
        ),
        (
            "<< - EOF\nfoo\nEOF",
            Ok(spanned(loc(0), loc(8), Token::StringDelimiter)),
            hd("- EOF", false, false),
        ),
        (
            "<<   - EOF\nfoo\nEOF",
            Ok(spanned(loc(0), loc(10), Token::StringDelimiter)),
            hd("- EOF", false, false),
        ),
        (
            "<< -   EOF\nfoo\nEOF",
            Ok(spanned(loc(0), loc(10), Token::StringDelimiter)),
            hd("-   EOF", false, false),
        ),
        (
            "<< \"EOF\"\nfoo\nEOF",
            Ok(spanned(loc(0), loc(8), Token::StringDelimiter)),
            hd("EOF", false, true),
        ),
        (
            "<<\"EOF\"\nfoo\nEOF",
            Ok(spanned(loc(0), loc(7), Token::StringDelimiter)),
            hd("EOF", false, true),
        ),
        (
            "<<   \"EOF\"\nfoo\nEOF",
            Ok(spanned(loc(0), loc(10), Token::StringDelimiter)),
            hd("EOF", false, true),
        ),
        (
            "<<- \"EOF\"\nfoo\nEOF",
            Ok(spanned(loc(0), loc(9), Token::StringDelimiter)),
            hd("EOF", true, true),
        ),
        (
            "<<-\"EOF\"\nfoo\nEOF",
            Ok(spanned(loc(0), loc(8), Token::StringDelimiter)),
            hd("EOF", true, true),
        ),
        (
            "<<-   \"EOF\"\nfoo\nEOF",
            Ok(spanned(loc(0), loc(11), Token::StringDelimiter)),
            hd("EOF", true, true),
        ),
        (
            "<<\nfoo\nEOF",
            Err(spanned(loc(0), loc(2), Error::MissingHeredocDelimiter)),
            Context::General,
        ),
        (
            "<< \"FOO\nfoo\nEOF",
            Err(spanned(loc(0), loc(7), Error::UnterminatedHeredocDelimiter)),
            Context::General,
        ),
        (
            "<< 'FOO\nfoo\nEOF",
            Err(spanned(loc(0), loc(7), Error::UnterminatedHeredocDelimiter)),
            Context::General,
        ),
        (
            "<< \"FOO'\nfoo\nEOF",
            Err(spanned(loc(0), loc(8), Error::UnterminatedHeredocDelimiter)),
            Context::General,
        ),
        (
            "<< 'FOO\"\nfoo\nEOF",
            Err(spanned(loc(0), loc(8), Error::UnterminatedHeredocDelimiter)),
            Context::General,
        ),
    ];

    check(tests)
}

fn int_case(input: &'static str, end: usize, value: i64) -> TestCase<'static> {
    (
        input,
        Ok(spanned(loc(0), loc(end), Token::IntLiteral(value))),
        Context::General,
    )
}

fn float_case(input: &'static str, end: usize, value: f64) {
    let mut lexer = Lexer::new(input);
    let res = lexer.next().unwrap();
    match res {
        Ok(Spanned { span, value: Token::FloatLiteral(text) }) => {
            assert_eq!(span.start(), loc(0), "input: {:?}", input);
            assert_eq!(span.end(), loc(end), "input: {:?}", input);
            let parsed: f64 = text.parse().unwrap();
            assert_eq!(parsed, value, "input: {:?} text: {:?}", input, text);
        }
        other => panic!("expected a float literal for {:?}, got {:?}", input, other),
    }
    assert!(lexer.errors.is_empty(), "input: {:?}", input);
}

#[test]
fn numeric() {
    let tests = vec![
        int_case("1234", 4, 1234),
        int_case("-1234", 5, -1234),
        int_case("12_34", 5, 1234),
        int_case("0x1234", 6, 0x1234),
        int_case("-0x1234", 7, -0x1234),
        int_case("0x12_34", 7, 0x1234),
        int_case("0b1010", 6, 0b1010),
        int_case("-0b1010", 7, -0b1010),
        int_case("0b10_10", 7, 0b1010),
        int_case("0o1234", 6, 0o1234),
        int_case("-0o1234", 7, -0o1234),
        int_case("0o12_34", 7, 0o1234),
    ];
    check(tests);

    float_case("12.34", 5, 12.34);
    float_case("-12.34", 6, -12.34);
    float_case("123_456.0", 9, 123456.0);
    float_case("12.34e5", 7, 1234000.0);
    float_case("12.34e0_5", 9, 1234000.0);
    float_case("1234e5", 6, 123400000.0);
    float_case("1234e0_5", 8, 123400000.0);
    float_case("1234e-2", 7, 12.34);
    float_case("1234e+2", 7, 123400.0);
    float_case("1234.56e-2", 10, 12.3456);
    float_case("1234.56e+2", 10, 123456.0);
}

#[test]
fn char_literal() {
    let tests = vec![
        (
            "'a'",
            Ok(spanned(loc(0), loc(3), Token::CharLiteral('a'))),
            Context::General,
        ),
        (
            r#"'\n'"#,
            Ok(spanned(loc(0), loc(4), Token::CharLiteral('\n'))),
            Context::General,
        ),
        (
            r#"'\r'"#,
            Ok(spanned(loc(0), loc(4), Token::CharLiteral('\r'))),
            Context::General,
        ),
        (
            r#"'\t'"#,
            Ok(spanned(loc(0), loc(4), Token::CharLiteral('\t'))),
            Context::General,
        ),
        (
            r#"'\''"#,
            Ok(spanned(loc(0), loc(4), Token::CharLiteral('\''))),
            Context::General,
        ),
        (
            r#"'\u{2764}'"#,
            Ok(spanned(loc(0), loc(10), Token::CharLiteral('❤'))),
            Context::General,
        ),
        (
            r#"'\u{}'"#,
            Ok(spanned(loc(0), loc(6), Token::CharLiteral('\0'))),
            Context::General,
        ),
        (
            r#"'\u{k}'"#,
            Ok(spanned(loc(0), loc(7), Token::CharLiteral('\0'))),
            Context::General,
        ),
        (
            r#"'\"'"#,
            Ok(spanned(loc(0), loc(4), Token::CharLiteral('\0'))),
            Context::General,
        ),
    ];

    check(tests);
}

#[test]
fn operators() {
    let tests = vec![
        ("!", Ok(spanned(loc(0), loc(1), Token::LogicalNot)), Context::General),
        ("&&", Ok(spanned(loc(0), loc(2), Token::LogicalAnd)), Context::General),
        ("||", Ok(spanned(loc(0), loc(2), Token::LogicalOr)), Context::General),
        ("~", Ok(spanned(loc(0), loc(1), Token::BitwiseNot)), Context::General),
        ("&", Ok(spanned(loc(0), loc(1), Token::BitwiseAnd)), Context::General),
        ("|", Ok(spanned(loc(0), loc(1), Token::BitwiseOr)), Context::General),
        ("^", Ok(spanned(loc(0), loc(1), Token::BitwiseXOr)), Context::General),
        ("<:", Ok(spanned(loc(0), loc(2), Token::BitwiseShiftLeft)), Context::General),
        (":>", Ok(spanned(loc(0), loc(2), Token::BitwiseShiftRight)), Context::General),
        ("*", Ok(spanned(loc(0), loc(1), Token::Multiplication)), Context::General),
        ("/", Ok(spanned(loc(0), loc(1), Token::Division)), Context::General),
        ("%", Ok(spanned(loc(0), loc(1), Token::Modulo)), Context::General),
        ("+", Ok(spanned(loc(0), loc(1), Token::Addition)), Context::General),
        ("-", Ok(spanned(loc(0), loc(1), Token::Subtraction)), Context::General),
        ("==", Ok(spanned(loc(0), loc(2), Token::Equal)), Context::General),
        ("!=", Ok(spanned(loc(0), loc(2), Token::NotEqual)), Context::General),
        ("<", Ok(spanned(loc(0), loc(1), Token::Less)), Context::General),
        ("<=", Ok(spanned(loc(0), loc(2), Token::LessOrEqual)), Context::General),
        (">", Ok(spanned(loc(0), loc(1), Token::Greater)), Context::General),
        (">=", Ok(spanned(loc(0), loc(2), Token::GreaterOrEqual)), Context::General),
        (".", Ok(spanned(loc(0), loc(1), Token::Dot)), Context::General),
        ("..", Ok(spanned(loc(0), loc(2), Token::DotDot)), Context::General),
        ("=", Ok(spanned(loc(0), loc(1), Token::Assign)), Context::General),
        ("->", Ok(spanned(loc(0), loc(2), Token::RArrow)), Context::General),
        (",", Ok(spanned(loc(0), loc(1), Token::Comma)), Context::General),
        ("{", Ok(spanned(loc(0), loc(1), Token::LBrace)), Context::General),
        ("[", Ok(spanned(loc(0), loc(1), Token::LBracket)), Context::General),
        ("(", Ok(spanned(loc(0), loc(1), Token::LParen)), Context::General),
        ("}", Ok(spanned(loc(0), loc(1), Token::RBrace)), Context::General),
        ("]", Ok(spanned(loc(0), loc(1), Token::RBracket)), Context::General),
        (")", Ok(spanned(loc(0), loc(1), Token::RParen)), Context::General),
    ];

    check(tests);
}

fn line(content: &str) -> Token<String> {
    Token::Comment(Comment { typ: CommentType::Line, content: content.to_string() })
}

fn docline(content: &str) -> Token<String> {
    Token::DocComment(Comment { typ: CommentType::Line, content: content.to_string() })
}

fn block(content: &str) -> Token<String> {
    Token::Comment(Comment { typ: CommentType::Block, content: content.to_string() })
}

fn docblock(content: &str) -> Token<String> {
    Token::DocComment(Comment { typ: CommentType::Block, content: content.to_string() })
}

#[test]
fn line_comment() {
    let tests = vec![
        ("// foo", Ok(spanned(loc(0), loc(6), line("foo"))), Context::General),
        ("//foo", Ok(spanned(loc(0), loc(5), line("foo"))), Context::General),
        ("//   foo", Ok(spanned(loc(0), loc(8), line("foo"))), Context::General),
        ("/// foo", Ok(spanned(loc(0), loc(7), docline("foo"))), Context::General),
        ("///foo", Ok(spanned(loc(0), loc(6), docline("foo"))), Context::General),
        ("///   foo", Ok(spanned(loc(0), loc(9), docline("foo"))), Context::General),
    ];

    check(tests);
}

#[test]
fn block_comment() {
    let tests = vec![
        ("/* foo */", Ok(spanned(loc(0), loc(9), block("foo"))), Context::General),
        ("/*foo*/", Ok(spanned(loc(0), loc(7), block("foo"))), Context::General),
        ("/*   foo   */", Ok(spanned(loc(0), loc(13), block("foo"))), Context::General),
        ("/** foo */", Ok(spanned(loc(0), loc(10), docblock("foo"))), Context::General),
        ("/**foo*/", Ok(spanned(loc(0), loc(8), docblock("foo"))), Context::General),
        ("/**   foo   */", Ok(spanned(loc(0), loc(14), docblock("foo"))), Context::General),
        (
            "/* foo *",
            Err(spanned(loc(0), loc(8), Error::UnexpectedEof)),
            Context::General,
        ),
    ];

    check(tests);
}

#[test]
fn identifier() {
    let tests = vec![
        ("true", Ok(spanned(loc(0), loc(4), Token::BoolLiteral(true))), Context::General),
        ("false", Ok(spanned(loc(0), loc(5), Token::BoolLiteral(false))), Context::General),
        ("resource", Ok(spanned(loc(0), loc(8), Token::Resource)), Context::General),
        ("data", Ok(spanned(loc(0), loc(4), Token::Data)), Context::General),
        ("provider", Ok(spanned(loc(0), loc(8), Token::Provider)), Context::General),
        ("module", Ok(spanned(loc(0), loc(6), Token::Module)), Context::General),
        ("let", Ok(spanned(loc(0), loc(3), Token::Let)), Context::General),
        ("if", Ok(spanned(loc(0), loc(2), Token::If)), Context::General),
        ("else", Ok(spanned(loc(0), loc(4), Token::Else)), Context::General),
        ("for", Ok(spanned(loc(0), loc(3), Token::Forall)), Context::General),
        ("in", Ok(spanned(loc(0), loc(2), Token::In)), Context::General),
        ("while", Ok(spanned(loc(0), loc(5), Token::Do)), Context::General),
        ("break", Ok(spanned(loc(0), loc(5), Token::Break)), Context::General),
        ("continue", Ok(spanned(loc(0), loc(8), Token::Continue)), Context::General),
        ("match", Ok(spanned(loc(0), loc(5), Token::Match)), Context::General),
        ("return", Ok(spanned(loc(0), loc(6), Token::Return)), Context::General),
        (
            "foo",
            Ok(spanned(loc(0), loc(3), Token::Identifier("foo".to_string()))),
            Context::General,
        ),
    ];

    check(tests);
}

#[test]
fn lexer_string_simple() {
    let tests = vec![
        (
            r#"➖"foo"➖"#,
            Ok(spanned(
                loc(1),
                loc(4),
                Token::String(StringLiteral::Escaped("foo".to_string())),
            )),
        ),
        (
            r#"➖"foo\n"➖"#,
            Ok(spanned(
                loc(1),
                loc(6),
                Token::String(StringLiteral::Escaped("foo\\n".to_string())),
            )),
        ),
    ];

    for (input, expected) in tests {
        let s = input.replace("➖", "");
        let input = &*s;
        let mut lexer = Lexer::new(input);

        let res = lexer.next().unwrap();
        assert_eq!(Ok(spanned(loc(0), loc(1), Token::StringDelimiter)), res);
        assert_eq!(&Context::String, lexer.context());

        let res = lexer.next().unwrap();
        assert_eq!(expected, res);
        assert_eq!(&Context::String, lexer.context());

        let res = lexer.next().unwrap();
        if let Ok(Spanned { span: _, value }) = res {
            assert_eq!(Token::StringDelimiter, value)
        } else {
            panic!("{:?}", res);
        }
    }
}

#[test]
fn lexer_string_interpolation() {
    let tests = vec![
        (r#"➖"123${}"➖"#, Token::StringInterpolation),
        (r#"➖"123%{}"➖"#, Token::StringDirective),
    ];

    for (input, expected) in tests {
        let s = input.replace("➖", "");
        let input = &*s;
        let mut lexer = Lexer::new(input);

        let res = lexer.next().unwrap();
        assert_eq!(Ok(spanned(loc(0), loc(1), Token::StringDelimiter)), res);
        assert_eq!(&Context::String, lexer.context());

        let res = lexer.next().unwrap();
        assert_eq!(
            Ok(spanned(
                loc(1),
                loc(4),
                Token::String(StringLiteral::Escaped("123".to_string()))
            )),
            res
        );
        assert_eq!(&Context::String, lexer.context());

        let res = lexer.next().unwrap();
        if let Ok(Spanned { span: _, value }) = res {
            assert_eq!(expected, value)
        } else {
            panic!("{:?}", res);
        }
    }
}

#[test]
fn lexer_heredoc() {
    // The body lines keep their trailing newlines and the body token ends
    // where the delimiter line starts, so consecutive spans leave no gap.
    let input = "<<-EOF\n\n  foo\n    bar\nEOF";
    let mut lexer = Lexer::new(input);

    let res = lexer.next().unwrap();
    assert_eq!(Ok(spanned(loc(0), loc(6), Token::StringDelimiter)), res);
    assert_eq!(&hd("EOF", true, false), lexer.context());

    let res = lexer.next().unwrap();
    assert_eq!(
        Ok(spanned(
            Location::new(1, 0, 7),
            Location::new(4, 0, 22),
            Token::HeredocString(vec![
                "\n".to_string(),
                "foo\n".to_string(),
                "  bar\n".to_string()
            ]),
        )),
        res
    );
    assert_eq!(
        &Context::HereDocStringEnd {
            start: Location::new(4, 0, 22),
            end: Location::new(4, 3, 25),
        },
        lexer.context()
    );

    let res = lexer.next().unwrap();
    if let Ok(Spanned { span: _, value }) = res {
        assert_eq!(Token::StringDelimiter, value)
    } else {
        panic!("{:?}", res);
    }
}
