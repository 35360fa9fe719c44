//! Multi-pull tests of the scanner: each case pulls a sequence of items
//! and checks every token, error and context along the way.

use rdl_parser::error::Error;
use rdl_parser::lexer::{Context, Lexer};
use rdl_parser::pos::{spanned, Location};
use rdl_parser::token::{StringLiteral, Token};

fn loc(pos: usize) -> Location {
    Location::new(0, pos, pos)
}

struct TestCase<'a> {
    description: &'a str,
    input: &'a str,
    steps: Vec<TestStep<'a>>,
}

struct TestStep<'a> {
    description: &'a str,
    token: Result<(Location, Location, Token<String>), (Location, Location, Error)>,
    context: Context,
}

fn run(tests: Vec<TestCase>) {
    for case in tests {
        let input = &*case.input.replace("➖", "");
        let mut lexer = Lexer::new(input);

        for step in case.steps {
            let exp_token = match step.token {
                Ok((start, end, token)) => Ok(spanned(start, end, token)),
                Err((start, end, err)) => Err(spanned(start, end, err)),
            };

            let res = lexer.next().unwrap();

            assert_eq!(
                exp_token, res,
                "[{}]/[{}]: token",
                case.description, step.description
            );
            assert_eq!(
                &step.context,
                lexer.context(),
                "[{}]/[{}]: context",
                case.description,
                step.description
            );
        }
    }
}

fn hd(delimiter: &str, skip_leading_tabs: bool, quoted_delimiter: bool) -> Context {
    Context::HereDocString {
        delimiter: delimiter.to_string(),
        skip_leading_tabs,
        quoted_delimiter,
    }
}

fn escaped(text: &str) -> Token<String> {
    Token::String(StringLiteral::Escaped(text.to_string()))
}

fn heredoc_lines(lines: &[&str]) -> Token<String> {
    Token::HeredocString(lines.iter().map(|l| l.to_string()).collect())
}

#[test]
fn lexer_test_string_start() {
    let tests = vec![
        TestCase {
            description: "simple string",
            input: r#"➖"123"➖"#,
            steps: vec![TestStep {
                description: "opening delimiter",
                token: Ok((loc(0), loc(1), Token::StringDelimiter)),
                context: Context::String,
            }],
        },
        TestCase {
            description: "empty string",
            input: r#"➖""➖"#,
            steps: vec![TestStep {
                description: "opening delimiter",
                token: Ok((loc(0), loc(1), Token::StringDelimiter)),
                context: Context::String,
            }],
        },
        TestCase {
            description: "single token string",
            input: r#"➖"➖"#,
            steps: vec![TestStep {
                description: "opening delimiter",
                token: Ok((loc(0), loc(1), Token::StringDelimiter)),
                context: Context::String,
            }],
        },
    ];

    run(tests)
}

#[test]
fn lexer_test_heredoc_start() {
    let tests = vec![
        TestCase {
            description: "no-quote no-tab spaced",
            input: "<< EOF\n123\nEOF",
            steps: vec![TestStep {
                description: "opening delimiter",
                token: Ok((loc(0), loc(6), Token::StringDelimiter)),
                context: hd("EOF", false, false),
            }],
        },
        TestCase {
            description: "no-quote no-tab not-spaced",
            input: "<<EOF\n123\nEOF",
            steps: vec![TestStep {
                description: "opening delimiter",
                token: Ok((loc(0), loc(5), Token::StringDelimiter)),
                context: hd("EOF", false, false),
            }],
        },
        TestCase {
            description: "no-quote no-tab multi-spaced",
            input: "<<   EOF\n123\nEOF",
            steps: vec![TestStep {
                description: "opening delimiter",
                token: Ok((loc(0), loc(8), Token::StringDelimiter)),
                context: hd("EOF", false, false),
            }],
        },
        TestCase {
            description: "no-quote tab spaced",
            input: "<<- EOF\n123\nEOF",
            steps: vec![TestStep {
                description: "opening delimiter",
                token: Ok((loc(0), loc(7), Token::StringDelimiter)),
                context: hd("EOF", true, false),
            }],
        },
        TestCase {
            description: "no-quote tab not-spaced",
            input: "<<-EOF\n123\nEOF",
            steps: vec![TestStep {
                description: "opening delimiter",
                token: Ok((loc(0), loc(6), Token::StringDelimiter)),
                context: hd("EOF", true, false),
            }],
        },
        TestCase {
            description: "no-quote tab multi-spaced",
            input: "<<-   EOF\n123\nEOF",
            steps: vec![TestStep {
                description: "opening delimiter",
                token: Ok((loc(0), loc(9), Token::StringDelimiter)),
                context: hd("EOF", true, false),
            }],
        },
        TestCase {
            description: "spaced tab",
            input: "<< - EOF\n123\nEOF",
            steps: vec![TestStep {
                description: "opening delimiter",
                token: Ok((loc(0), loc(8), Token::StringDelimiter)),
                context: hd("- EOF", false, false),
            }],
        },
        TestCase {
            description: "multi-spaced tab",
            input: "<<   - EOF\n123\nEOF",
            steps: vec![TestStep {
                description: "opening delimiter",
                token: Ok((loc(0), loc(10), Token::StringDelimiter)),
                context: hd("- EOF", false, false),
            }],
        },
        TestCase {
            description: "post-spaced tab",
            input: "<< -   EOF\n123\nEOF",
            steps: vec![TestStep {
                description: "opening delimiter",
                token: Ok((loc(0), loc(10), Token::StringDelimiter)),
                context: hd("-   EOF", false, false),
            }],
        },
        TestCase {
            description: "quote no-tab spaced",
            input: "<< \"EOF\"\n123\nEOF",
            steps: vec![TestStep {
                description: "opening delimiter",
                token: Ok((loc(0), loc(8), Token::StringDelimiter)),
                context: hd("EOF", false, true),
            }],
        },
        TestCase {
            description: "quote no-tab not-spaced",
            input: "<<\"EOF\"\n123\nEOF",
            steps: vec![TestStep {
                description: "opening delimiter",
                token: Ok((loc(0), loc(7), Token::StringDelimiter)),
                context: hd("EOF", false, true),
            }],
        },
        TestCase {
            description: "quote no-tab multi-spaced",
            input: "<<   \"EOF\"\n123\nEOF",
            steps: vec![TestStep {
                description: "opening delimiter",
                token: Ok((loc(0), loc(10), Token::StringDelimiter)),
                context: hd("EOF", false, true),
            }],
        },
        TestCase {
            description: "quote tab spaced",
            input: "<<- \"EOF\"\n123\nEOF",
            steps: vec![TestStep {
                description: "opening delimiter",
                token: Ok((loc(0), loc(9), Token::StringDelimiter)),
                context: hd("EOF", true, true),
            }],
        },
        TestCase {
            description: "quote tab not-spaced",
            input: "<<-\"EOF\"\n123\nEOF",
            steps: vec![TestStep {
                description: "opening delimiter",
                token: Ok((loc(0), loc(8), Token::StringDelimiter)),
                context: hd("EOF", true, true),
            }],
        },
        TestCase {
            description: "quote tab multi-spaced",
            input: "<<-   \"EOF\"\n123\nEOF",
            steps: vec![TestStep {
                description: "opening delimiter",
                token: Ok((loc(0), loc(11), Token::StringDelimiter)),
                context: hd("EOF", true, true),
            }],
        },
        TestCase {
            description: "err missing delimiter",
            input: "<<\n123\nEOF",
            steps: vec![TestStep {
                description: "opening delimiter",
                token: Err((loc(0), loc(2), Error::MissingHeredocDelimiter)),
                context: Context::General,
            }],
        },
        TestCase {
            description: "unterminated double-quoted delimiter",
            input: "<< \"EOF\n123\nEOF",
            steps: vec![TestStep {
                description: "opening delimiter",
                token: Err((loc(0), loc(7), Error::UnterminatedHeredocDelimiter)),
                context: Context::General,
            }],
        },
        TestCase {
            description: "unterminated single-quoted delimiter",
            input: "<< 'EOF\n123\nEOF",
            steps: vec![TestStep {
                description: "opening delimiter",
                token: Err((loc(0), loc(7), Error::UnterminatedHeredocDelimiter)),
                context: Context::General,
            }],
        },
        TestCase {
            description: "quote mismatch single-double",
            input: "<< \"EOF'\n123\nEOF",
            steps: vec![TestStep {
                description: "opening delimiter",
                token: Err((loc(0), loc(8), Error::UnterminatedHeredocDelimiter)),
                context: Context::General,
            }],
        },
        TestCase {
            description: "quote mismatch double-single",
            input: "<< 'EOF\"\nfoo\nEOF",
            steps: vec![TestStep {
                description: "opening delimiter",
                token: Err((loc(0), loc(8), Error::UnterminatedHeredocDelimiter)),
                context: Context::General,
            }],
        },
    ];

    run(tests);
}

#[test]
fn lexer_test_string_simple() {
    let tests = vec![
        TestCase {
            description: "single line string",
            input: r#"➖"123"➖"#,
            steps: vec![
                TestStep {
                    description: "string start",
                    token: Ok((loc(0), loc(1), Token::StringDelimiter)),
                    context: Context::String,
                },
                TestStep {
                    description: "string literal",
                    token: Ok((loc(1), loc(4), escaped("123"))),
                    context: Context::String,
                },
                TestStep {
                    description: "string end",
                    token: Ok((loc(4), loc(5), Token::StringDelimiter)),
                    context: Context::General,
                },
            ],
        },
        TestCase {
            description: "escaped single line string",
            input: r#"➖"123\n"➖"#,
            steps: vec![
                TestStep {
                    description: "string start",
                    token: Ok((loc(0), loc(1), Token::StringDelimiter)),
                    context: Context::String,
                },
                TestStep {
                    description: "string literal",
                    token: Ok((loc(1), loc(6), escaped("123\\n"))),
                    context: Context::String,
                },
                TestStep {
                    description: "string end",
                    token: Ok((loc(6), loc(7), Token::StringDelimiter)),
                    context: Context::General,
                },
            ],
        },
    ];

    run(tests)
}

#[test]
fn lexer_test_string_interpolation() {
    let tests = vec![
        TestCase {
            description: "simple interpolation",
            input: r#"➖"123${}"➖"#,
            steps: vec![
                TestStep {
                    description: "string start",
                    token: Ok((loc(0), loc(1), Token::StringDelimiter)),
                    context: Context::String,
                },
                TestStep {
                    description: "string literal",
                    token: Ok((loc(1), loc(4), escaped("123"))),
                    context: Context::String,
                },
                TestStep {
                    description: "opening interpolation delimiter",
                    token: Ok((loc(4), loc(6), Token::StringInterpolation)),
                    context: Context::StringInterpolation { depth: 0 },
                },
                TestStep {
                    description: "closing interpolation delimiter",
                    token: Ok((loc(6), loc(7), Token::StringInterpolation)),
                    context: Context::String,
                },
            ],
        },
        TestCase {
            description: "simple directive",
            input: r#"➖"123%{}"➖"#,
            steps: vec![
                TestStep {
                    description: "string start",
                    token: Ok((loc(0), loc(1), Token::StringDelimiter)),
                    context: Context::String,
                },
                TestStep {
                    description: "string literal",
                    token: Ok((loc(1), loc(4), escaped("123"))),
                    context: Context::String,
                },
                TestStep {
                    description: "opening directive delimiter",
                    token: Ok((loc(4), loc(6), Token::StringDirective)),
                    context: Context::StringDirective { depth: 0 },
                },
                TestStep {
                    description: "closing directive delimiter",
                    token: Ok((loc(6), loc(7), Token::StringDirective)),
                    context: Context::String,
                },
            ],
        },
    ];

    run(tests)
}

#[test]
fn lexer_test_heredoc() {
    let tests = vec![
        TestCase {
            description: "not leading tabs",
            input: "<<EOF\n\n  123\n    456\nEOF",
            steps: vec![
                TestStep {
                    description: "opening delimiter",
                    token: Ok((loc(0), loc(5), Token::StringDelimiter)),
                    context: hd("EOF", false, false),
                },
                TestStep {
                    description: "string literal",
                    token: Ok((
                        Location::new(1, 0, 6),
                        Location::new(4, 0, 21),
                        heredoc_lines(&["\n", "  123\n", "    456\n"]),
                    )),
                    context: Context::HereDocStringEnd {
                        start: Location::new(4, 0, 21),
                        end: Location::new(4, 3, 24),
                    },
                },
                TestStep {
                    description: "closing delimiter",
                    token: Ok((
                        Location::new(4, 0, 21),
                        Location::new(4, 3, 24),
                        Token::StringDelimiter,
                    )),
                    context: Context::General,
                },
            ],
        },
        TestCase {
            description: "leading tabs, empty line",
            input: "<<-EOF\n\n  123\n    456\nEOF",
            steps: vec![
                TestStep {
                    description: "opening delimiter",
                    token: Ok((loc(0), loc(6), Token::StringDelimiter)),
                    context: hd("EOF", true, false),
                },
                TestStep {
                    description: "string literal",
                    token: Ok((
                        Location::new(1, 0, 7),
                        Location::new(4, 0, 22),
                        heredoc_lines(&["\n", "123\n", "  456\n"]),
                    )),
                    context: Context::HereDocStringEnd {
                        start: Location::new(4, 0, 22),
                        end: Location::new(4, 3, 25),
                    },
                },
                TestStep {
                    description: "closing delimiter",
                    token: Ok((
                        Location::new(4, 0, 22),
                        Location::new(4, 3, 25),
                        Token::StringDelimiter,
                    )),
                    context: Context::General,
                },
            ],
        },
        TestCase {
            description: "quoted interpolation",
            input: "<<'EOF'\n\n  ${123}\n    456\nEOF",
            steps: vec![
                TestStep {
                    description: "opening delimiter",
                    token: Ok((loc(0), loc(7), Token::StringDelimiter)),
                    context: hd("EOF", false, true),
                },
                TestStep {
                    description: "string literal",
                    token: Ok((
                        Location::new(1, 0, 8),
                        Location::new(4, 0, 26),
                        heredoc_lines(&["\n", "  ${123}\n", "    456\n"]),
                    )),
                    context: Context::HereDocStringEnd {
                        start: Location::new(4, 0, 26),
                        end: Location::new(4, 3, 29),
                    },
                },
                TestStep {
                    description: "closing delimiter",
                    token: Ok((
                        Location::new(4, 0, 26),
                        Location::new(4, 3, 29),
                        Token::StringDelimiter,
                    )),
                    context: Context::General,
                },
            ],
        },
        TestCase {
            description: "interpolation",
            input: "<<EOF\n\n  ${}\n    456\nEOF",
            steps: vec![
                TestStep {
                    description: "opening delimiter",
                    token: Ok((loc(0), loc(5), Token::StringDelimiter)),
                    context: hd("EOF", false, false),
                },
                TestStep {
                    description: "string literal",
                    token: Ok((
                        Location::new(1, 0, 6),
                        Location::new(2, 2, 9),
                        heredoc_lines(&["\n", "  "]),
                    )),
                    context: hd("EOF", false, false),
                },
                TestStep {
                    description: "interpolation start",
                    token: Ok((
                        Location::new(2, 2, 9),
                        Location::new(2, 4, 11),
                        Token::StringInterpolation,
                    )),
                    context: Context::StringInterpolation { depth: 0 },
                },
                TestStep {
                    description: "interpolation end",
                    token: Ok((
                        Location::new(2, 4, 11),
                        Location::new(2, 5, 12),
                        Token::StringInterpolation,
                    )),
                    context: hd("EOF", false, false),
                },
                TestStep {
                    description: "string literal",
                    token: Ok((
                        Location::new(2, 5, 12),
                        Location::new(4, 0, 21),
                        heredoc_lines(&["\n", "    456\n"]),
                    )),
                    context: Context::HereDocStringEnd {
                        start: Location::new(4, 0, 21),
                        end: Location::new(4, 3, 24),
                    },
                },
                TestStep {
                    description: "closing delimiter",
                    token: Ok((
                        Location::new(4, 0, 21),
                        Location::new(4, 3, 24),
                        Token::StringDelimiter,
                    )),
                    context: Context::General,
                },
            ],
        },
        TestCase {
            description: "directive",
            input: "<<EOF\n\n  %{}\n    456\nEOF",
            steps: vec![
                TestStep {
                    description: "opening delimiter",
                    token: Ok((loc(0), loc(5), Token::StringDelimiter)),
                    context: hd("EOF", false, false),
                },
                TestStep {
                    description: "string literal",
                    token: Ok((
                        Location::new(1, 0, 6),
                        Location::new(2, 2, 9),
                        heredoc_lines(&["\n", "  "]),
                    )),
                    context: hd("EOF", false, false),
                },
                TestStep {
                    description: "interpolation start",
                    token: Ok((
                        Location::new(2, 2, 9),
                        Location::new(2, 4, 11),
                        Token::StringDirective,
                    )),
                    context: Context::StringDirective { depth: 0 },
                },
                TestStep {
                    description: "interpolation end",
                    token: Ok((
                        Location::new(2, 4, 11),
                        Location::new(2, 5, 12),
                        Token::StringDirective,
                    )),
                    context: hd("EOF", false, false),
                },
                TestStep {
                    description: "string literal",
                    token: Ok((
                        Location::new(2, 5, 12),
                        Location::new(4, 0, 21),
                        heredoc_lines(&["\n", "    456\n"]),
                    )),
                    context: Context::HereDocStringEnd {
                        start: Location::new(4, 0, 21),
                        end: Location::new(4, 3, 24),
                    },
                },
                TestStep {
                    description: "closing delimiter",
                    token: Ok((
                        Location::new(4, 0, 21),
                        Location::new(4, 3, 24),
                        Token::StringDelimiter,
                    )),
                    context: Context::General,
                },
            ],
        },
    ];

    run(tests);
}
