use calc::token::OperatorPrecedence;
use calc::token::Token;
use calc::tokenizer::CalcError;
use calc::tokenizer::Tokenizer;

fn num(s: &str) -> Token {
    Token::Number(s.to_string())
}

fn var(s: &str) -> Token {
    Token::Variable(s.to_string())
}

fn tokens_of(expression: &str) -> Vec<Token> {
    let mut tokenizer = Tokenizer::new(expression).unwrap();
    tokenizer.collect_tokens()
}

#[test]
fn test_new() {
    let tokenizer = Tokenizer::new("1 + 2").unwrap();
    assert_eq!(tokenizer.end, false);
    assert_eq!(tokenizer.unexpected_char, None);
    let mut tokenizer = tokenizer;
    let v = tokenizer.collect_tokens();
    assert_eq!(v, vec![num("1"), Token::Add, num("2"), Token::EOF]);
}

#[test]
fn test_next_simple_add() {
    let v = tokens_of("1 + 2");
    assert_eq!(v, vec![num("1"), Token::Add, num("2"), Token::EOF]);
}

#[test]
fn test_next_complex() {
    let v = tokens_of("1 + 2 * 3 - 4 / 5 ^ (6 + x)");
    assert_eq!(
        v,
        vec![
            num("1"),
            Token::Add,
            num("2"),
            Token::Mul,
            num("3"),
            Token::Sub,
            num("4"),
            Token::Div,
            num("5"),
            Token::Caret,
            Token::LeftSmallParen,
            num("6"),
            Token::Add,
            var("x"),
            Token::RightSmallParen,
            Token::EOF
        ]
    );
}

#[test]
fn test_function() {
    let v = tokens_of("nvl<1,0>");
    assert_eq!(
        v,
        vec![
            Token::Function {
                function_prefix: "nvl".to_string(),
                args: vec![vec![num("1")], vec![num("0")]]
            },
            Token::EOF
        ]
    );
}

#[test]
fn test_function_2() {
    let v = tokens_of("1 + 2 * nvl < abs < 1 + 2 * 3 + [ ( 1+ 3 ) / 2 ] ) , 0 > , 0 >");
    assert_eq!(
        v,
        vec![
            num("1"),
            Token::Add,
            num("2"),
            Token::Mul,
            Token::Function {
                function_prefix: "nvl".to_string(),
                args: vec![
                    vec![Token::Function {
                        function_prefix: "abs".to_string(),
                        args: vec![
                            vec![
                                num("1"),
                                Token::Add,
                                num("2"),
                                Token::Mul,
                                num("3"),
                                Token::Add,
                                Token::LeftMidParen,
                                Token::LeftSmallParen,
                                num("1"),
                                Token::Add,
                                num("3"),
                                Token::RightSmallParen,
                                Token::Div,
                                num("2"),
                                Token::RightMidParen
                            ],
                            vec![num("0")]
                        ]
                    }],
                    vec![num("0")]
                ]
            },
            Token::EOF
        ]
    );
}

#[test]
fn test_new_parser() {
    let result = Tokenizer::new("1 + 2 * nvl < abs < 1 + 2 * 3 + [ ( 1+ 3 ) / 2 ] ) , 0 > , 0 >");
    assert!(result.is_ok());
}

#[test]
fn test_unexpected_char_fails_construction() {
    let result = Tokenizer::new("#");
    assert_eq!(result.err(), Some(CalcError::UnexpectedChar('#')));
}

#[test]
fn test_unexpected_char_after_whitespace_fails_construction() {
    let result = Tokenizer::new("  @rest");
    assert_eq!(result.err(), Some(CalcError::UnexpectedChar('@')));
}

#[test]
fn test_empty_input_yields_eof_only() {
    assert_eq!(tokens_of(""), vec![Token::EOF]);
}

#[test]
fn test_eof_exactly_once_then_nothing() {
    let mut tokenizer = Tokenizer::new("7").unwrap();
    assert_eq!(tokenizer.next(), Some(num("7")));
    assert_eq!(tokenizer.next(), Some(Token::EOF));
    assert_eq!(tokenizer.next(), None);
    assert_eq!(tokenizer.next(), None);
    assert!(tokenizer.is_end());
}

#[test]
fn test_midstream_unexpected_halts_silently() {
    let mut tokenizer = Tokenizer::new("1+#2").unwrap();
    let v = tokenizer.collect_tokens();
    assert_eq!(v, vec![num("1"), Token::Add]);
    assert_eq!(tokenizer.get_unexpected_char(), Some('#'));
    assert!(!tokenizer.is_end());
}

#[test]
fn test_first_unexpected_char_kept() {
    let mut tokenizer = Tokenizer::new("1#@").unwrap();
    assert_eq!(tokenizer.collect_tokens(), vec![num("1")]);
    assert_eq!(tokenizer.get_unexpected_char(), Some('#'));
    assert_eq!(tokenizer.next(), None);
    assert_eq!(tokenizer.get_unexpected_char(), Some('#'));
    assert_eq!(tokenizer.next(), Some(Token::EOF));
    assert_eq!(tokenizer.get_unexpected_char(), Some('#'));
}

#[test]
fn test_unicode_whitespace_skipped() {
    assert_eq!(
        tokens_of("1\u{a0}+\u{2003}2"),
        vec![num("1"), Token::Add, num("2"), Token::EOF]
    );
}

#[test]
fn test_comma_at_negative_angle_depth_kept_literally() {
    let v = tokens_of("f<(>),>,1>");
    assert_eq!(
        v,
        vec![Token::Function {
            function_prefix: "f".to_string(),
            args: vec![
                vec![
                    Token::LeftSmallParen,
                    Token::RightFuncParen,
                    Token::RightSmallParen
                ],
                vec![
                    Token::RightFuncParen,
                    Token::Comma,
                    num("1"),
                    Token::RightFuncParen,
                    Token::EOF
                ],
            ],
        }]
    );
}

#[test]
fn test_empty_argument_slots_dropped() {
    let v = tokens_of("f<1,,2>");
    assert_eq!(
        v,
        vec![
            Token::Function {
                function_prefix: "f".to_string(),
                args: vec![vec![num("1")], vec![num("2")]]
            },
            Token::EOF
        ]
    );
}

#[test]
fn test_unmatched_close_dropped_in_argument() {
    let v = tokens_of("f<1)+2>");
    assert_eq!(
        v,
        vec![
            Token::Function {
                function_prefix: "f".to_string(),
                args: vec![vec![num("1"), Token::Add, num("2")]]
            },
            Token::EOF
        ]
    );
}

#[test]
fn test_unterminated_function_keeps_eof_marker() {
    let mut tokenizer = Tokenizer::new("f<1").unwrap();
    let v = tokenizer.collect_tokens();
    assert_eq!(
        v,
        vec![Token::Function {
            function_prefix: "f".to_string(),
            args: vec![vec![num("1"), Token::EOF]]
        }]
    );
    assert!(tokenizer.is_end());
}

#[test]
fn test_bare_angles_inside_argument() {
    let v = tokens_of("f<(1<2)>>");
    assert_eq!(
        v,
        vec![
            Token::Function {
                function_prefix: "f".to_string(),
                args: vec![vec![
                    Token::LeftSmallParen,
                    num("1"),
                    Token::LeftFuncParen,
                    num("2"),
                    Token::RightSmallParen,
                    Token::RightFuncParen
                ]]
            },
            Token::EOF
        ]
    );
}

#[test]
fn test_commas_inside_brackets_kept_literally() {
    let v = tokens_of("f<[1,2],3>");
    assert_eq!(
        v,
        vec![
            Token::Function {
                function_prefix: "f".to_string(),
                args: vec![
                    vec![
                        Token::LeftMidParen,
                        num("1"),
                        Token::Comma,
                        num("2"),
                        Token::RightMidParen
                    ],
                    vec![num("3")]
                ]
            },
            Token::EOF
        ]
    );
}

#[test]
fn test_identifier_swallows_interior_whitespace() {
    assert_eq!(
        tokens_of("a b + 1"),
        vec![var("ab"), Token::Add, num("1"), Token::EOF]
    );
}

#[test]
fn test_toplevel_comma_and_angle_skipped() {
    assert_eq!(tokens_of("1,2"), vec![num("1"), num("2"), Token::EOF]);
    assert_eq!(tokens_of("1>2"), vec![num("1"), num("2"), Token::EOF]);
    assert_eq!(
        tokens_of("<1"),
        vec![Token::LeftFuncParen, num("1"), Token::EOF]
    );
}

#[test]
fn test_digit_run_kept_verbatim() {
    assert_eq!(tokens_of("007"), vec![num("007"), Token::EOF]);
    assert_eq!(
        tokens_of("12345678901234567890123456789012345"),
        vec![num("12345678901234567890123456789012345"), Token::EOF]
    );
}

#[test]
fn test_render_fixed_symbols() {
    assert_eq!(Token::Add.render(), "+");
    assert_eq!(Token::Sub.render(), "-");
    assert_eq!(Token::Mul.render(), "\u{d7}");
    assert_eq!(Token::Div.render(), "\u{f7}");
    assert_eq!(Token::Caret.render(), "^");
    assert_eq!(Token::LeftSmallParen.render(), "(");
    assert_eq!(Token::RightSmallParen.render(), ")");
    assert_eq!(Token::LeftMidParen.render(), "[");
    assert_eq!(Token::RightMidParen.render(), "]");
    assert_eq!(Token::LeftBigParen.render(), "{");
    assert_eq!(Token::RightBigParen.render(), "}");
    assert_eq!(Token::LeftFuncParen.render(), "<");
    assert_eq!(Token::RightFuncParen.render(), ">");
    assert_eq!(Token::Comma.render(), ",");
    assert_eq!(Token::EOF.render(), "EOF");
    assert_eq!(num("42").render(), "42");
    assert_eq!(var("xy").render(), "xy");
}

#[test]
fn test_render_function() {
    let v = tokens_of("nvl<1+2,0>");
    assert_eq!(v[0].render(), "nvl<1 + 2,0>");
}

#[test]
fn test_get_precedence() {
    assert_eq!(Token::Add.get_precedence(), OperatorPrecedence::AddOrSubtract);
    assert_eq!(Token::Sub.get_precedence(), OperatorPrecedence::AddOrSubtract);
    assert_eq!(Token::Mul.get_precedence(), OperatorPrecedence::MultiplyOrDivide);
    assert_eq!(Token::Div.get_precedence(), OperatorPrecedence::MultiplyOrDivide);
    assert_eq!(Token::Caret.get_precedence(), OperatorPrecedence::Power);
    assert_eq!(
        tokens_of("f<1>")[0].get_precedence(),
        OperatorPrecedence::Function
    );
    assert_eq!(num("1").get_precedence(), OperatorPrecedence::Default);
    assert_eq!(var("x").get_precedence(), OperatorPrecedence::Default);
    assert_eq!(Token::Comma.get_precedence(), OperatorPrecedence::Default);
}

#[test]
fn test_precedence_total_order() {
    assert!(OperatorPrecedence::Default < OperatorPrecedence::AddOrSubtract);
    assert!(OperatorPrecedence::AddOrSubtract < OperatorPrecedence::MultiplyOrDivide);
    assert!(OperatorPrecedence::MultiplyOrDivide < OperatorPrecedence::Power);
    assert!(OperatorPrecedence::Power < OperatorPrecedence::Negative);
    assert!(OperatorPrecedence::Negative < OperatorPrecedence::Function);
}

#[test]
fn test_render_round_trip() {
    let first = tokens_of("1 +   (x - 2] ^ 3");
    assert_eq!(first.last(), Some(&Token::EOF));
    let mut text = String::new();
    for (i, token) in first[..first.len() - 1].iter().enumerate() {
        if i > 0 {
            text.push(' ');
        }
        text.push_str(&token.render());
    }
    assert_eq!(text, "1 + ( x - 2 ] ^ 3");
    let second = tokens_of(&text);
    assert_eq!(first, second);
}

#[test]
fn test_judge_and_step() {
    let mut tokenizer = Tokenizer::new("<a>").unwrap();
    assert!(tokenizer.judge_function_part());
    tokenizer.stepping_expression();
    assert!(!tokenizer.judge_function_part());
    let v = tokenizer.collect_tokens();
    assert_eq!(v, vec![var("a"), Token::EOF]);
}

#[test]
fn test_collect_alphabetic_chars() {
    let mut tokenizer = Tokenizer::new("bc d+e").unwrap();
    tokenizer.stepping_expression();
    let words = tokenizer.collect_alphabetic_chars('a');
    assert_eq!(words, "acd");
    let v = tokenizer.collect_tokens();
    assert_eq!(v, vec![Token::Add, var("e"), Token::EOF]);
}
