use prolog_wam_compiler::ast::{parse, parse_term, parse_list_elements, expect_token, Clause, ParseError, Term};
use prolog_wam_compiler::lexer::{tokenize, Token};

#[test]
fn combined_tests_only_test_parse_term1() {
    let tokens = vec![
        Token::Atom("father".to_string()),
        Token::LParen,
        Token::Atom("john".to_string()),
        Token::Comma,
        Token::Atom("jim".to_string()),
        Token::RParen,
    ];
    let parse_result = parse_term(&tokens);
    let (term, remaining_tokens) = parse_result.unwrap();
    let expected_term = Term::Structure {
        functor: "father".to_string(),
        arity: 2,
        args: vec![
            Term::Atom("john".to_string()),
            Term::Atom("jim".to_string()),
        ],
    };
    assert_eq!(term, expected_term);
    assert!(remaining_tokens.is_empty());
}

#[test]
fn combined_test_parse_term1() {
    let tokens = vec![
        Token::Atom("father".to_string()),
        Token::LParen,
        Token::Atom("john".to_string()),
        Token::Comma,
        Token::Atom("jim".to_string()),
        Token::RParen,
    ];
    let parse_result = parse_term(&tokens);
    let (term, remaining_tokens) = parse_result.unwrap();
    let expected_term = Term::Structure {
        functor: "father".to_string(),
        arity: 2,
        args: vec![
            Term::Atom("john".to_string()),
            Term::Atom("jim".to_string()),
        ],
    };
    assert_eq!(term, expected_term);
    assert!(remaining_tokens.is_empty());
}

#[test]
fn ast_test_parse_term1() {
    let tokens = vec![
        Token::Atom("father".to_string()),
        Token::LParen,
        Token::Atom("john".to_string()),
        Token::Comma,
        Token::Atom("jim".to_string()),
        Token::RParen,
    ];
    let parse_result = parse_term(&tokens);
    let (term, remaining_tokens) = parse_result.unwrap();
    let expected_term = Term::Structure {
        functor: "father".to_string(),
        arity: 2,
        args: vec![
            Term::Atom("john".to_string()),
            Term::Atom("jim".to_string()),
        ],
    };
    assert_eq!(term, expected_term);
    assert!(remaining_tokens.is_empty());
}

#[test]
fn combined_tests_only_test_expect_token() {
    let tokens = [
        Token::Atom("hello".to_string()),
        Token::Variable("Var".to_string()),
        Token::LParen,
    ];

    let expected = Token::Atom("hello".to_string());
    let remaining_tokens = &tokens[1..];
    match expect_token(expected.clone(), &tokens) {
        Ok(result) => assert_eq!(result, remaining_tokens),
        Err(_) => panic!("expect_token should return Ok in this case"),
    }

    let expected = Token::Variable("WrongVar".to_string());
    match expect_token(expected, &tokens) {
        Ok(_) => panic!("expect_token should return Err in this case"),
        Err(e) => match e {
            ParseError::UnexpectedToken(token) => {
                assert_eq!(token, Token::Atom("hello".to_string()))
            }
            _ => panic!("expect_token should return UnexpectedToken error"),
        },
    }
}

#[test]
fn combined_test_expect_token() {
    let tokens = [
        Token::Atom("hello".to_string()),
        Token::Variable("Var".to_string()),
        Token::LParen,
    ];

    let expected = Token::Atom("hello".to_string());
    let remaining_tokens = &tokens[1..];
    match expect_token(expected.clone(), &tokens) {
        Ok(result) => assert_eq!(result, remaining_tokens),
        Err(_) => panic!("expect_token should return Ok in this case"),
    }

    let expected = Token::Variable("WrongVar".to_string());
    match expect_token(expected, &tokens) {
        Ok(_) => panic!("expect_token should return Err in this case"),
        Err(e) => match e {
            ParseError::UnexpectedToken(token) => {
                assert_eq!(token, Token::Atom("hello".to_string()))
            }
            _ => panic!("expect_token should return UnexpectedToken error"),
        },
    }
}

#[test]
fn ast_test_expect_token() {
    let tokens = [
        Token::Atom("hello".to_string()),
        Token::Variable("Var".to_string()),
        Token::LParen,
    ];

    let expected = Token::Atom("hello".to_string());
    let remaining_tokens = &tokens[1..];
    match expect_token(expected.clone(), &tokens) {
        Ok(result) => assert_eq!(result, remaining_tokens),
        Err(_) => panic!("expect_token should return Ok in this case"),
    }

    let expected = Token::Variable("WrongVar".to_string());
    match expect_token(expected, &tokens) {
        Ok(_) => panic!("expect_token should return Err in this case"),
        Err(e) => match e {
            ParseError::UnexpectedToken(token) => {
                assert_eq!(token, Token::Atom("hello".to_string()))
            }
            _ => panic!("expect_token should return UnexpectedToken error"),
        },
    }
}

#[test]
fn combined_tests_only_test_parse_term2() {
    let tokens = [
        Token::Atom("hello".to_string()),
        Token::Variable("Var".to_string()),
        Token::LParen,
    ];
    let expected_term = Term::Atom("hello".to_string());
    let remaining_tokens = &tokens[1..];
    match parse_term(&tokens) {
        Ok((term, rest)) => {
            assert_eq!(term, expected_term);
            assert_eq!(rest, remaining_tokens);
        }
        Err(_) => panic!("parse_term should return Ok in this case"),
    }

    let tokens = [
        Token::Variable("Var".to_string()),
        Token::Atom("hello".to_string()),
        Token::RParen,
    ];
    let expected_term = Term::Variable("Var".to_string());
    let remaining_tokens = &tokens[1..];
    match parse_term(&tokens) {
        Ok((term, rest)) => {
            assert_eq!(term, expected_term);
            assert_eq!(rest, remaining_tokens);
        }
        Err(_) => panic!("parse_term should return Ok in this case"),
    }
}

#[test]
fn combined_test_parse_term2() {
    let tokens = [
        Token::Atom("hello".to_string()),
        Token::Variable("Var".to_string()),
        Token::LParen,
    ];
    let expected_term = Term::Atom("hello".to_string());
    let remaining_tokens = &tokens[1..];
    match parse_term(&tokens) {
        Ok((term, rest)) => {
            assert_eq!(term, expected_term);
            assert_eq!(rest, remaining_tokens);
        }
        Err(_) => panic!("parse_term should return Ok in this case"),
    }

    let tokens = [
        Token::Variable("Var".to_string()),
        Token::Atom("hello".to_string()),
        Token::RParen,
    ];
    let expected_term = Term::Variable("Var".to_string());
    let remaining_tokens = &tokens[1..];
    match parse_term(&tokens) {
        Ok((term, rest)) => {
            assert_eq!(term, expected_term);
            assert_eq!(rest, remaining_tokens);
        }
        Err(_) => panic!("parse_term should return Ok in this case"),
    }
}

#[test]
fn ast_test_parse_term2() {
    let tokens = [
        Token::Atom("hello".to_string()),
        Token::Variable("Var".to_string()),
        Token::LParen,
    ];
    let expected_term = Term::Atom("hello".to_string());
    let remaining_tokens = &tokens[1..];
    match parse_term(&tokens) {
        Ok((term, rest)) => {
            assert_eq!(term, expected_term);
            assert_eq!(rest, remaining_tokens);
        }
        Err(_) => panic!("parse_term should return Ok in this case"),
    }

    let tokens = [
        Token::Variable("Var".to_string()),
        Token::Atom("hello".to_string()),
        Token::RParen,
    ];
    let expected_term = Term::Variable("Var".to_string());
    let remaining_tokens = &tokens[1..];
    match parse_term(&tokens) {
        Ok((term, rest)) => {
            assert_eq!(term, expected_term);
            assert_eq!(rest, remaining_tokens);
        }
        Err(_) => panic!("parse_term should return Ok in this case"),
    }
}

#[test]
fn combined_tests_only_test_parse_simple_structure() {
    let tokens = vec![
        Token::Atom("parent".to_string()),
        Token::LParen,
        Token::Atom("jim".to_string()),
        Token::RParen,
    ];
    let parse_result = parse_term(&tokens);
    let (term, remaining_tokens) = parse_result.unwrap();
    let expected_term = Term::Structure {
        functor: "parent".to_string(),
        arity: 1,
        args: vec![
            Term::Atom("jim".to_string()),
        ],
    };
    assert_eq!(term, expected_term);
    assert!(remaining_tokens.is_empty());
}

#[test]
fn combined_test_parse_simple_structure() {
    let tokens = vec![
        Token::Atom("parent".to_string()),
        Token::LParen,
        Token::Atom("jim".to_string()),
        Token::RParen,
    ];
    let parse_result = parse_term(&tokens);
    let (term, remaining_tokens) = parse_result.unwrap();
    let expected_term = Term::Structure {
        functor: "parent".to_string(),
        arity: 1,
        args: vec![
            Term::Atom("jim".to_string()),
        ],
    };
    assert_eq!(term, expected_term);
    assert!(remaining_tokens.is_empty());
}

#[test]
fn ast_test_parse_simple_structure() {
    let tokens = vec![
        Token::Atom("parent".to_string()),
        Token::LParen,
        Token::Atom("jim".to_string()),
        Token::RParen,
    ];
    let parse_result = parse_term(&tokens);
    let (term, remaining_tokens) = parse_result.unwrap();
    let expected_term = Term::Structure {
        functor: "parent".to_string(),
        arity: 1,
        args: vec![
            Term::Atom("jim".to_string()),
        ],
    };
    assert_eq!(term, expected_term);
    assert!(remaining_tokens.is_empty());
}

#[test]
fn combined_tests_only_test_parse_structure_with_two_args() {
    let tokens = vec![
        Token::Atom("parent".to_string()),
        Token::LParen,
        Token::Atom("jim".to_string()),
        Token::Comma,
        Token::Atom("ann".to_string()),
        Token::RParen,
    ];
    let parse_result = parse_term(&tokens);
    let (term, remaining_tokens) = parse_result.unwrap();
    let expected_term = Term::Structure {
        functor: "parent".to_string(),
        arity: 2,
        args: vec![
            Term::Atom("jim".to_string()),
            Term::Atom("ann".to_string()),
        ],
    };
    assert_eq!(term, expected_term);
    assert!(remaining_tokens.is_empty());
}

#[test]
fn combined_test_parse_structure_with_two_args() {
    let tokens = vec![
        Token::Atom("parent".to_string()),
        Token::LParen,
        Token::Atom("jim".to_string()),
        Token::Comma,
        Token::Atom("ann".to_string()),
        Token::RParen,
    ];
    let parse_result = parse_term(&tokens);
    let (term, remaining_tokens) = parse_result.unwrap();
    let expected_term = Term::Structure {
        functor: "parent".to_string(),
        arity: 2,
        args: vec![
            Term::Atom("jim".to_string()),
            Term::Atom("ann".to_string()),
        ],
    };
    assert_eq!(term, expected_term);
    assert!(remaining_tokens.is_empty());
}

#[test]
fn ast_test_parse_structure_with_two_args() {
    let tokens = vec![
        Token::Atom("parent".to_string()),
        Token::LParen,
        Token::Atom("jim".to_string()),
        Token::Comma,
        Token::Atom("ann".to_string()),
        Token::RParen,
    ];
    let parse_result = parse_term(&tokens);
    let (term, remaining_tokens) = parse_result.unwrap();
    let expected_term = Term::Structure {
        functor: "parent".to_string(),
        arity: 2,
        args: vec![
            Term::Atom("jim".to_string()),
            Term::Atom("ann".to_string()),
        ],
    };
    assert_eq!(term, expected_term);
    assert!(remaining_tokens.is_empty());
}

#[test]
fn combined_tests_only_test_parse_nested_structure() {
    let tokens = vec![
        Token::Atom("parent".to_string()),
        Token::LParen,
        Token::Atom("jim".to_string()),
        Token::Comma,
        Token::Atom("child".to_string()),
        Token::LParen,
        Token::Atom("ann".to_string()),
        Token::Comma,
        Token::Atom("5".to_string()),
        Token::RParen,
        Token::RParen,
    ];
    let parse_result = parse_term(&tokens);
    let (term, remaining_tokens) = parse_result.unwrap();
    let expected_term = Term::Structure {
        functor: "parent".to_string(),
        arity: 2,
        args: vec![
            Term::Atom("jim".to_string()),
            Term::Structure {
                functor: "child".to_string(),
                arity: 2,
                args: vec![
                    Term::Atom("ann".to_string()),
                    Term::Atom("5".to_string()),
                ],
            },
        ],
    };
    assert_eq!(term, expected_term);
    assert!(remaining_tokens.is_empty());
}

#[test]
fn combined_test_parse_nested_structure() {
    let tokens = vec![
        Token::Atom("parent".to_string()),
        Token::LParen,
        Token::Atom("jim".to_string()),
        Token::Comma,
        Token::Atom("child".to_string()),
        Token::LParen,
        Token::Atom("ann".to_string()),
        Token::Comma,
        Token::Atom("5".to_string()),
        Token::RParen,
        Token::RParen,
    ];
    let parse_result = parse_term(&tokens);
    let (term, remaining_tokens) = parse_result.unwrap();
    let expected_term = Term::Structure {
        functor: "parent".to_string(),
        arity: 2,
        args: vec![
            Term::Atom("jim".to_string()),
            Term::Structure {
                functor: "child".to_string(),
                arity: 2,
                args: vec![
                    Term::Atom("ann".to_string()),
                    Term::Atom("5".to_string()),
                ],
            },
        ],
    };
    assert_eq!(term, expected_term);
    assert!(remaining_tokens.is_empty());
}

#[test]
fn ast_test_parse_nested_structure() {
    let tokens = vec![
        Token::Atom("parent".to_string()),
        Token::LParen,
        Token::Atom("jim".to_string()),
        Token::Comma,
        Token::Atom("child".to_string()),
        Token::LParen,
        Token::Atom("ann".to_string()),
        Token::Comma,
        Token::Atom("5".to_string()),
        Token::RParen,
        Token::RParen,
    ];
    let parse_result = parse_term(&tokens);
    let (term, remaining_tokens) = parse_result.unwrap();
    let expected_term = Term::Structure {
        functor: "parent".to_string(),
        arity: 2,
        args: vec![
            Term::Atom("jim".to_string()),
            Term::Structure {
                functor: "child".to_string(),
                arity: 2,
                args: vec![
                    Term::Atom("ann".to_string()),
                    Term::Atom("5".to_string()),
                ],
            },
        ],
    };
    assert_eq!(term, expected_term);
    assert!(remaining_tokens.is_empty());
}

#[test]
fn combined_tests_only_test_parse_clause() {
    let input = "likes(john, pizza).";
    let parse_result = parse(input);
    let clauses = parse_result.unwrap();

    let expected_clause = Clause {
        head: Term::Structure {
            functor: "likes".to_string(),
            arity: 2,
            args: vec![
                Term::Atom("john".to_string()),
                Term::Atom("pizza".to_string()),
            ],
        },
        body: vec![],
    };
    assert_eq!(clauses, vec![expected_clause]);
}

#[test]
fn combined_test_parse_clause() {
    let input = "likes(john, pizza).";
    let parse_result = parse(input);
    let clauses = parse_result.unwrap();

    let expected_clause = Clause {
        head: Term::Structure {
            functor: "likes".to_string(),
            arity: 2,
            args: vec![
                Term::Atom("john".to_string()),
                Term::Atom("pizza".to_string()),
            ],
        },
        body: vec![],
    };
    assert_eq!(clauses, vec![expected_clause]);
}

#[test]
fn ast_test_parse_clause() {
    let input = "likes(john, pizza).";
    let parse_result = parse(input);
    let clauses = parse_result.unwrap();

    let expected_clause = Clause {
        head: Term::Structure {
            functor: "likes".to_string(),
            arity: 2,
            args: vec![
                Term::Atom("john".to_string()),
                Term::Atom("pizza".to_string()),
            ],
        },
        body: vec![],
    };
    assert_eq!(clauses, vec![expected_clause]);
}

#[test]
fn combined_tests_only_test_parse_clause_with_body() {
    let input = "likes(john, X) :- likes(X, pizza).";
    let parse_result = parse(input);
    let clauses = parse_result.unwrap();

    let expected_clause = Clause {
        head: Term::Structure {
            functor: "likes".to_string(),
            arity: 2,
            args: vec![
                Term::Atom("john".to_string()),
                Term::Variable("X".to_string()),
            ],
        },
        body: vec![
            Term::Structure {
                functor: "likes".to_string(),
                arity: 2,
                args: vec![
                    Term::Variable("X".to_string()),
                    Term::Atom("pizza".to_string()),
                ],
            },
        ],
    };
    assert_eq!(clauses, vec![expected_clause]);
}

#[test]
fn combined_test_parse_clause_with_body() {
    let input = "likes(john, X) :- likes(X, pizza).";
    let parse_result = parse(input);
    let clauses = parse_result.unwrap();

    let expected_clause = Clause {
        head: Term::Structure {
            functor: "likes".to_string(),
            arity: 2,
            args: vec![
                Term::Atom("john".to_string()),
                Term::Variable("X".to_string()),
            ],
        },
        body: vec![
            Term::Structure {
                functor: "likes".to_string(),
                arity: 2,
                args: vec![
                    Term::Variable("X".to_string()),
                    Term::Atom("pizza".to_string()),
                ],
            },
        ],
    };
    assert_eq!(clauses, vec![expected_clause]);
}

#[test]
fn ast_test_parse_clause_with_body() {
    let input = "likes(john, X) :- likes(X, pizza).";
    let parse_result = parse(input);
    let clauses = parse_result.unwrap();

    let expected_clause = Clause {
        head: Term::Structure {
            functor: "likes".to_string(),
            arity: 2,
            args: vec![
                Term::Atom("john".to_string()),
                Term::Variable("X".to_string()),
            ],
        },
        body: vec![
            Term::Structure {
                functor: "likes".to_string(),
                arity: 2,
                args: vec![
                    Term::Variable("X".to_string()),
                    Term::Atom("pizza".to_string()),
                ],
            },
        ],
    };
    assert_eq!(clauses, vec![expected_clause]);
}

#[test]
fn combined_tests_only_test_parse_list() {
    let input = "[1, 2, 3]";
    let tokens = tokenize(input).unwrap();
    let (term, remaining_tokens) = parse_term(&tokens).unwrap();

    assert!(matches!(term, Term::List(_)));
    assert_eq!(remaining_tokens.len(), 0);
}

#[test]
fn combined_test_parse_list() {
    let input = "[1, 2, 3]";
    let tokens = tokenize(input).unwrap();
    let (term, remaining_tokens) = parse_term(&tokens).unwrap();

    assert!(matches!(term, Term::List(_)));
    assert_eq!(remaining_tokens.len(), 0);
}

#[test]
fn ast_test_parse_list() {
    let input = "[1, 2, 3]";
    let tokens = tokenize(input).unwrap();
    let (term, remaining_tokens) = parse_term(&tokens).unwrap();

    assert!(matches!(term, Term::List(_)));
    assert_eq!(remaining_tokens.len(), 0);
}

#[test]
fn combined_tests_only_test_parse_clause_with_double_body() {
    let input = "parents(X, Y) :- father(X, Y), mother(X, Y).";
    let parse_result = parse(input);
    let clauses = parse_result.unwrap();

    let expected_clause = Clause {
        head: Term::Structure {
            functor: "parents".to_string(),
            arity: 2,
            args: vec![
                Term::Variable("X".to_string()),
                Term::Variable("Y".to_string()),
            ],
        },
        body: vec![
            Term::Structure {
                functor: "father".to_string(),
                arity: 2,
                args: vec![
                    Term::Variable("X".to_string()),
                    Term::Variable("Y".to_string()),
                ],
            },
            Term::Structure {
                functor: "mother".to_string(),
                arity: 2,
                args: vec![
                    Term::Variable("X".to_string()),
                    Term::Variable("Y".to_string()),
                ],
            },
        ],
    };
    assert_eq!(clauses, vec![expected_clause]);
}

#[test]
fn combined_test_parse_clause_with_double_body() {
    let input = "parents(X, Y) :- father(X, Y), mother(X, Y).";
    let parse_result = parse(input);
    let clauses = parse_result.unwrap();

    let expected_clause = Clause {
        head: Term::Structure {
            functor: "parents".to_string(),
            arity: 2,
            args: vec![
                Term::Variable("X".to_string()),
                Term::Variable("Y".to_string()),
            ],
        },
        body: vec![
            Term::Structure {
                functor: "father".to_string(),
                arity: 2,
                args: vec![
                    Term::Variable("X".to_string()),
                    Term::Variable("Y".to_string()),
                ],
            },
            Term::Structure {
                functor: "mother".to_string(),
                arity: 2,
                args: vec![
                    Term::Variable("X".to_string()),
                    Term::Variable("Y".to_string()),
                ],
            },
        ],
    };
    assert_eq!(clauses, vec![expected_clause]);
}

#[test]
fn list_of_numbers_folds_to_atoms() {
    let tokens = tokenize("[1, 2, 3]").unwrap();
    let (term, rest) = parse_term(&tokens).unwrap();
    let expected = Term::List(vec![
        Term::Atom("1".to_string()),
        Term::Atom("2".to_string()),
        Term::Atom("3".to_string()),
    ]);
    assert_eq!(term, expected);
    assert!(rest.is_empty());
}

#[test]
fn empty_list_parses() {
    let tokens = tokenize("[]").unwrap();
    let (term, rest) = parse_term(&tokens).unwrap();
    assert_eq!(term, Term::List(vec![]));
    assert!(rest.is_empty());
}

#[test]
fn round_trip_hand_built_tokens() {
    let tokens = vec![
        Token::Atom("f".to_string()),
        Token::LParen,
        Token::LBracket,
        Token::Atom("a".to_string()),
        Token::Comma,
        Token::Variable("X".to_string()),
        Token::RBracket,
        Token::Comma,
        Token::Atom("g".to_string()),
        Token::LParen,
        Token::Atom("b".to_string()),
        Token::RParen,
        Token::RParen,
    ];
    let (term, rest) = parse_term(&tokens).unwrap();
    let expected = Term::Structure {
        functor: "f".to_string(),
        arity: 2,
        args: vec![
            Term::List(vec![
                Term::Atom("a".to_string()),
                Term::Variable("X".to_string()),
            ]),
            Term::Structure {
                functor: "g".to_string(),
                arity: 1,
                args: vec![Term::Atom("b".to_string())],
            },
        ],
    };
    assert_eq!(term, expected);
    assert!(rest.is_empty());
}

#[test]
fn structure_arity_matches_args() {
    let clauses = parse("f(a, b, c).").unwrap();
    match &clauses[0].head {
        Term::Structure { arity, args, .. } => {
            assert_eq!(*arity, 3);
            assert_eq!(*arity, args.len());
        }
        other => panic!("expected a structure, got {:?}", other),
    }
}

#[test]
fn deeply_nested_terms_parse() {
    let depth = 200;
    let mut input = String::new();
    for _ in 0..depth {
        input.push_str("f(");
    }
    input.push('a');
    for _ in 0..depth {
        input.push(')');
    }
    input.push('.');
    let clauses = parse(&input).unwrap();
    assert_eq!(clauses.len(), 1);
    let mut t = &clauses[0].head;
    let mut seen = 0;
    while let Term::Structure { functor, arity, args } = t {
        assert_eq!(functor, "f");
        assert_eq!(*arity, 1);
        seen += 1;
        t = &args[0];
    }
    assert_eq!(seen, depth);
    assert_eq!(t, &Term::Atom("a".to_string()));
}

#[test]
fn missing_close_paren_is_end_of_input() {
    let result = parse("foo(bar");
    assert!(matches!(result, Err(ParseError::UnexpectedEndOfInput)));
}

#[test]
fn missing_terminator_is_end_of_input() {
    let result = parse("foo");
    assert!(matches!(result, Err(ParseError::UnexpectedEndOfInput)));
}

#[test]
fn stray_token_is_unexpected() {
    match parse("foo)") {
        Err(ParseError::UnexpectedToken(Token::RParen)) => {}
        other => panic!("expected UnexpectedToken(RParen), got {:?}", other),
    }
}

#[test]
fn lexer_failure_is_wrapped() {
    match parse("likes(john, pizza?).") {
        Err(ParseError::LexerError(_)) => {}
        other => panic!("expected a wrapped lexing error, got {:?}", other),
    }
}

#[test]
fn body_accepts_semicolon_and_comma_alike() {
    let with_comma = parse("h :- a, b.").unwrap();
    let with_semi = parse("h :- a; b.").unwrap();
    assert_eq!(with_comma, with_semi);
    assert_eq!(with_comma[0].body.len(), 2);
}

#[test]
fn fact_has_empty_body() {
    let clauses = parse("sunny.").unwrap();
    assert_eq!(clauses, vec![Clause { head: Term::Atom("sunny".to_string()), body: vec![] }]);
}

#[test]
fn several_clauses_parse_in_order() {
    let clauses = parse("a. b. c :- a.").unwrap();
    assert_eq!(clauses.len(), 3);
    assert_eq!(clauses[0].head, Term::Atom("a".to_string()));
    assert_eq!(clauses[1].head, Term::Atom("b".to_string()));
    assert_eq!(clauses[2].head, Term::Atom("c".to_string()));
    assert_eq!(clauses[2].body, vec![Term::Atom("a".to_string())]);
}

#[test]
fn empty_input_is_no_clauses() {
    assert_eq!(parse("").unwrap(), vec![]);
    assert_eq!(parse("  % only a comment\n").unwrap(), vec![]);
}

#[test]
fn number_token_becomes_decimal_atom() {
    let tokens = [Token::Number(-7)];
    let (term, rest) = parse_term(&tokens).unwrap();
    assert_eq!(term, Term::Atom("-7".to_string()));
    assert!(rest.is_empty());
    let tokens = [Token::Number(i64::MIN)];
    let (term, _) = parse_term(&tokens).unwrap();
    assert_eq!(term, Term::Atom("-9223372036854775808".to_string()));
    let tokens = [Token::Number(0)];
    let (term, _) = parse_term(&tokens).unwrap();
    assert_eq!(term, Term::Atom("0".to_string()));
}

#[test]
fn parenthesised_term_groups() {
    let tokens = tokenize("(likes(a, b))").unwrap();
    let (term, rest) = parse_term(&tokens).unwrap();
    assert_eq!(term, Term::Structure {
        functor: "likes".to_string(),
        arity: 2,
        args: vec![Term::Atom("a".to_string()), Term::Atom("b".to_string())],
    });
    assert!(rest.is_empty());
}

#[test]
fn list_elements_stop_without_error() {
    let tokens = tokenize("a, b]").unwrap();
    let (elems, rest) = parse_list_elements(&tokens).unwrap();
    assert_eq!(elems, vec![
        Term::Atom("a".to_string()),
        Term::Atom("b".to_string()),
    ]);
    assert_eq!(rest, &tokens[tokens.len() - 1..]);
}

#[test]
fn whitespace_and_comment_insertion_preserves_clauses() {
    let plain = parse("p(X) :- q(X), r(X).").unwrap();
    let noisy = parse("p( X )\t:- /* why */ q(X) , % trailing\n r(X) .").unwrap();
    assert_eq!(plain, noisy);
}
