use lexer::{Diagnostic, Literal, ScanState, Token, TokenType, Tokenizer};

fn token(token_type: TokenType, text: &str) -> Token {
    Token { token_type, token_data: text.to_string() }
}

fn run(input: &str) -> Tokenizer {
    let mut tokenizer = Tokenizer::new(input);
    tokenizer.tokenize();
    tokenizer
}

#[test]
fn test_new() {
    let input = "main := \"Hello World\"\n";
    println!("input: {:?}", input);
    println!("Error:");
    let mut tokenizer = Tokenizer::new(input);
    tokenizer.tokenize();
    println!("Tokens:\n{:?}\n", tokenizer.tokens());

    let expected_tokens = vec![
        Token {
            token_type: TokenType::Keyword,
            token_data: "main".to_string(),
        },
        Token {
            token_type: TokenType::Operator,
            token_data: ":=".to_string(),
        },
        Token {
            token_type: TokenType::Literal(Literal::Str),
            token_data: "Hello World".to_string(),
        },
    ];

    assert_eq!(*tokenizer.tokens(), expected_tokens);
}

#[test]
fn a_new_tokenizer_holds_the_words_and_nothing_else() {
    let tokenizer = Tokenizer::new("main := 1");
    assert_eq!(*tokenizer.words(), vec!["main".to_string(), ":=".to_string(), "1".to_string()]);
    assert!(tokenizer.tokens().is_empty());
    assert!(tokenizer.diagnostics().is_empty());
}

#[test]
fn words_are_cut_at_every_space() {
    assert_eq!(*Tokenizer::new("").words(), vec![String::new()]);
    assert_eq!(*Tokenizer::new(" ").words(), vec![String::new(), String::new()]);
    assert_eq!(*Tokenizer::new("a  b ").words(), vec!["a", "", "b", ""]);
    assert_eq!(*Tokenizer::new("a\tb\n").words(), vec!["a\tb\n"]);
}

#[test]
fn quoted_string_round_trip() {
    let tokenizer = run("main := \"Hello World\"");
    assert_eq!(
        *tokenizer.tokens(),
        vec![
            token(TokenType::Keyword, "main"),
            token(TokenType::Operator, ":="),
            token(TokenType::Literal(Literal::Str), "Hello World"),
        ]
    );
    assert!(tokenizer.diagnostics().is_empty());
}

#[test]
fn well_formed_words_give_one_token_each() {
    let input = "main in out int str x y1 a_b := + 12 -5 - 1-2";
    let tokenizer = run(input);
    let expected = vec![
        token(TokenType::Keyword, "main"),
        token(TokenType::Keyword, "in"),
        token(TokenType::Keyword, "out"),
        token(TokenType::Keyword, "int"),
        token(TokenType::Keyword, "str"),
        token(TokenType::Identifier, "x"),
        token(TokenType::Identifier, "y1"),
        token(TokenType::Identifier, "a_b"),
        token(TokenType::Operator, ":="),
        token(TokenType::Operator, "+"),
        token(TokenType::Literal(Literal::Int), "12"),
        token(TokenType::Literal(Literal::Int), "-5"),
        token(TokenType::Literal(Literal::Int), "-"),
        token(TokenType::Literal(Literal::Int), "1-2"),
    ];
    assert_eq!(tokenizer.tokens().len(), input.split(' ').count());
    assert_eq!(*tokenizer.tokens(), expected);
    assert!(tokenizer.diagnostics().is_empty());
}

#[test]
fn the_same_source_gives_the_same_tokens() {
    let input = "x := \"a b\" Main @foo 7 \"open";
    let first = run(input);
    let second = run(input);
    assert_eq!(first.tokens(), second.tokens());
    assert_eq!(first.diagnostics(), second.diagnostics());
    assert_eq!(first.tokens().len(), 4);
    assert_eq!(first.diagnostics().len(), 3);
}

#[test]
fn minus_one_is_an_integer() {
    let tokenizer = run("-1");
    assert_eq!(*tokenizer.tokens(), vec![token(TokenType::Literal(Literal::Int), "-1")]);
    assert!(tokenizer.diagnostics().is_empty());
}

#[test]
fn a_lone_dash_is_an_integer_before_it_is_an_operator() {
    assert!(Tokenizer::is_operator("-"));
    assert!(Tokenizer::is_literal_int("-"));
    let tokenizer = run("-");
    assert_eq!(*tokenizer.tokens(), vec![token(TokenType::Literal(Literal::Int), "-")]);
}

#[test]
fn a_capital_start_is_rejected() {
    let tokenizer = run("Main");
    assert!(tokenizer.tokens().is_empty());
    assert_eq!(
        *tokenizer.diagnostics(),
        vec![Diagnostic::InvalidIdentifierStart("Main".to_string())]
    );
}

#[test]
fn an_unknown_word_is_reported() {
    let tokenizer = run("@foo");
    assert!(tokenizer.tokens().is_empty());
    assert_eq!(*tokenizer.diagnostics(), vec![Diagnostic::UnknownToken("@foo".to_string())]);
    assert_eq!(tokenizer.diagnostics()[0].message(), "Unknown token: @foo");
}

#[test]
fn a_string_over_three_words() {
    let tokenizer = run("x := \"a b c\"");
    assert_eq!(
        *tokenizer.tokens(),
        vec![
            token(TokenType::Identifier, "x"),
            token(TokenType::Operator, ":="),
            token(TokenType::Literal(Literal::Str), "a b c"),
        ]
    );
    assert!(tokenizer.diagnostics().is_empty());
}

#[test]
fn a_string_over_many_words() {
    let tokenizer = run("\"one two three four five six\"");
    assert_eq!(
        *tokenizer.tokens(),
        vec![token(TokenType::Literal(Literal::Str), "one two three four five six")]
    );
    assert!(tokenizer.diagnostics().is_empty());
}

#[test]
fn spaces_inside_a_string_are_kept_one_by_one() {
    let tokenizer = run("\"a  b\"");
    assert_eq!(*tokenizer.tokens(), vec![token(TokenType::Literal(Literal::Str), "a  b")]);
    let tokenizer = run("\" \"");
    assert_eq!(*tokenizer.tokens(), vec![token(TokenType::Literal(Literal::Str), " ")]);
}

#[test]
fn an_empty_source_gives_nothing() {
    let tokenizer = run("");
    assert!(tokenizer.tokens().is_empty());
    assert!(tokenizer.diagnostics().is_empty());
}

#[test]
fn empty_words_give_nothing() {
    let tokenizer = run("  a   b  ");
    assert_eq!(
        *tokenizer.tokens(),
        vec![token(TokenType::Identifier, "a"), token(TokenType::Identifier, "b")]
    );
    assert!(tokenizer.diagnostics().is_empty());
}

#[test]
fn white_space_inside_a_word_cuts_it() {
    let tokenizer = run("x\ty\n");
    assert_eq!(
        *tokenizer.tokens(),
        vec![token(TokenType::Identifier, "x"), token(TokenType::Identifier, "y")]
    );
    let tokenizer = run("a\u{a0}b\u{3000}c");
    assert_eq!(tokenizer.tokens().len(), 3);
}

#[test]
fn a_diagnostic_does_not_stop_its_word() {
    let tokenizer = run("a\t@\tb c");
    assert_eq!(
        *tokenizer.tokens(),
        vec![
            token(TokenType::Identifier, "a"),
            token(TokenType::Identifier, "b"),
            token(TokenType::Identifier, "c"),
        ]
    );
    assert_eq!(*tokenizer.diagnostics(), vec![Diagnostic::UnknownToken("@".to_string())]);

    let tokenizer = run("Big\tsmall next");
    assert_eq!(
        *tokenizer.tokens(),
        vec![token(TokenType::Identifier, "small"), token(TokenType::Identifier, "next")]
    );
    assert_eq!(
        *tokenizer.diagnostics(),
        vec![Diagnostic::InvalidIdentifierStart("Big".to_string())]
    );
}

#[test]
fn a_fragment_behind_an_unknown_one_is_still_a_token() {
    let mut tokenizer = Tokenizer::new("");
    tokenizer.process_word("@foo\tbar");
    assert_eq!(*tokenizer.tokens(), vec![token(TokenType::Identifier, "bar")]);
    assert_eq!(*tokenizer.diagnostics(), vec![Diagnostic::UnknownToken("@foo".to_string())]);
}

#[test]
fn each_fragment_gives_a_token_or_a_diagnostic() {
    let word = "@\tMain\t1\n#\r\nx\u{a0}:=\tZ9";
    let mut tokenizer = Tokenizer::new("");
    tokenizer.process_word(word);
    assert_eq!(
        *tokenizer.tokens(),
        vec![
            token(TokenType::Literal(Literal::Int), "1"),
            token(TokenType::Identifier, "x"),
            token(TokenType::Operator, ":="),
        ]
    );
    assert_eq!(
        *tokenizer.diagnostics(),
        vec![
            Diagnostic::UnknownToken("@".to_string()),
            Diagnostic::InvalidIdentifierStart("Main".to_string()),
            Diagnostic::UnknownToken("#".to_string()),
            Diagnostic::InvalidIdentifierStart("Z9".to_string()),
        ]
    );
    assert_eq!(
        tokenizer.tokens().len() + tokenizer.diagnostics().len(),
        word.split_whitespace().count()
    );

    for source in SOURCES {
        if source.contains('"') {
            continue;
        }
        let tokenizer = run(source);
        assert_eq!(
            tokenizer.tokens().len() + tokenizer.diagnostics().len(),
            source.split_whitespace().count(),
            "{:?}",
            source
        );
    }
}

#[test]
fn every_problem_is_reported_in_one_pass() {
    let tokenizer = run("Main @foo x a@ 9x _y");
    assert_eq!(*tokenizer.tokens(), vec![token(TokenType::Identifier, "x")]);
    assert_eq!(
        *tokenizer.diagnostics(),
        vec![
            Diagnostic::InvalidIdentifierStart("Main".to_string()),
            Diagnostic::UnknownToken("@foo".to_string()),
            Diagnostic::UnknownToken("a@".to_string()),
            Diagnostic::UnknownToken("9x".to_string()),
            Diagnostic::UnknownToken("_y".to_string()),
        ]
    );
}

#[test]
fn an_open_string_at_the_end_is_reported() {
    let tokenizer = run("x \"abc def");
    assert_eq!(*tokenizer.tokens(), vec![token(TokenType::Identifier, "x")]);
    assert_eq!(*tokenizer.diagnostics(), vec![Diagnostic::UnterminatedString]);
}

#[test]
fn a_string_may_be_glued_to_its_neighbours() {
    let tokenizer = run("x\"abc def\"y");
    assert_eq!(
        *tokenizer.tokens(),
        vec![
            token(TokenType::Identifier, "x"),
            token(TokenType::Literal(Literal::Str), "abc def"),
            token(TokenType::Identifier, "y"),
        ]
    );
    assert!(tokenizer.diagnostics().is_empty());
}

#[test]
fn a_second_quote_in_the_opening_word_stays_in_the_string() {
    let tokenizer = run("\"a\" b\"");
    assert_eq!(*tokenizer.tokens(), vec![token(TokenType::Literal(Literal::Str), "a\" b")]);
    assert!(tokenizer.diagnostics().is_empty());

    let tokenizer = run("\"a\"");
    assert!(tokenizer.tokens().is_empty());
    assert_eq!(*tokenizer.diagnostics(), vec![Diagnostic::UnterminatedString]);
}

#[test]
fn what_follows_a_closing_quote_opens_no_string() {
    let tokenizer = run("\"a b\"c\"d e");
    assert_eq!(
        *tokenizer.tokens(),
        vec![token(TokenType::Literal(Literal::Str), "a b"), token(TokenType::Identifier, "e")]
    );
    assert_eq!(*tokenizer.diagnostics(), vec![Diagnostic::UnknownToken("c\"d".to_string())]);
}

#[test]
fn text_beyond_ascii_passes_through() {
    let tokenizer = run("x := \"gr\u{fc}\u{df} dich\" \u{e9}t\u{e9}");
    assert_eq!(
        *tokenizer.tokens(),
        vec![
            token(TokenType::Identifier, "x"),
            token(TokenType::Operator, ":="),
            token(TokenType::Literal(Literal::Str), "gr\u{fc}\u{df} dich"),
        ]
    );
    assert_eq!(
        *tokenizer.diagnostics(),
        vec![Diagnostic::UnknownToken("\u{e9}t\u{e9}".to_string())]
    );
}

#[test]
fn a_second_scan_adds_behind_the_first() {
    let mut tokenizer = Tokenizer::new("a Main");
    tokenizer.tokenize();
    tokenizer.tokenize();
    assert_eq!(
        *tokenizer.tokens(),
        vec![token(TokenType::Identifier, "a"), token(TokenType::Identifier, "a")]
    );
    assert_eq!(tokenizer.diagnostics().len(), 2);
    assert_eq!(*tokenizer.words(), vec!["a", "Main"]);
}

#[test]
fn scanning_word_by_word() {
    let mut tokenizer = Tokenizer::new("");
    let state = tokenizer.scan_word(ScanState::Scanning, "x");
    assert_eq!(state, ScanState::Scanning);
    let state = tokenizer.scan_word(state, "y\"Hello");
    assert_eq!(state, ScanState::InString("Hello".to_string()));
    let state = tokenizer.scan_word(state, "big");
    assert_eq!(state, ScanState::InString("Hello big".to_string()));
    let state = tokenizer.scan_word(state, "World\"z");
    assert_eq!(state, ScanState::Scanning);
    assert_eq!(
        *tokenizer.tokens(),
        vec![
            token(TokenType::Identifier, "x"),
            token(TokenType::Identifier, "y"),
            token(TokenType::Literal(Literal::Str), "Hello big World"),
            token(TokenType::Identifier, "z"),
        ]
    );
    let state = tokenizer.scan_word(state, "\"");
    assert_eq!(state, ScanState::InString(String::new()));
    let state = tokenizer.scan_word(state, "\"");
    assert_eq!(state, ScanState::Scanning);
    assert_eq!(tokenizer.tokens()[4], token(TokenType::Literal(Literal::Str), " "));
    assert!(tokenizer.diagnostics().is_empty());
}

#[test]
fn finishing_a_scan() {
    let mut tokenizer = Tokenizer::new("");
    tokenizer.finish(ScanState::Scanning);
    assert!(tokenizer.diagnostics().is_empty());
    tokenizer.finish(ScanState::InString("abc".to_string()));
    assert_eq!(*tokenizer.diagnostics(), vec![Diagnostic::UnterminatedString]);
    assert!(tokenizer.tokens().is_empty());
}

#[test]
fn processing_one_word() {
    let mut tokenizer = Tokenizer::new("");
    tokenizer.process_word("");
    tokenizer.process_word(" \t ");
    assert!(tokenizer.tokens().is_empty());
    tokenizer.process_word("int x");
    tokenizer.process_word("a\"b");
    assert_eq!(
        *tokenizer.tokens(),
        vec![token(TokenType::Keyword, "int"), token(TokenType::Identifier, "x")]
    );
    assert_eq!(*tokenizer.diagnostics(), vec![Diagnostic::UnknownToken("a\"b".to_string())]);
}

#[test]
fn integer_literals() {
    assert!(Tokenizer::is_literal_int("0"));
    assert!(Tokenizer::is_literal_int("1234567890"));
    assert!(Tokenizer::is_literal_int("-1"));
    assert!(Tokenizer::is_literal_int("--1-"));
    assert!(Tokenizer::is_literal_int("-"));
    assert!(Tokenizer::is_literal_int(""));
    assert!(!Tokenizer::is_literal_int("12a"));
    assert!(!Tokenizer::is_literal_int("+1"));
    assert!(!Tokenizer::is_literal_int("1.5"));
    assert!(!Tokenizer::is_literal_int("\u{661}"));
}

#[test]
fn keywords() {
    for word in ["main", "in", "out", "int", "str"] {
        assert!(Tokenizer::is_keyword(word));
    }
    for word in ["", "Main", "mai", "mainx", "i", "string", "IN", "in "] {
        assert!(!Tokenizer::is_keyword(word));
    }
}

#[test]
fn identifiers() {
    assert_eq!(Tokenizer::is_identifier("a"), Ok(true));
    assert_eq!(Tokenizer::is_identifier("abc"), Ok(true));
    assert_eq!(Tokenizer::is_identifier("a1_b2"), Ok(true));
    assert_eq!(Tokenizer::is_identifier("main"), Ok(true));
    assert_eq!(Tokenizer::is_identifier("aB"), Ok(false));
    assert_eq!(Tokenizer::is_identifier("a-b"), Ok(false));
    assert_eq!(Tokenizer::is_identifier("a\u{e9}"), Ok(false));
    assert_eq!(Tokenizer::is_identifier(""), Ok(false));
    assert_eq!(Tokenizer::is_identifier("1a"), Ok(false));
    assert_eq!(Tokenizer::is_identifier("_a"), Ok(false));
    assert_eq!(Tokenizer::is_identifier(":="), Ok(false));
    assert_eq!(Tokenizer::is_identifier("@foo"), Ok(false));
    assert_eq!(
        Tokenizer::is_identifier("Abc"),
        Err(Diagnostic::InvalidIdentifierStart("Abc".to_string()))
    );
    assert_eq!(
        Tokenizer::is_identifier("Z@"),
        Err(Diagnostic::InvalidIdentifierStart("Z@".to_string()))
    );
}

#[test]
fn operators() {
    for word in [":=", "+", "-"] {
        assert!(Tokenizer::is_operator(word));
    }
    for word in ["", "=", ":", "=:", ":==", "++", "*", "- "] {
        assert!(!Tokenizer::is_operator(word));
    }
}

#[test]
fn messages() {
    assert_eq!(Diagnostic::UnknownToken("@foo".to_string()).message(), "Unknown token: @foo");
    assert_eq!(Diagnostic::UnknownToken(String::new()).message(), "Unknown token: ");
    assert_eq!(
        Diagnostic::InvalidIdentifierStart("Main".to_string()).message(),
        "Identifiers should start with a lowercase letter."
    );
    assert_eq!(Diagnostic::UnterminatedString.message(), "Unterminated string literal.");
}

const SOURCES: [&str; 10] = [
    "main := \"Hello World\"\n",
    "x := \"a b c\" + y1 - 12",
    "in x out y int z str w",
    "Main @foo x a@ 9x _y",
    "a\t@\tb c \"open",
    "x\"abc def\"y z\"q r\" s",
    "\"a b\"c d e",
    "  \" \"  ",
    "\u{e9} := \"\u{fc} \u{4e2d}\" -",
    "",
];

#[test]
fn no_token_holds_a_quote_where_no_word_holds_two() {
    for source in SOURCES {
        assert!(source.split(' ').all(|word| word.matches('"').count() <= 1));
        let tokenizer = run(source);
        for token in tokenizer.tokens() {
            assert!(!token.token_data.contains('"'), "{:?} in {:?}", token, source);
        }
    }
}

#[test]
fn the_kind_of_a_token_fits_its_text() {
    for source in SOURCES {
        let tokenizer = run(source);
        for token in tokenizer.tokens() {
            if token.token_type == TokenType::Literal(Literal::Str) {
                continue;
            }
            let text = token.token_data.as_str();
            let expected = if Tokenizer::is_literal_int(text) {
                TokenType::Literal(Literal::Int)
            } else if Tokenizer::is_keyword(text) {
                TokenType::Keyword
            } else if Tokenizer::is_identifier(text) == Ok(true) {
                TokenType::Identifier
            } else {
                assert!(Tokenizer::is_operator(text));
                TokenType::Operator
            };
            assert!(!text.is_empty());
            assert!(!text.contains(char::is_whitespace));
            assert_eq!(token.token_type, expected, "{:?} in {:?}", token, source);
        }
    }
}

#[test]
fn a_scan_only_adds() {
    for source in SOURCES {
        let mut tokenizer = run(source);
        let tokens = tokenizer.tokens().clone();
        let diagnostics = tokenizer.diagnostics().clone();
        let words = tokenizer.words().clone();
        tokenizer.tokenize();
        assert_eq!(tokenizer.tokens()[..tokens.len()], tokens[..]);
        assert_eq!(tokenizer.tokens()[tokens.len()..], tokens[..]);
        assert_eq!(tokenizer.diagnostics()[..diagnostics.len()], diagnostics[..]);
        assert_eq!(*tokenizer.words(), words);
    }
}

#[test]
fn words_in_a_row_are_scanned_one_after_the_other() {
    for source in SOURCES {
        let whole = run(source);
        let mut stepwise = Tokenizer::new("");
        let mut state = ScanState::Scanning;
        for word in source.split(' ') {
            state = stepwise.scan_word(state, word);
        }
        stepwise.finish(state);
        assert_eq!(stepwise.tokens(), whole.tokens());
        assert_eq!(stepwise.diagnostics(), whole.diagnostics());
    }
}

#[test]
fn a_text_between_quotes_comes_back_as_it_stands() {
    for text in ["a b", " ", "  ", "a  b ", "Main @foo 12 :=", "tab\there and\nthere"] {
        let source = format!("\"{}\"", text);
        let tokenizer = run(&source);
        assert_eq!(*tokenizer.tokens(), vec![token(TokenType::Literal(Literal::Str), text)]);
        assert!(tokenizer.diagnostics().is_empty());
    }
}
