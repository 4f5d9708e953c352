use ebnf_toolkit::EbnfError;
use ebnf_toolkit::Rule;

#[test]
fn incomplete_rule() {
    let src = "Foo = A|";
    let err = Rule::new(src).unwrap_err();
    assert!(matches!(err, EbnfError::ParseError { .. }));
    assert_eq!(err.offset(), Some(8));
    let report = err.render();
    assert!(report.contains("Unexpected end of input at index 8"));
    assert!(report.contains("Operator not understood"));
    assert!(report.contains("The parse stack looked like this (most recent on top):"));
}

#[test]
fn invalid_syntax_rule() {
    let srcs = ["Foo = A|;", "Foo = (A;", "Foo = (?;"];
    for src in srcs {
        let err = Rule::new(src).unwrap_err();
        assert!(matches!(err, EbnfError::ParseError { .. }));
        let report = err.render();
        assert!(report.contains("Rule ending here did not parse successfully"));
        if src == "Foo = A|;" {
            assert!(report.contains("Operator not understood"));
        }
        if src == "Foo = (A;" {
            assert!(report.contains("Possible unclosed bracket"));
        }
        if src == "Foo = (?;" {
            assert!(report.contains("Possible unclosed bracket"));
            assert!(report.contains("Could not apply to preceding term"));
        }
    }
}

#[test]
fn invalid_start() {
    let srcs = [
        "'Hello' = A;",
        "A? = A;",
        "A* = A;",
        "? = A;",
        "#'aaa' = A;",
        "A|B = A;",
    ];
    for src in srcs {
        let err = Rule::new(src).unwrap_err();
        assert_eq!(err, err);
        assert!(matches!(err, EbnfError::ParseError { .. }));
        let report = err.render();
        assert!(report.contains("Rule ending here did not parse successfully"));
        if src == "'Hello' = A;" {
            assert!(report.contains("Expected identifier, found Literal"));
        }
        if src == "A|B = A;" {
            assert!(report.contains("Expected identifier, found Choice"));
        }
    }
}

#[test]
fn empty_input() {
    let src = "";
    let err = Rule::new(src).unwrap_err();
    assert_eq!(err, EbnfError::EmptyInput);
    assert_eq!(err.render(), "Input string was empty");
}

#[test]
fn unclosed_string() {
    let input = "'Hello";
    let err = Rule::new(input).unwrap_err();
    assert_eq!(err, err);
    match &err {
        EbnfError::LexError { input: carried, offset } => {
            assert_eq!(carried, input);
            assert_eq!(*offset, 0);
        },
        other => panic!("expected a lex error, found {:?}", other),
    }
    let report = err.render();
    assert!(report.contains("Tokenization error"));
    assert!(report.contains("Is this the beginning of an unclosed string?"));
}

#[test]
fn missing_semicolon_hint() {
    let err = Rule::new("Foo = A B").unwrap_err();
    let report = err.render();
    assert!(report.contains("Missing semicolon here"));
}

#[test]
fn whitespace_only_input_is_empty() {
    let err = Rule::new("   \n  ").unwrap_err();
    assert_eq!(err, EbnfError::EmptyInput);
}

#[test]
fn error_accessors_and_equality() {
    let a = Rule::new("Foo = (?;").unwrap_err();
    let b = Rule::new("Foo = (?;").unwrap_err();
    assert_eq!(a, b);
    assert_eq!(a.input(), Some("Foo = (?;"));
    let lex = Rule::new("'oops").unwrap_err();
    assert!(a != lex);
    assert_eq!(lex.offset(), Some(0));
}

#[test]
fn lex_error_at_multibyte_character_renders() {
    // The inverted exclamation mark takes two bytes; the label around it must
    // sit on character boundaries, not cut the character in half.
    let err = Rule::new("\u{00a1}").unwrap_err();
    assert!(matches!(err, EbnfError::LexError { .. }));
    let report = err.render();
    assert!(report.contains("Tokenization error"));
}
