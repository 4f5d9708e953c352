use ebnf_toolkit::EbnfError;
use ebnf_toolkit::Token;
use ebnf_toolkit::TokenPayload;
use ebnf_toolkit::lexer::tokenize;

fn assert_span(t: &Token, start: usize, end: usize) {
    assert_eq!(t.span.start, start);
    assert_eq!(t.span.end, end);
}

fn assert_identifier(t: &Token, start: usize, end: usize, text: &str) {
    assert_span(t, start, end);
    match &t.payload {
        TokenPayload::Identifier(s) => assert_eq!(s, text),
        other => panic!("expected an identifier, found {:?}", other),
    }
}

fn assert_literal(t: &Token, start: usize, end: usize, text: &str) {
    assert_span(t, start, end);
    match &t.payload {
        TokenPayload::Literal(s) => assert_eq!(s, text),
        other => panic!("expected a literal, found {:?}", other),
    }
}

fn check_basic_tokens() {
    let input = "message       ::= ['@' tags SPACE] [':' source SPACE ] command [parameters] crlf;";
    let tokens = tokenize(input).unwrap();
    assert_eq!(tokens.len(), 18);
    assert_identifier(&tokens[0], 0, 7, "message");
    assert_span(&tokens[1], 14, 17);
    assert!(matches!(tokens[1].payload, TokenPayload::Equals));
    assert_span(&tokens[2], 18, 19);
    assert!(matches!(tokens[2].payload, TokenPayload::OpeningSquare));
    assert_literal(&tokens[3], 19, 22, "@");
    assert_identifier(&tokens[4], 23, 27, "tags");
    assert_identifier(&tokens[5], 28, 33, "SPACE");
    assert_span(&tokens[6], 33, 34);
    assert!(matches!(tokens[6].payload, TokenPayload::ClosingSquare));
    assert_span(&tokens[7], 35, 36);
    assert!(matches!(tokens[7].payload, TokenPayload::OpeningSquare));
    assert_literal(&tokens[8], 36, 39, ":");
    assert_identifier(&tokens[9], 40, 46, "source");
    assert_identifier(&tokens[10], 47, 52, "SPACE");
    assert_span(&tokens[11], 53, 54);
    assert!(matches!(tokens[11].payload, TokenPayload::ClosingSquare));
    assert_identifier(&tokens[12], 55, 62, "command");
    assert_span(&tokens[13], 63, 64);
    assert!(matches!(tokens[13].payload, TokenPayload::OpeningSquare));
    assert_identifier(&tokens[14], 64, 74, "parameters");
    assert_span(&tokens[15], 74, 75);
    assert!(matches!(tokens[15].payload, TokenPayload::ClosingSquare));
    assert_identifier(&tokens[16], 76, 80, "crlf");
    assert_span(&tokens[17], 80, 81);
    assert!(matches!(tokens[17].payload, TokenPayload::Termination));
}

#[test]
fn basic_token_test() {
    check_basic_tokens();
}

#[test]
fn lexing_basic_token_test() {
    check_basic_tokens();
}

#[test]
fn logos_lexer_basic_token_test() {
    check_basic_tokens();
}

#[test]
fn token_basic_token_test() {
    check_basic_tokens();
}

#[test]
fn unicode_identifier_lexes_as_one_token() {
    let input = "\u{3b6}\u{3c9}\u{3ae}";
    let tokens = tokenize(input).unwrap();
    assert_eq!(tokens.len(), 1);
    match &tokens[0].payload {
        TokenPayload::Identifier(s) => assert_eq!(s, input),
        other => panic!("expected an identifier, found {:?}", other),
    }
    // The span is in bytes: each of the three Greek letters takes two.
    assert_eq!(tokens[0].span.start, 0);
    assert_eq!(tokens[0].span.end, 6);
    assert_eq!(tokens[0].span.line_offset_start.line, 1);
}

#[test]
fn lex_error_on_unclosed_string() {
    let err = tokenize("'Hello").unwrap_err();
    match err {
        EbnfError::LexError { offset, .. } => assert_eq!(offset, 0),
        other => panic!("expected a lex error, found {:?}", other),
    }
}

#[test]
fn comments_commas_and_whitespace_are_skipped() {
    let input = "a, b // trailing comment\nc";
    let tokens = tokenize(input).unwrap();
    assert_eq!(tokens.len(), 3);
    assert_identifier(&tokens[0], 0, 1, "a");
    assert_identifier(&tokens[1], 3, 4, "b");
    assert_identifier(&tokens[2], 25, 26, "c");
    assert_eq!(tokens[2].span.line_offset_start.line, 2);
    assert_eq!(tokens[2].span.line_offset_start.col, 0);
}

#[test]
fn regex_and_escape_tokens() {
    let input = "#'[a-z]+' 'a\\'b'";
    let tokens = tokenize(input).unwrap();
    assert_eq!(tokens.len(), 2);
    match &tokens[0].payload {
        TokenPayload::Regex(s) => assert_eq!(s, "[a-z]+"),
        other => panic!("expected a regex, found {:?}", other),
    }
    match &tokens[1].payload {
        TokenPayload::Literal(s) => assert_eq!(s, "a\\'b"),
        other => panic!("expected a literal, found {:?}", other),
    }
}

#[test]
fn token_slices_form_a_subsequence_of_the_input() {
    let input = "message       ::= ['@' tags SPACE] command; // done";
    let tokens = tokenize(input).unwrap();
    let mut glued = String::new();
    let mut last_end = 0;
    for t in &tokens {
        assert!(t.span.start >= last_end);
        assert!(t.span.start <= t.span.end);
        assert!(t.span.end <= input.len());
        glued.push_str(&input[t.span.start..t.span.end]);
        last_end = t.span.end;
    }
    // The concatenation of the slices re-occurs in the input in order.
    let mut rest = input;
    for piece in tokens.iter().map(|t| &input[t.span.start..t.span.end]) {
        let at = rest.find(piece).unwrap();
        rest = &rest[at + piece.len()..];
    }
    assert_eq!(glued, "message::=['@'tagsSPACE]command;");
}
