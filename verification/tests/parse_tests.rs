use ebnf_toolkit::Expr;
use ebnf_toolkit::Rule;
use ebnf_toolkit::span::LineCol;
use ebnf_toolkit::Span;

fn one_line_span(start: usize, end: usize) -> Span {
    Span {
        start,
        end,
        line_offset_start: LineCol { line: 1, col: start },
        line_offset_end: LineCol { line: 1, col: end },
    }
}

fn nonterminal(start: usize, end: usize, name: &str) -> Expr {
    Expr::Nonterminal { span: one_line_span(start, end), name: name.to_owned() }
}

fn literal(start: usize, end: usize, text: &str) -> Expr {
    Expr::Literal { span: one_line_span(start, end), str: text.to_owned() }
}

#[test]
fn basic_success() {
    let src = "message       ::= ['@' tags SPACE] [':' source SPACE ] command [parameters] crlf;";
    let parse = Rule::new(src).unwrap_or_else(|e| panic!("{}", e.render()));
    let expected = Rule {
        name: "message".to_owned(),
        body: vec![
            Expr::Optional {
                span: one_line_span(19, 33),
                body: vec![
                    literal(19, 22, "@"),
                    nonterminal(23, 27, "tags"),
                    nonterminal(28, 33, "SPACE"),
                ],
            },
            Expr::Optional {
                span: one_line_span(36, 52),
                body: vec![
                    literal(36, 39, ":"),
                    nonterminal(40, 46, "source"),
                    nonterminal(47, 52, "SPACE"),
                ],
            },
            nonterminal(55, 62, "command"),
            Expr::Optional {
                span: one_line_span(64, 74),
                body: vec![nonterminal(64, 74, "parameters")],
            },
            nonterminal(76, 80, "crlf"),
        ],
    };
    assert_eq!(parse, expected);
}

#[test]
fn basic_span_check() {
    let src = "message       ::= hello;";
    let parse = Rule::new(src).unwrap_or_else(|e| panic!("{}", e.render()));
    let node = parse.body.first().unwrap();
    let s = node.span();
    assert_eq!(&src[s.start..s.end], "hello");
}

#[test]
fn flatten_success() {
    let src = "A | (B | C) | D | E | F";
    let parse = Expr::new(src).unwrap_or_else(|e| panic!("{}", e.render()));
    match &parse {
        Expr::Choice { span, body } => {
            assert_eq!(span.start, 0);
            assert_eq!(span.end, 23);
            assert_eq!(body.len(), 6);
            let expected = [
                (0, 1, "A"),
                (5, 6, "B"),
                (9, 10, "C"),
                (14, 15, "D"),
                (18, 19, "E"),
                (22, 23, "F"),
            ];
            for (child, (start, end, name)) in body.iter().zip(expected) {
                assert_eq!(child, &nonterminal(start, end, name));
            }
        },
        other => panic!("expected a choice, found {:?}", other),
    }
}

#[test]
fn op_parse_fail() {
    let src = ";";
    Expr::new(src).unwrap_err();
}

#[test]
#[should_panic]
fn bracket_parse_fail() {
    let src = "{}";
    Expr::new(src).unwrap_or_else(|e| panic!("{}", e.render()));
}

#[test]
fn expr_parse_rule() {
    let src = "foo = bar;";
    let e = Expr::new(src).unwrap();
    assert!(matches!(e, Expr::Rule { .. }), "{} not a Rule", e.render());
}

#[test]
fn lone_terminator_is_a_parse_error() {
    let err = Rule::new(";").unwrap_err();
    assert!(matches!(err, ebnf_toolkit::EbnfError::ParseError { .. }));
}

#[test]
fn brace_and_postfix_repetitions() {
    let plus = Rule::new("r = A+;").unwrap();
    match &plus.body[0] {
        Expr::Repetition { body, one_needed, .. } => {
            assert!(*one_needed);
            assert_eq!(body.len(), 1);
        },
        other => panic!("expected a repetition, found {:?}", other),
    }
    let star = Rule::new("r = A*;").unwrap();
    match &star.body[0] {
        Expr::Repetition { one_needed, .. } => assert!(!*one_needed),
        other => panic!("expected a repetition, found {:?}", other),
    }
    let braced = Rule::new("r = {A};").unwrap();
    match &braced.body[0] {
        Expr::Repetition { one_needed, .. } => assert!(*one_needed),
        other => panic!("expected a repetition, found {:?}", other),
    }
}
