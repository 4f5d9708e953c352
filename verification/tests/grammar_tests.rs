use ebnf_toolkit::Expr;
use ebnf_toolkit::Grammar;
use ebnf_toolkit::Rule;
use ebnf_toolkit::Span;

static SRC: &str = r#"
message       ::= ['@' tags SPACE] [':' source SPACE ] command [parameters] crlf;
tags          ::= tag [';' tag]*;
tag           ::= key ['=' escaped_value];
key           ::= [ client_prefix ] [ vendor '/' ] key_name;
vendor        ::= #'[a-zA-Z0-9]+';
key_name      ::= #'[a-zA-Z0-9]+'; // this is a comment
command       ::= #'[a-zA-Z0-9]+';
escaped_value ::= #'[a-zA-Z0-9]+';
client_prefix ::= '+';
source          ::=  servername | username;
username        ::=  ( nick [ '!' user ] [ '@' host ] );
nick            ::=  #'[^ \\0\r\n #][^\\0\r\n ]*';
user            ::=  #'[^\r\n ]';
servername      ::=  #'[a-zA-Z0-9]+';
host            ::=  #'[a-zA-Z0-9.]+';
parameters      ::=  ( SPACE middle )* [ SPACE ':' trailing ];
middle          ::=  nospcrlfcl ( ':' | nospcrlfcl )*;
trailing        ::=  ( ':' | ' ' | nospcrlfcl )*;
nospcrlfcl      ::=  #'[^ :\r\n]';
SPACE           ::= ' '+;
crlf            ::= '\r\n';
"#;

#[test]
fn irc_grammar() {
    let g = Grammar::new(SRC).unwrap_or_else(|e| panic!("{}", e.render()));
    assert_eq!(g.first_dangling_reference(), None);
    let names = [
        "tags",
        "tag",
        "key",
        "vendor",
        "key_name",
        "command",
        "escaped_value",
        "client_prefix",
        "source",
        "username",
        "nick",
        "user",
        "servername",
        "host",
        "parameters",
        "middle",
        "trailing",
        "nospcrlfcl",
        "SPACE",
        "crlf",
    ];
    for name in names {
        let rule = g.get(name).unwrap_or_else(|| panic!("missing rule {name}"));
        assert_eq!(rule.name, name);
        assert!(!rule.body.is_empty());
    }
    // Spot checks: crlf is a single literal kept verbatim, and source is a
    // choice of two nonterminals.
    match &g.get("crlf").unwrap().body[0] {
        Expr::Literal { str, .. } => assert_eq!(str, "\\r\\n"),
        other => panic!("expected a literal, found {:?}", other),
    }
    match &g.get("source").unwrap().body[0] {
        Expr::Choice { body, .. } => assert_eq!(body.len(), 2),
        other => panic!("expected a choice, found {:?}", other),
    }
    assert!(g.get("message").unwrap().contains_any_nonterminal());
    assert!(!g.get("crlf").unwrap().contains_any_nonterminal());
    assert!(!g.get("message").unwrap().is_recursive());
}

#[test]
fn nonterminals() {
    let span = Span::dummy();
    let body = vec![
        Expr::Group {
            span,
            body: vec![
                Expr::Nonterminal { span, name: "A".to_owned() },
                Expr::Nonterminal { span, name: "B".to_owned() },
            ],
        },
        Expr::Nonterminal { span, name: "C".to_owned() },
    ];
    let nonterms = Rule { body, name: String::new() }.nonterminals();
    assert_eq!(nonterms, vec!["C".to_owned(), "A".to_owned(), "B".to_owned()]);
}

#[test]
fn nonterminals_nested() {
    let src = "Foo = (A|#'Hello'|'Goodbye'|B?)*;";
    let nonterms = Rule::new(src).unwrap().nonterminals();
    assert_eq!(nonterms, vec!["A".to_owned(), "B".to_owned()]);
}

#[test]
fn duplicate_names() {
    let src = "A = B; A = C; B = A|B; B = C; C = A; C = B|C;  D = C|D; D = A|B;";
    let g = Grammar::new(src).unwrap();

    let check = |name: &str, span_start: usize, span_end: usize, kids: &[(&str, usize)]| {
        let rule = g.get(name).unwrap();
        assert_eq!(rule.body.len(), 1);
        match &rule.body[0] {
            Expr::Choice { span, body } => {
                assert_eq!(span.start, span_start);
                assert_eq!(span.end, span_end);
                assert_eq!(body.len(), kids.len());
                for (child, (kid_name, kid_start)) in body.iter().zip(kids) {
                    match child {
                        Expr::Nonterminal { span, name } => {
                            assert_eq!(name, kid_name);
                            assert_eq!(span.start, *kid_start);
                        },
                        other => panic!("expected a nonterminal, found {:?}", other),
                    }
                }
            },
            other => panic!("expected a choice, found {:?}", other),
        }
    };

    check("A", 4, 12, &[("B", 4), ("C", 11)]);
    check("B", 18, 28, &[("A", 18), ("B", 20), ("C", 27)]);
    check("C", 34, 44, &[("A", 34), ("B", 41), ("C", 43)]);
    check("D", 51, 63, &[("C", 51), ("D", 53), ("A", 60), ("B", 62)]);
}

#[test]
fn first_dangling_reference_found() {
    let g = Grammar::new("A = B;").unwrap();
    assert_eq!(
        g.first_dangling_reference(),
        Some(("A".to_owned(), "B".to_owned()))
    );
}

#[test]
fn self_reference_is_not_dangling() {
    let g = Grammar::new("A = A;").unwrap();
    assert_eq!(g.first_dangling_reference(), None);
    assert!(g.get("A").unwrap().is_recursive());
}
