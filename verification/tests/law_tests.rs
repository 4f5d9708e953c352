use ebnf_toolkit::Expr;
use ebnf_toolkit::Grammar;
use ebnf_toolkit::Rule;

fn children(e: &Expr) -> &[Expr] {
    match e {
        Expr::Choice { body, .. }
        | Expr::Optional { body, .. }
        | Expr::Repetition { body, .. }
        | Expr::Group { body, .. } => body,
        Expr::Rule { rule, .. } => &rule.body,
        _ => &[],
    }
}

fn assert_no_operator(e: &Expr) {
    assert!(!matches!(e, Expr::UnparsedOperator { .. }), "operator survived: {:?}", e);
    for child in children(e) {
        assert_no_operator(child);
    }
}

fn assert_tight_spans(e: &Expr) {
    let kids = children(e);
    if !kids.is_empty() {
        let mut u = kids[0].span();
        for child in &kids[1..] {
            u = u.union(child.span());
        }
        assert_eq!(e.span(), u, "span is not the union of the children in {:?}", e);
        for child in kids {
            assert_tight_spans(child);
        }
    }
}

fn assert_flat(e: &Expr) {
    match e {
        Expr::Choice { body, .. } => {
            for child in body {
                assert!(!matches!(child, Expr::Choice { .. }), "nested choice in {:?}", e);
            }
        },
        Expr::Optional { body, .. } | Expr::Repetition { body, .. } | Expr::Group {
            body,
            ..
        } => {
            assert!(
                !(body.len() == 1 && matches!(body[0], Expr::Group { .. })),
                "single-group body in {:?}",
                e
            );
        },
        _ => {},
    }
    for child in children(e) {
        assert_flat(child);
    }
}

#[test]
fn parsed_rules_hold_no_operator() {
    let srcs = [
        "message ::= ['@' tags SPACE] command [parameters] crlf;",
        "success = A | (B | C) | D | E | F;",
        "rep = {x} (y z)* w+;",
    ];
    for src in srcs {
        let rule = Rule::new(src).unwrap();
        for node in &rule.body {
            assert_no_operator(node);
        }
    }
    let g = Grammar::new("A = B; A = C; B = (x | y)?;").unwrap();
    for rule in &g.rules {
        for node in &rule.body {
            assert_no_operator(node);
        }
    }
}

#[test]
fn parsed_spans_are_unions_of_children() {
    let srcs = [
        "message ::= ['@' tags SPACE] command [parameters] crlf;",
        "success = A | (B | C) | D | E | F;",
        "rep = {x} (y z)* w+;",
    ];
    for src in srcs {
        let rule = Rule::new(src).unwrap();
        for node in &rule.body {
            assert_tight_spans(node);
        }
    }
    let e = Expr::new("[a (b c) d]").unwrap();
    assert_tight_spans(&e);
}

#[test]
fn simplified_trees_are_flat() {
    let srcs = [
        "success = A | (B | C) | (D | E) | F;",
        "opt = [(a b) c];",
        "grp = ((a b) (c d));",
        "rep = ((a))*;",
    ];
    for src in srcs {
        let rule = Rule::new(src).unwrap();
        for node in &rule.body {
            assert_flat(node);
            assert_no_operator(node);
            assert_tight_spans(node);
        }
    }
}
