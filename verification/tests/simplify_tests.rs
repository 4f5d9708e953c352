use ebnf_toolkit::Expr;
use ebnf_toolkit::Rule;
use ebnf_toolkit::Span;
use ebnf_toolkit::expr::shape_eq;
use ebnf_toolkit::simplification::simplify_node;
use ebnf_toolkit::span::LineCol;

#[test]
fn flatten_choice1() {
    let span = Span::dummy();
    let val = Expr::Choice {
        span,
        body: vec![
            Expr::Choice {
                span,
                body: vec![
                    Expr::Nonterminal { span, name: "nonterminal0027".to_owned() },
                    Expr::Nonterminal { span, name: "nonterminal0028".to_owned() },
                ],
            },
            Expr::Literal { span, str: "literal1".to_owned() },
        ],
    };
    let mut simplified = val;
    simplify_node(&mut simplified);
    match &simplified {
        Expr::Choice { body, .. } => {
            assert_eq!(body.len(), 3);
            assert!(matches!(&body[0], Expr::Nonterminal { name, .. } if name == "nonterminal0027"));
            assert!(matches!(&body[1], Expr::Nonterminal { name, .. } if name == "nonterminal0028"));
            assert!(matches!(&body[2], Expr::Literal { str, .. } if str == "literal1"));
        },
        other => panic!("expected a choice, found {:?}", other),
    }
}

#[test]
fn redundant_groups_collapse() {
    let span = Span::dummy();
    let val = Expr::Group {
        span,
        body: vec![Expr::Group {
            span,
            body: vec![Expr::Nonterminal { span, name: "x".to_owned() }],
        }],
    };
    let mut simplified = val;
    simplify_node(&mut simplified);
    assert!(matches!(&simplified, Expr::Nonterminal { name, .. } if name == "x"));
}

#[test]
fn span_union_laws_on_values() {
    let a = Span {
        start: 3,
        end: 9,
        line_offset_start: LineCol { line: 1, col: 3 },
        line_offset_end: LineCol { line: 1, col: 9 },
    };
    let b = Span {
        start: 1,
        end: 5,
        line_offset_start: LineCol { line: 1, col: 1 },
        line_offset_end: LineCol { line: 1, col: 5 },
    };
    let c = Span {
        start: 7,
        end: 20,
        line_offset_start: LineCol { line: 2, col: 0 },
        line_offset_end: LineCol { line: 2, col: 13 },
    };
    assert_eq!(a.union(b), b.union(a));
    assert_eq!(a.union(b).union(c), a.union(b.union(c)));
    assert_eq!(a.union(a), a);
    let u = a.union(b);
    assert_eq!(u.start, 1);
    assert_eq!(u.end, 9);
}

#[test]
fn display_roundtrip_through_rule() {
    // Wrapping an expression's rendering inside `rule = ...;` and reparsing
    // yields the same tree, up to the new source positions.
    let srcs = ["A | (B | C) | D | E | F", "[x y]", "z*", "{w}", "q?", "\"lit\"", "#'p+'"];
    for src in srcs {
        let e = Expr::new(src).unwrap_or_else(|err| panic!("{}", err.render()));
        let rendered = e.render();
        let mut rule_text = String::from("rule = ");
        rule_text.push_str(&rendered);
        rule_text.push(';');
        let rule = Rule::new(&rule_text).unwrap_or_else(|err| panic!("{}", err.render()));
        assert_eq!(rule.body.len(), 1, "{rule_text}");
        let mut reparsed = rule.body.into_iter().next().unwrap();
        simplify_node(&mut reparsed);
        assert!(shape_eq(&e, &reparsed), "{src} came back as {}", reparsed.render());
    }
}

#[test]
fn display_roundtrip_through_rule_new() {
    let srcs = [
        "success = A | (B | C) | D | E | F;",
        "message = ['@' tags SPACE] command;",
        "rep = {x} y* z+;",
    ];
    for src in srcs {
        let r = Rule::new(src).unwrap_or_else(|err| panic!("{}", err.render()));
        let rendered = r.render();
        let reparsed = Rule::new(&rendered).unwrap_or_else(|err| panic!("{}", err.render()));
        assert_eq!(r.name, reparsed.name);
        assert_eq!(r.body.len(), reparsed.body.len(), "{rendered}");
        for (x, y) in r.body.iter().zip(reparsed.body.iter()) {
            assert!(shape_eq(x, y), "{rendered}");
        }
    }
}

#[test]
fn flatten_success_renders_canonically() {
    let e = Expr::new("A | (B | C) | D | E | F").unwrap();
    assert_eq!(e.render(), "((A)|(B)|(C)|(D)|(E)|(F))");
}
