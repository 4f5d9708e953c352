//! The textual re-serialization of expressions and rules: each node renders
//! so that re-parsing the result and simplifying yields a value equal to the
//! original simplified node.

use crate::expr::Expr;
use crate::expr::ExprModel;
use crate::expr::Operator;
use crate::expr::model_seq;
use crate::rule::Rule;
use vstd::prelude::*;

verus! {

broadcast use crate::expr::lemma_model_seq;

/// The textual symbol of an operator.
pub open spec fn op_repr(op: Operator) -> Seq<char> {
    match op {
        Operator::OpenedGroup => "("@,
        Operator::ClosedGroup => ")"@,
        Operator::OpenedSquare => "["@,
        Operator::ClosedSquare => "]"@,
        Operator::OpenedBrace => "{"@,
        Operator::ClosedBrace => "}"@,
        Operator::Terminator => ";"@,
        Operator::Equals => "="@,
        Operator::Alternation => "|"@,
        Operator::Kleene => "*"@,
        Operator::Optional => "?"@,
        Operator::Repeat => "+"@,
    }
}

/// The children each wrapped in parentheses and chained with the separator.
pub open spec fn render_items(s: Seq<ExprModel>, sep: Seq<char>) -> Seq<char>
    decreases s, 0int,
{
    if s.len() == 0 {
        Seq::empty()
    } else if s.len() == 1 {
        "("@ + render_expr(s[0]) + ")"@
    } else {
        render_items(s.drop_last(), sep) + sep + "("@ + render_expr(s.last()) + ")"@
    }
}

/// A wrapped slice: the separated children wrapped in one more pair of
/// parentheses.
pub open spec fn render_slice(s: Seq<ExprModel>, sep: Seq<char>) -> Seq<char>
    decreases s, 1int,
{
    "("@ + render_items(s, sep) + ")"@
}

/// The children rendered one after the other, nothing in between.
pub open spec fn render_concat(s: Seq<ExprModel>) -> Seq<char>
    decreases s, 0int,
{
    if s.len() == 0 {
        Seq::empty()
    } else {
        render_concat(s.drop_last()) + render_expr(s.last())
    }
}

/// The canonical text of a node: nonterminals render bare, literals render
/// double-quoted with their text verbatim, regexes render with the `#'…'`
/// notation, groups and choices render as parenthesized slices, optionals in
/// square brackets, repetitions as `{…}` or `(…)*`, and a rule as
/// `name =<children>;`.
pub open spec fn render_expr(e: ExprModel) -> Seq<char>
    decreases e, 2int,
{
    match e {
        ExprModel::Nonterminal { name, .. } => name,
        ExprModel::Literal { text, .. } => "\""@ + text + "\""@,
        ExprModel::Regex { pattern, .. } => "#'"@ + pattern + "'"@,
        ExprModel::Repetition { body, one_needed, .. } => {
            if one_needed {
                "{"@ + render_slice(body, " "@) + "}"@
            } else {
                "("@ + render_slice(body, " "@) + ")*"@
            }
        },
        ExprModel::Optional { body, .. } => "["@ + render_slice(body, " "@) + "]"@,
        ExprModel::Group { body, .. } => render_slice(body, " "@),
        ExprModel::Choice { body, .. } => render_slice(body, "|"@),
        ExprModel::UnparsedOperator { op, .. } => op_repr(op),
        ExprModel::Rule { rule, .. } => rule.name + " ="@ + render_concat(rule.body) + ";"@,
    }
}

/// The canonical text of a whole rule.
pub open spec fn render_rule(r: crate::rule::RuleModel) -> Seq<char> {
    r.name + " ="@ + render_concat(r.body) + ";"@
}

/// The textual symbol of an operator.
fn op_repr_exec(op: Operator) -> (r: String)
    ensures
        r@ == op_repr(op),
{
    let text: &str = match op {
        Operator::OpenedGroup => "(",
        Operator::ClosedGroup => ")",
        Operator::OpenedSquare => "[",
        Operator::ClosedSquare => "]",
        Operator::OpenedBrace => "{",
        Operator::ClosedBrace => "}",
        Operator::Terminator => ";",
        Operator::Equals => "=",
        Operator::Alternation => "|",
        Operator::Kleene => "*",
        Operator::Optional => "?",
        Operator::Repeat => "+",
    };
    text.to_owned()
}

/// The children each wrapped in parentheses and chained with the separator.
fn render_items_exec(v: &Vec<Expr>, sep: &str) -> (r: String)
    ensures
        r@ == render_items(model_seq(v@), sep@),
    decreases v, 0int,
{
    let ghost m = model_seq(v@);
    let mut out = String::new();
    let mut k: usize = 0;
    proof {
        assert(out@ =~= render_items(m.take(0), sep@));
    }
    while k < v.len()
        invariant
            k <= v@.len(),
            m == model_seq(v@),
            out@ == render_items(m.take(k as int), sep@),
        decreases v@.len() - k,
    {
        broadcast use crate::expr::lemma_model_seq;

        proof {
            assert(m.take(k as int + 1).drop_last() =~= m.take(k as int));
            assert(m.take(k as int + 1).last() == v@[k as int].model());
        }
        if k > 0 {
            out.append(sep);
        }
        out.append("(");
        let child = v[k].render();
        out.append(child.as_str());
        out.append(")");
        proof {
            if k == 0 {
                assert(m.take(1).len() == 1);
                assert(m.take(1)[0] == v@[0].model());
                assert(out@ =~= render_items(m.take(1), sep@));
            } else {
                assert(out@ =~= render_items(m.take(k as int + 1), sep@));
            }
        }
        k = k + 1;
    }
    proof {
        assert(m.take(v@.len() as int) =~= m);
    }
    out
}

/// A wrapped slice: the separated children wrapped in one more pair of
/// parentheses.
fn render_slice_exec(v: &Vec<Expr>, sep: &str) -> (r: String)
    ensures
        r@ == render_slice(model_seq(v@), sep@),
    decreases v, 1int,
{
    let mut out = String::new();
    out.append("(");
    let items = render_items_exec(v, sep);
    out.append(items.as_str());
    out.append(")");
    proof {
        assert(out@ =~= render_slice(model_seq(v@), sep@));
    }
    out
}

/// The children rendered one after the other, nothing in between.
fn render_concat_exec(v: &Vec<Expr>) -> (r: String)
    ensures
        r@ == render_concat(model_seq(v@)),
    decreases v, 0int,
{
    let ghost m = model_seq(v@);
    let mut out = String::new();
    let mut k: usize = 0;
    proof {
        assert(out@ =~= render_concat(m.take(0)));
    }
    while k < v.len()
        invariant
            k <= v@.len(),
            m == model_seq(v@),
            out@ == render_concat(m.take(k as int)),
        decreases v@.len() - k,
    {
        broadcast use crate::expr::lemma_model_seq;

        proof {
            assert(m.take(k as int + 1).drop_last() =~= m.take(k as int));
            assert(m.take(k as int + 1).last() == v@[k as int].model());
        }
        let child = v[k].render();
        out.append(child.as_str());
        k = k + 1;
    }
    proof {
        assert(m.take(v@.len() as int) =~= m);
    }
    out
}

impl Expr {
    /// The canonical text of this node, per the re-serialization rules.
    pub fn render(&self) -> (r: String)
        ensures
            r@ == render_expr(self@),
        decreases self, 2int,
    {
        match self {
            Expr::Nonterminal { name, .. } => name.clone(),
            Expr::Literal { str, .. } => {
                let mut out = String::new();
                out.append("\"");
                out.append(str.as_str());
                out.append("\"");
                proof {
                    assert(out@ =~= render_expr(self@));
                }
                out
            },
            Expr::Regex { pattern, .. } => {
                let mut out = String::new();
                out.append("#'");
                out.append(pattern.as_str());
                out.append("'");
                proof {
                    assert(out@ =~= render_expr(self@));
                }
                out
            },
            Expr::Repetition { body, one_needed, .. } => {
                let mut out = String::new();
                let slice = render_slice_exec(body, " ");
                if *one_needed {
                    out.append("{");
                    out.append(slice.as_str());
                    out.append("}");
                } else {
                    out.append("(");
                    out.append(slice.as_str());
                    out.append(")*");
                }
                proof {
                    assert(out@ =~= render_expr(self@));
                }
                out
            },
            Expr::Optional { body, .. } => {
                let mut out = String::new();
                let slice = render_slice_exec(body, " ");
                out.append("[");
                out.append(slice.as_str());
                out.append("]");
                proof {
                    assert(out@ =~= render_expr(self@));
                }
                out
            },
            Expr::Group { body, .. } => render_slice_exec(body, " "),
            Expr::Choice { body, .. } => render_slice_exec(body, "|"),
            Expr::UnparsedOperator { op, .. } => op_repr_exec(*op),
            Expr::Rule { rule, .. } => {
                let mut out = rule.name.clone();
                out.append(" =");
                let children = render_concat_exec(&rule.body);
                out.append(children.as_str());
                out.append(";");
                proof {
                    assert(out@ =~= render_expr(self@));
                }
                out
            },
        }
    }
}

impl Rule {
    /// The canonical text of this rule, per the re-serialization rules.
    pub fn render(&self) -> (r: String)
        ensures
            r@ == render_rule(self@),
    {
        let mut out = self.name.clone();
        out.append(" =");
        let children = render_concat_exec(&self.body);
        out.append(children.as_str());
        out.append(";");
        proof {
            assert(out@ =~= render_rule(self@));
        }
        out
    }
}

} // verus!
