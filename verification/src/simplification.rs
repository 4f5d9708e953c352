//! The post-parse simplifier: two idempotent rewrites applied bottom-up that
//! collapse redundant group wrappings and flatten nested choice chains into
//! n-ary form, recomputing every compound node's span as the union of its
//! children's spans.

use crate::expr::Expr;
use crate::expr::ExprModel;
use crate::expr::lemma_model_seq;
use crate::expr::lemma_model_seq_push;
use crate::expr::model_seq;
use crate::parser::union_spans;
use crate::rule::Rule;
use crate::rule::RuleModel;
use crate::span::Span;
use vstd::prelude::*;

verus! {

broadcast use crate::expr::lemma_model_seq, crate::expr::lemma_model_seq_push;

/// The span a processed compound node gets: the union of its children's
/// spans, or the node's own former span when the body is empty.
pub open spec fn body_span(b: Seq<ExprModel>, fallback: Span) -> Span {
    if b.len() == 0 {
        fallback
    } else {
        union_spans(b)
    }
}

/// The segment with each direct group child replaced by that child's body,
/// in place.
pub open spec fn flatten_group_children(s: Seq<ExprModel>) -> Seq<ExprModel>
    decreases s.len(),
{
    if s.len() == 0 {
        Seq::empty()
    } else {
        flatten_group_children(s.drop_last()) + (match s.last() {
            ExprModel::Group { body, .. } => body,
            other => Seq::empty().push(other),
        })
    }
}

/// The segment with each direct choice child replaced by that child's body,
/// in place.
pub open spec fn flatten_choice_children(s: Seq<ExprModel>) -> Seq<ExprModel>
    decreases s.len(),
{
    if s.len() == 0 {
        Seq::empty()
    } else {
        flatten_choice_children(s.drop_last()) + (match s.last() {
            ExprModel::Choice { body, .. } => body,
            other => Seq::empty().push(other),
        })
    }
}

/// Whether some direct child is a group.
pub open spec fn has_group_child(s: Seq<ExprModel>) -> bool {
    exists|i: int| 0 <= i < s.len() && s[i] is Group
}

/// Whether some direct child is a choice.
pub open spec fn has_choice_child(s: Seq<ExprModel>) -> bool {
    exists|i: int| 0 <= i < s.len() && s[i] is Choice
}

/// The first rewrite, applied to one node whose children are already
/// processed: a group inlines its direct group children and collapses to its
/// only child when one remains; an optional or repetition with a direct group
/// child inlines every such child in place.
pub open spec fn collapse_groups_here(e: ExprModel) -> ExprModel {
    match e {
        ExprModel::Group { span, body } => {
            let nb = flatten_group_children(body);
            if nb.len() == 1 {
                nb[0]
            } else {
                ExprModel::Group { span: body_span(nb, span), body: nb }
            }
        },
        ExprModel::Optional { span, body } => {
            if has_group_child(body) {
                let nb = flatten_group_children(body);
                ExprModel::Optional { span: body_span(nb, span), body: nb }
            } else {
                e
            }
        },
        ExprModel::Repetition { span, body, one_needed } => {
            if has_group_child(body) {
                let nb = flatten_group_children(body);
                ExprModel::Repetition { span: body_span(nb, span), body: nb, one_needed }
            } else {
                e
            }
        },
        _ => e,
    }
}

/// The second rewrite, applied to one node whose children are already
/// processed: a choice with a direct choice child concatenates each choice
/// child's body in place.
pub open spec fn flatten_choices_here(e: ExprModel) -> ExprModel {
    match e {
        ExprModel::Choice { span, body } => {
            if has_choice_child(body) {
                let nb = flatten_choice_children(body);
                ExprModel::Choice { span: body_span(nb, span), body: nb }
            } else {
                e
            }
        },
        _ => e,
    }
}

/// The first simplification pass over a whole tree, bottom-up: children are
/// processed, the node's span becomes the union of their spans, and the
/// group-collapsing rewrite is applied.
pub open spec fn pass_groups(e: ExprModel) -> ExprModel
    decreases e,
{
    match e {
        ExprModel::Choice { span, body } => {
            let b = pass_groups_seq(body);
            collapse_groups_here(ExprModel::Choice { span: body_span(b, span), body: b })
        },
        ExprModel::Optional { span, body } => {
            let b = pass_groups_seq(body);
            collapse_groups_here(ExprModel::Optional { span: body_span(b, span), body: b })
        },
        ExprModel::Repetition { span, body, one_needed } => {
            let b = pass_groups_seq(body);
            collapse_groups_here(
                ExprModel::Repetition { span: body_span(b, span), body: b, one_needed },
            )
        },
        ExprModel::Group { span, body } => {
            let b = pass_groups_seq(body);
            collapse_groups_here(ExprModel::Group { span: body_span(b, span), body: b })
        },
        ExprModel::Rule { span, rule } => {
            let b = pass_groups_seq(rule.body);
            ExprModel::Rule {
                span: body_span(b, span),
                rule: RuleModel { name: rule.name, body: b },
            }
        },
        _ => e,
    }
}

/// The first pass, elementwise.
pub open spec fn pass_groups_seq(s: Seq<ExprModel>) -> Seq<ExprModel>
    decreases s,
{
    if s.len() == 0 {
        Seq::empty()
    } else {
        pass_groups_seq(s.drop_last()).push(pass_groups(s.last()))
    }
}

/// The second simplification pass over a whole tree, bottom-up: children are
/// processed, the node's span becomes the union of their spans, and the
/// choice-flattening rewrite is applied.
pub open spec fn pass_choices(e: ExprModel) -> ExprModel
    decreases e,
{
    match e {
        ExprModel::Choice { span, body } => {
            let b = pass_choices_seq(body);
            flatten_choices_here(ExprModel::Choice { span: body_span(b, span), body: b })
        },
        ExprModel::Optional { span, body } => {
            let b = pass_choices_seq(body);
            ExprModel::Optional { span: body_span(b, span), body: b }
        },
        ExprModel::Repetition { span, body, one_needed } => {
            let b = pass_choices_seq(body);
            ExprModel::Repetition { span: body_span(b, span), body: b, one_needed }
        },
        ExprModel::Group { span, body } => {
            let b = pass_choices_seq(body);
            ExprModel::Group { span: body_span(b, span), body: b }
        },
        ExprModel::Rule { span, rule } => {
            let b = pass_choices_seq(rule.body);
            ExprModel::Rule {
                span: body_span(b, span),
                rule: RuleModel { name: rule.name, body: b },
            }
        },
        _ => e,
    }
}

/// The second pass, elementwise.
pub open spec fn pass_choices_seq(s: Seq<ExprModel>) -> Seq<ExprModel>
    decreases s,
{
    if s.len() == 0 {
        Seq::empty()
    } else {
        pass_choices_seq(s.drop_last()).push(pass_choices(s.last()))
    }
}

/// Both simplification rewrites, in order.
pub open spec fn simp(e: ExprModel) -> ExprModel {
    pass_choices(pass_groups(e))
}

/// Both simplification rewrites, elementwise.
pub open spec fn simp_seq(s: Seq<ExprModel>) -> Seq<ExprModel> {
    pass_choices_seq(pass_groups_seq(s))
}

/// The elementwise passes commute with indexing.
pub broadcast proof fn lemma_pass_seq_index(s: Seq<ExprModel>)
    ensures
        (#[trigger] pass_groups_seq(s)).len() == s.len(),
        forall|i: int| 0 <= i < s.len() ==> pass_groups_seq(s)[i] == pass_groups(s[i]),
        (#[trigger] pass_choices_seq(s)).len() == s.len(),
        forall|i: int| 0 <= i < s.len() ==> pass_choices_seq(s)[i] == pass_choices(s[i]),
    decreases s.len(),
{
    if s.len() > 0 {
        lemma_pass_seq_index(s.drop_last());
    }
}

} // verus!

verus! {

/// The union of the spans of the nodes, or the fallback when there are none.
pub(crate) fn union_of_spans(v: &Vec<Expr>, fallback: Span) -> (r: Span)
    ensures
        r == body_span(model_seq(v@), fallback),
{
    let ghost m = model_seq(v@);
    let n = v.len();
    if n == 0 {
        return fallback;
    }
    let mut u = v[0].span();
    proof {
        assert(u == union_spans(m.take(1)));
    }
    let mut k: usize = 1;
    while k < n
        invariant
            1 <= k <= n,
            n == v@.len(),
            m == model_seq(v@),
            u == union_spans(m.take(k as int)),
        decreases n - k,
    {
        proof {
            assert(m.take(k as int + 1).drop_last() =~= m.take(k as int));
            assert(m.take(k as int + 1).last() == v@[k as int].model());
        }
        u = u.union(v[k].span());
        k = k + 1;
    }
    proof {
        assert(m.take(n as int) =~= m);
    }
    u
}

/// Whether some direct child is a group.
fn has_group_child_exec(v: &Vec<Expr>) -> (r: bool)
    ensures
        r == has_group_child(model_seq(v@)),
{
    let ghost m = model_seq(v@);
    let mut k: usize = 0;
    while k < v.len()
        invariant
            k <= v@.len(),
            m == model_seq(v@),
            forall|i: int| 0 <= i < k ==> !(m[i] is Group),
        decreases v@.len() - k,
    {
        let is_group = match &v[k] {
            Expr::Group { .. } => true,
            _ => false,
        };
        if is_group {
            proof {
                assert(m[k as int] is Group);
            }
            return true;
        }
        k = k + 1;
    }
    false
}

/// Whether some direct child is a choice.
fn has_choice_child_exec(v: &Vec<Expr>) -> (r: bool)
    ensures
        r == has_choice_child(model_seq(v@)),
{
    let ghost m = model_seq(v@);
    let mut k: usize = 0;
    while k < v.len()
        invariant
            k <= v@.len(),
            m == model_seq(v@),
            forall|i: int| 0 <= i < k ==> !(m[i] is Choice),
        decreases v@.len() - k,
    {
        let is_choice = match &v[k] {
            Expr::Choice { .. } => true,
            _ => false,
        };
        if is_choice {
            proof {
                assert(m[k as int] is Choice);
            }
            return true;
        }
        k = k + 1;
    }
    false
}

/// Copies the nodes with each direct group child replaced by that child's
/// body, in place.
fn flatten_groups_exec(v: &Vec<Expr>) -> (r: Vec<Expr>)
    ensures
        model_seq(r@) == flatten_group_children(model_seq(v@)),
{
    let ghost m = model_seq(v@);
    let mut out: Vec<Expr> = Vec::new();
    proof {
        assert(model_seq(out@) =~= flatten_group_children(m.take(0)));
    }
    let mut k: usize = 0;
    while k < v.len()
        invariant
            k <= v@.len(),
            m == model_seq(v@),
            model_seq(out@) == flatten_group_children(m.take(k as int)),
        decreases v@.len() - k,
    {
        proof {
            assert(m.take(k as int + 1).drop_last() =~= m.take(k as int));
            assert(m.take(k as int + 1).last() == v@[k as int].model());
        }
        match &v[k] {
            Expr::Group { body, .. } => {
                let ghost gb = model_seq(body@);
                let ghost base = model_seq(out@);
                let mut t: usize = 0;
                proof {
                    assert(base + gb.take(0) =~= base);
                }
                while t < body.len()
                    invariant
                        t <= body@.len(),
                        gb == model_seq(body@),
                        model_seq(out@) == base + gb.take(t as int),
                    decreases body@.len() - t,
                {
                    let ghost bvec = out@;
                    out.push(body[t].duplicate());
                    proof {
                        assert(out@ == bvec.push(out@.last()));
                        assert(base + gb.take(t as int + 1) =~= (base + gb.take(t as int)).push(
                            gb[t as int],
                        ));
                    }
                    t = t + 1;
                }
                proof {
                    assert(gb.take(body@.len() as int) =~= gb);
                    assert(m[k as int] matches ExprModel::Group { body: b, .. } && b == gb);
                    assert(model_seq(out@) =~= flatten_group_children(m.take(k as int + 1)));
                }
            },
            _ => {
                let ghost bvec = out@;
                out.push(v[k].duplicate());
                proof {
                    assert(out@ == bvec.push(out@.last()));
                    assert(model_seq(out@) =~= flatten_group_children(m.take(k as int + 1)));
                }
            },
        }
        k = k + 1;
    }
    proof {
        assert(m.take(v@.len() as int) =~= m);
    }
    out
}

/// Copies the nodes with each direct choice child replaced by that child's
/// body, in place.
fn flatten_choices_exec(v: &Vec<Expr>) -> (r: Vec<Expr>)
    ensures
        model_seq(r@) == flatten_choice_children(model_seq(v@)),
{
    let ghost m = model_seq(v@);
    let mut out: Vec<Expr> = Vec::new();
    proof {
        assert(model_seq(out@) =~= flatten_choice_children(m.take(0)));
    }
    let mut k: usize = 0;
    while k < v.len()
        invariant
            k <= v@.len(),
            m == model_seq(v@),
            model_seq(out@) == flatten_choice_children(m.take(k as int)),
        decreases v@.len() - k,
    {
        proof {
            assert(m.take(k as int + 1).drop_last() =~= m.take(k as int));
            assert(m.take(k as int + 1).last() == v@[k as int].model());
        }
        match &v[k] {
            Expr::Choice { body, .. } => {
                let ghost gb = model_seq(body@);
                let ghost base = model_seq(out@);
                let mut t: usize = 0;
                proof {
                    assert(base + gb.take(0) =~= base);
                }
                while t < body.len()
                    invariant
                        t <= body@.len(),
                        gb == model_seq(body@),
                        model_seq(out@) == base + gb.take(t as int),
                    decreases body@.len() - t,
                {
                    let ghost bvec = out@;
                    out.push(body[t].duplicate());
                    proof {
                        assert(out@ == bvec.push(out@.last()));
                        assert(base + gb.take(t as int + 1) =~= (base + gb.take(t as int)).push(
                            gb[t as int],
                        ));
                    }
                    t = t + 1;
                }
                proof {
                    assert(gb.take(body@.len() as int) =~= gb);
                    assert(m[k as int] matches ExprModel::Choice { body: b, .. } && b == gb);
                    assert(model_seq(out@) =~= flatten_choice_children(m.take(k as int + 1)));
                }
            },
            _ => {
                let ghost bvec = out@;
                out.push(v[k].duplicate());
                proof {
                    assert(out@ == bvec.push(out@.last()));
                    assert(model_seq(out@) =~= flatten_choice_children(m.take(k as int + 1)));
                }
            },
        }
        k = k + 1;
    }
    proof {
        assert(m.take(v@.len() as int) =~= m);
    }
    out
}

/// Applies the group-collapsing rewrite to one node whose children are
/// already processed.
fn collapse_groups_here_exec(node: Expr) -> (r: Expr)
    ensures
        r@ == collapse_groups_here(node@),
{
    match node {
        Expr::Group { span, body } => {
            let mut nb = flatten_groups_exec(&body);
            if nb.len() == 1 {
                let only = nb.pop().unwrap();
                proof {
                    assert(model_seq(nb@.push(only)) == flatten_group_children(
                        model_seq(body@),
                    ));
                    assert(flatten_group_children(model_seq(body@))[0] == only.model());
                }
                only
            } else {
                let sp = union_of_spans(&nb, span);
                Expr::Group { span: sp, body: nb }
            }
        },
        Expr::Optional { span, body } => {
            if has_group_child_exec(&body) {
                let nb = flatten_groups_exec(&body);
                let sp = union_of_spans(&nb, span);
                Expr::Optional { span: sp, body: nb }
            } else {
                Expr::Optional { span, body }
            }
        },
        Expr::Repetition { span, body, one_needed } => {
            if has_group_child_exec(&body) {
                let nb = flatten_groups_exec(&body);
                let sp = union_of_spans(&nb, span);
                Expr::Repetition { span: sp, body: nb, one_needed }
            } else {
                Expr::Repetition { span, body, one_needed }
            }
        },
        other => other,
    }
}

/// The first simplification pass, bottom-up over a whole tree.
fn pass_groups_exec(e: &Expr) -> (r: Expr)
    ensures
        r@ == pass_groups(e@),
    decreases e,
{
    match e {
        Expr::Choice { span, body } => {
            let b = pass_groups_vec(body);
            let sp = union_of_spans(&b, *span);
            collapse_groups_here_exec(Expr::Choice { span: sp, body: b })
        },
        Expr::Optional { span, body } => {
            let b = pass_groups_vec(body);
            let sp = union_of_spans(&b, *span);
            collapse_groups_here_exec(Expr::Optional { span: sp, body: b })
        },
        Expr::Repetition { span, body, one_needed } => {
            let b = pass_groups_vec(body);
            let sp = union_of_spans(&b, *span);
            collapse_groups_here_exec(
                Expr::Repetition { span: sp, body: b, one_needed: *one_needed },
            )
        },
        Expr::Group { span, body } => {
            let b = pass_groups_vec(body);
            let sp = union_of_spans(&b, *span);
            collapse_groups_here_exec(Expr::Group { span: sp, body: b })
        },
        Expr::Rule { span, rule } => {
            let b = pass_groups_vec(&rule.body);
            let sp = union_of_spans(&b, *span);
            Expr::Rule { span: sp, rule: Rule { name: rule.name.clone(), body: b } }
        },
        _ => e.duplicate(),
    }
}

/// The first pass, elementwise.
fn pass_groups_vec(v: &Vec<Expr>) -> (r: Vec<Expr>)
    ensures
        model_seq(r@) == pass_groups_seq(model_seq(v@)),
    decreases v,
{
    let ghost m = model_seq(v@);
    let mut out: Vec<Expr> = Vec::new();
    proof {
        assert(model_seq(out@) =~= pass_groups_seq(m.take(0)));
    }
    let mut k: usize = 0;
    while k < v.len()
        invariant
            k <= v@.len(),
            m == model_seq(v@),
            model_seq(out@) == pass_groups_seq(m.take(k as int)),
        decreases v@.len() - k,
    {
        proof {
            assert(m.take(k as int + 1).drop_last() =~= m.take(k as int));
            assert(m.take(k as int + 1).last() == v@[k as int].model());
        }
        let ghost bvec = out@;
        out.push(pass_groups_exec(&v[k]));
        proof {
            assert(out@ == bvec.push(out@.last()));
        }
        k = k + 1;
    }
    proof {
        assert(m.take(v@.len() as int) =~= m);
    }
    out
}

/// The second simplification pass, bottom-up over a whole tree.
fn pass_choices_exec(e: &Expr) -> (r: Expr)
    ensures
        r@ == pass_choices(e@),
    decreases e,
{
    match e {
        Expr::Choice { span, body } => {
            let b = pass_choices_vec(body);
            let sp = union_of_spans(&b, *span);
            if has_choice_child_exec(&b) {
                let nb = flatten_choices_exec(&b);
                let sp2 = union_of_spans(&nb, sp);
                Expr::Choice { span: sp2, body: nb }
            } else {
                Expr::Choice { span: sp, body: b }
            }
        },
        Expr::Optional { span, body } => {
            let b = pass_choices_vec(body);
            let sp = union_of_spans(&b, *span);
            Expr::Optional { span: sp, body: b }
        },
        Expr::Repetition { span, body, one_needed } => {
            let b = pass_choices_vec(body);
            let sp = union_of_spans(&b, *span);
            Expr::Repetition { span: sp, body: b, one_needed: *one_needed }
        },
        Expr::Group { span, body } => {
            let b = pass_choices_vec(body);
            let sp = union_of_spans(&b, *span);
            Expr::Group { span: sp, body: b }
        },
        Expr::Rule { span, rule } => {
            let b = pass_choices_vec(&rule.body);
            let sp = union_of_spans(&b, *span);
            Expr::Rule { span: sp, rule: Rule { name: rule.name.clone(), body: b } }
        },
        _ => e.duplicate(),
    }
}

/// The second pass, elementwise.
fn pass_choices_vec(v: &Vec<Expr>) -> (r: Vec<Expr>)
    ensures
        model_seq(r@) == pass_choices_seq(model_seq(v@)),
    decreases v,
{
    let ghost m = model_seq(v@);
    let mut out: Vec<Expr> = Vec::new();
    proof {
        assert(model_seq(out@) =~= pass_choices_seq(m.take(0)));
    }
    let mut k: usize = 0;
    while k < v.len()
        invariant
            k <= v@.len(),
            m == model_seq(v@),
            model_seq(out@) == pass_choices_seq(m.take(k as int)),
        decreases v@.len() - k,
    {
        proof {
            assert(m.take(k as int + 1).drop_last() =~= m.take(k as int));
            assert(m.take(k as int + 1).last() == v@[k as int].model());
        }
        let ghost bvec = out@;
        out.push(pass_choices_exec(&v[k]));
        proof {
            assert(out@ == bvec.push(out@.last()));
        }
        k = k + 1;
    }
    proof {
        assert(m.take(v@.len() as int) =~= m);
    }
    out
}

/// Rewrites a tree into its canonical simplified form: redundant group
/// wrappings collapse and nested choice chains flatten, with every compound
/// node's span recomputed as the union of its children's spans.
pub fn simplify_node(n: &mut Expr)
    ensures
        final(n)@ == simp(old(n)@),
{
    let a = pass_groups_exec(n);
    let b = pass_choices_exec(&a);
    *n = b;
}

} // verus!
