//! The stated invariants of parse outputs, proved once and for all: no
//! operator node survives into an output tree, every compound node's span is
//! the union of its children's spans, and simplified trees are canonical (no
//! choice directly holds a choice, and no group, optional or repetition
//! directly holds a group).

use crate::expr::ExprModel;
use crate::expr::all_op_free;
use crate::parser::filter_nonop;
use crate::parser::union_spans;
use crate::rule::RuleModel;
use crate::simplification::collapse_groups_here;
use crate::simplification::flatten_choice_children;
use crate::simplification::flatten_choices_here;
use crate::simplification::flatten_group_children;
use crate::simplification::pass_choices;
use crate::simplification::pass_choices_seq;
use crate::simplification::pass_groups;
use crate::simplification::pass_groups_seq;
use crate::simplification::simp;
use vstd::prelude::*;

verus! {

/// A well-formed stack node: every body anywhere inside it is non-empty and
/// holds no operator node, though the node itself may be an operator.
pub open spec fn node_wf(e: ExprModel) -> bool
    decreases e,
{
    match e {
        ExprModel::Choice { body, .. } => body.len() > 0 && children_wf(body),
        ExprModel::Optional { body, .. } => body.len() > 0 && children_wf(body),
        ExprModel::Repetition { body, .. } => body.len() > 0 && children_wf(body),
        ExprModel::Group { body, .. } => body.len() > 0 && children_wf(body),
        ExprModel::Rule { rule, .. } => rule.body.len() > 0 && children_wf(rule.body),
        _ => true,
    }
}

/// Every node of the sequence is well-formed and is not an operator.
pub open spec fn children_wf(s: Seq<ExprModel>) -> bool
    decreases s,
{
    forall|i: int|
        0 <= i < s.len() ==> !(#[trigger] s[i]).is_operator() && node_wf(s[i])
}

/// Every node of the stack is well-formed.
pub open spec fn stack_wf(st: Seq<ExprModel>) -> bool {
    forall|i: int| 0 <= i < st.len() ==> node_wf(#[trigger] st[i])
}

/// Every compound node's span is the union of its children's spans, and every
/// body is non-empty.
pub open spec fn spans_tight(e: ExprModel) -> bool
    decreases e,
{
    match e {
        ExprModel::Choice { span, body } => body.len() > 0 && span == union_spans(body)
            && all_spans_tight(body),
        ExprModel::Optional { span, body } => body.len() > 0 && span == union_spans(body)
            && all_spans_tight(body),
        ExprModel::Repetition { span, body, .. } => body.len() > 0 && span == union_spans(body)
            && all_spans_tight(body),
        ExprModel::Group { span, body } => body.len() > 0 && span == union_spans(body)
            && all_spans_tight(body),
        ExprModel::Rule { span, rule } => rule.body.len() > 0 && span == union_spans(rule.body)
            && all_spans_tight(rule.body),
        _ => true,
    }
}

/// Every node of the sequence has tight spans.
pub open spec fn all_spans_tight(s: Seq<ExprModel>) -> bool
    decreases s,
{
    forall|i: int| 0 <= i < s.len() ==> spans_tight(#[trigger] s[i])
}

/// No group, optional or repetition anywhere in the tree directly holds a
/// group child.
pub open spec fn groups_flat(e: ExprModel) -> bool
    decreases e,
{
    match e {
        ExprModel::Choice { body, .. } => all_groups_flat(body),
        ExprModel::Optional { body, .. } => no_group_child(body) && all_groups_flat(body),
        ExprModel::Repetition { body, .. } => no_group_child(body) && all_groups_flat(body),
        ExprModel::Group { body, .. } => no_group_child(body) && all_groups_flat(body),
        ExprModel::Rule { rule, .. } => all_groups_flat(rule.body),
        _ => true,
    }
}

/// No node of the sequence is a group.
pub open spec fn no_group_child(s: Seq<ExprModel>) -> bool {
    forall|i: int| 0 <= i < s.len() ==> !((#[trigger] s[i]) is Group)
}

/// Every node of the sequence is group-flat.
pub open spec fn all_groups_flat(s: Seq<ExprModel>) -> bool
    decreases s,
{
    forall|i: int| 0 <= i < s.len() ==> groups_flat(#[trigger] s[i])
}

/// No choice anywhere in the tree directly holds a choice child.
pub open spec fn choices_flat(e: ExprModel) -> bool
    decreases e,
{
    match e {
        ExprModel::Choice { body, .. } => no_choice_child(body) && all_choices_flat(body),
        ExprModel::Optional { body, .. } => all_choices_flat(body),
        ExprModel::Repetition { body, .. } => all_choices_flat(body),
        ExprModel::Group { body, .. } => all_choices_flat(body),
        ExprModel::Rule { rule, .. } => all_choices_flat(rule.body),
        _ => true,
    }
}

/// No node of the sequence is a choice.
pub open spec fn no_choice_child(s: Seq<ExprModel>) -> bool {
    forall|i: int| 0 <= i < s.len() ==> !((#[trigger] s[i]) is Choice)
}

/// Every node of the sequence is choice-flat.
pub open spec fn all_choices_flat(s: Seq<ExprModel>) -> bool
    decreases s,
{
    forall|i: int| 0 <= i < s.len() ==> choices_flat(#[trigger] s[i])
}

/// A canonical output node: free of operators, spans tight, groups collapsed
/// and choices flattened.
pub open spec fn canonical(e: ExprModel) -> bool {
    &&& e.op_free()
    &&& spans_tight(e)
    &&& groups_flat(e)
    &&& choices_flat(e)
}

/// A canonical output rule: a non-empty body of canonical nodes.
pub open spec fn rule_canonical(r: RuleModel) -> bool {
    r.body.len() > 0 && forall|i: int| 0 <= i < r.body.len() ==> canonical(#[trigger] r.body[i])
}

/// A well-formed non-operator node holds no operator anywhere.
pub proof fn lemma_wf_op_free(e: ExprModel)
    requires
        node_wf(e),
        !e.is_operator(),
    ensures
        e.op_free(),
    decreases e,
{
    match e {
        ExprModel::Choice { body, .. } => lemma_wf_op_free_seq(body),
        ExprModel::Optional { body, .. } => lemma_wf_op_free_seq(body),
        ExprModel::Repetition { body, .. } => lemma_wf_op_free_seq(body),
        ExprModel::Group { body, .. } => lemma_wf_op_free_seq(body),
        ExprModel::Rule { rule, .. } => lemma_wf_op_free_seq(rule.body),
        _ => {},
    }
}

/// A sequence of well-formed non-operator nodes holds no operator anywhere.
pub proof fn lemma_wf_op_free_seq(s: Seq<ExprModel>)
    requires
        children_wf(s),
    ensures
        all_op_free(s),
    decreases s,
{
    assert forall|i: int| 0 <= i < s.len() implies (#[trigger] s[i]).op_free() by {
        lemma_wf_op_free(s[i]);
    }
}

} // verus!

verus! {

/// Flattening group children keeps the nodes well-formed and non-operator,
/// and keeps at least one node.
pub proof fn lemma_flatten_groups_wf(s: Seq<ExprModel>)
    requires
        children_wf(s),
    ensures
        children_wf(flatten_group_children(s)),
        s.len() > 0 ==> flatten_group_children(s).len() > 0,
    decreases s.len(),
{
    if s.len() > 0 {
        lemma_flatten_groups_wf(s.drop_last());
        let rest = flatten_group_children(s.drop_last());
        let tail = match s.last() {
            ExprModel::Group { body, .. } => body,
            other => Seq::empty().push(other),
        };
        assert(children_wf(tail)) by {
            match s.last() {
                ExprModel::Group { body, .. } => {
                    assert(node_wf(s.last()));
                },
                _ => {
                    assert(tail[0] == s.last());
                },
            }
        }
        assert forall|i: int|
            0 <= i < (rest + tail).len() implies !(#[trigger] (rest + tail)[i]).is_operator()
            && node_wf((rest + tail)[i]) by {
            if i < rest.len() {
                assert((rest + tail)[i] == rest[i]);
            } else {
                assert((rest + tail)[i] == tail[i - rest.len()]);
            }
        }
        match s.last() {
            ExprModel::Group { body, .. } => {
                assert(node_wf(s.last()));
                assert(body.len() > 0);
            },
            _ => {},
        }
    }
}

/// Flattening choice children keeps the nodes well-formed and non-operator,
/// and keeps at least one node.
pub proof fn lemma_flatten_choices_wf(s: Seq<ExprModel>)
    requires
        children_wf(s),
    ensures
        children_wf(flatten_choice_children(s)),
        s.len() > 0 ==> flatten_choice_children(s).len() > 0,
    decreases s.len(),
{
    if s.len() > 0 {
        lemma_flatten_choices_wf(s.drop_last());
        let rest = flatten_choice_children(s.drop_last());
        let tail = match s.last() {
            ExprModel::Choice { body, .. } => body,
            other => Seq::empty().push(other),
        };
        assert(children_wf(tail)) by {
            match s.last() {
                ExprModel::Choice { body, .. } => {
                    assert(node_wf(s.last()));
                },
                _ => {
                    assert(tail[0] == s.last());
                },
            }
        }
        assert forall|i: int|
            0 <= i < (rest + tail).len() implies !(#[trigger] (rest + tail)[i]).is_operator()
            && node_wf((rest + tail)[i]) by {
            if i < rest.len() {
                assert((rest + tail)[i] == rest[i]);
            } else {
                assert((rest + tail)[i] == tail[i - rest.len()]);
            }
        }
        match s.last() {
            ExprModel::Choice { body, .. } => {
                assert(node_wf(s.last()));
                assert(body.len() > 0);
            },
            _ => {},
        }
    }
}

/// The group-collapsing pass keeps nodes well-formed and non-operator.
pub proof fn lemma_pass_groups_wf(e: ExprModel)
    requires
        node_wf(e),
    ensures
        node_wf(pass_groups(e)),
        !e.is_operator() ==> !pass_groups(e).is_operator(),
    decreases e, 1int,
{
    match e {
        ExprModel::Choice { span, body } => {
            lemma_pass_groups_wf_seq(body);
        },
        ExprModel::Optional { span, body } => {
            lemma_pass_groups_wf_seq(body);
            lemma_flatten_groups_wf(pass_groups_seq(body));
        },
        ExprModel::Repetition { span, body, .. } => {
            lemma_pass_groups_wf_seq(body);
            lemma_flatten_groups_wf(pass_groups_seq(body));
        },
        ExprModel::Group { span, body } => {
            lemma_pass_groups_wf_seq(body);
            lemma_flatten_groups_wf(pass_groups_seq(body));
            let nb = flatten_group_children(pass_groups_seq(body));
            if nb.len() == 1 {
                assert(!nb[0].is_operator() && node_wf(nb[0]));
            }
        },
        ExprModel::Rule { span, rule } => {
            lemma_pass_groups_wf_seq(rule.body);
        },
        _ => {},
    }
}

/// The group-collapsing pass keeps sequences well-formed, elementwise, and
/// keeps their length.
pub proof fn lemma_pass_groups_wf_seq(s: Seq<ExprModel>)
    requires
        children_wf(s),
    ensures
        children_wf(pass_groups_seq(s)),
        pass_groups_seq(s).len() == s.len(),
    decreases s, 0int,
{
    crate::simplification::lemma_pass_seq_index(s);
    assert forall|i: int|
        0 <= i < pass_groups_seq(s).len() implies !(#[trigger] pass_groups_seq(
        s,
    )[i]).is_operator() && node_wf(pass_groups_seq(s)[i]) by {
        assert(pass_groups_seq(s)[i] == pass_groups(s[i]));
        assert(!s[i].is_operator() && node_wf(s[i]));
        lemma_pass_groups_wf(s[i]);
    }
}

/// The choice-flattening pass keeps nodes well-formed and non-operator, and
/// makes every span the union of the children's spans.
pub proof fn lemma_pass_choices_wf(e: ExprModel)
    requires
        node_wf(e),
    ensures
        node_wf(pass_choices(e)),
        !e.is_operator() ==> !pass_choices(e).is_operator(),
        spans_tight(pass_choices(e)),
    decreases e, 1int,
{
    match e {
        ExprModel::Choice { span, body } => {
            lemma_pass_choices_wf_seq(body);
            lemma_flatten_choices_wf(pass_choices_seq(body));
            let b = pass_choices_seq(body);
            let nb = flatten_choice_children(b);
            assert(all_spans_tight(nb)) by {
                assert forall|i: int| 0 <= i < nb.len() implies spans_tight(
                    #[trigger] nb[i],
                ) by {
                    lemma_flatten_choice_elements_tight(b, i);
                }
            }
        },
        ExprModel::Optional { span, body } => {
            lemma_pass_choices_wf_seq(body);
        },
        ExprModel::Repetition { span, body, .. } => {
            lemma_pass_choices_wf_seq(body);
        },
        ExprModel::Group { span, body } => {
            lemma_pass_choices_wf_seq(body);
        },
        ExprModel::Rule { span, rule } => {
            lemma_pass_choices_wf_seq(rule.body);
        },
        _ => {},
    }
}

/// Every node of a flattened choice body has tight spans, provided the nodes
/// being flattened do.
pub proof fn lemma_flatten_choice_elements_tight(b: Seq<ExprModel>, i: int)
    requires
        all_spans_tight(b),
        0 <= i < flatten_choice_children(b).len(),
    ensures
        spans_tight(flatten_choice_children(b)[i]),
    decreases b.len(),
{
    if b.len() > 0 {
        let rest = flatten_choice_children(b.drop_last());
        let tail = match b.last() {
            ExprModel::Choice { body, .. } => body,
            other => Seq::empty().push(other),
        };
        assert(b.last() == b[b.len() - 1]);
        assert(spans_tight(b.last()));
        if i < rest.len() {
            assert forall|k: int| 0 <= k < b.drop_last().len() implies spans_tight(
                #[trigger] b.drop_last()[k],
            ) by {
                assert(b.drop_last()[k] == b[k]);
            }
            lemma_flatten_choice_elements_tight(b.drop_last(), i);
            assert(flatten_choice_children(b)[i] == rest[i]);
        } else {
            assert(flatten_choice_children(b)[i] == tail[i - rest.len()]);
            match b.last() {
                ExprModel::Choice { body, .. } => {
                    assert(spans_tight(tail[i - rest.len()]));
                },
                _ => {
                    assert(tail[0] == b.last());
                },
            }
        }
    }
}

/// The choice-flattening pass keeps sequences well-formed and their spans
/// tight, elementwise, and keeps their length.
pub proof fn lemma_pass_choices_wf_seq(s: Seq<ExprModel>)
    requires
        children_wf(s),
    ensures
        children_wf(pass_choices_seq(s)),
        all_spans_tight(pass_choices_seq(s)),
        pass_choices_seq(s).len() == s.len(),
    decreases s, 0int,
{
    crate::simplification::lemma_pass_seq_index(s);
    assert forall|i: int|
        0 <= i < pass_choices_seq(s).len() implies !(#[trigger] pass_choices_seq(
        s,
    )[i]).is_operator() && node_wf(pass_choices_seq(s)[i]) by {
        assert(pass_choices_seq(s)[i] == pass_choices(s[i]));
        assert(!s[i].is_operator() && node_wf(s[i]));
        lemma_pass_choices_wf(s[i]);
    }
    assert forall|i: int| 0 <= i < pass_choices_seq(s).len() implies spans_tight(
        #[trigger] pass_choices_seq(s)[i],
    ) by {
        assert(pass_choices_seq(s)[i] == pass_choices(s[i]));
        assert(!s[i].is_operator() && node_wf(s[i]));
        lemma_pass_choices_wf(s[i]);
    }
}

} // verus!

verus! {

/// Flattening group children of group-flat nodes leaves no group and keeps
/// every node group-flat.
pub proof fn lemma_flatten_groups_flat(s: Seq<ExprModel>)
    requires
        all_groups_flat(s),
    ensures
        no_group_child(flatten_group_children(s)),
        all_groups_flat(flatten_group_children(s)),
    decreases s.len(),
{
    if s.len() > 0 {
        assert forall|k: int| 0 <= k < s.drop_last().len() implies groups_flat(
            #[trigger] s.drop_last()[k],
        ) by {
            assert(s.drop_last()[k] == s[k]);
        }
        lemma_flatten_groups_flat(s.drop_last());
        let rest = flatten_group_children(s.drop_last());
        let tail = match s.last() {
            ExprModel::Group { body, .. } => body,
            other => Seq::empty().push(other),
        };
        assert(s.last() == s[s.len() - 1]);
        assert(groups_flat(s.last()));
        assert(no_group_child(tail) && all_groups_flat(tail)) by {
            match s.last() {
                ExprModel::Group { body, .. } => {},
                _ => {
                    assert(tail[0] == s.last());
                },
            }
        }
        assert forall|i: int| 0 <= i < (rest + tail).len() implies !((#[trigger] (rest
            + tail)[i]) is Group) && groups_flat((rest + tail)[i]) by {
            if i < rest.len() {
                assert((rest + tail)[i] == rest[i]);
            } else {
                assert((rest + tail)[i] == tail[i - rest.len()]);
            }
        }
    }
}

/// Flattening choice children of choice-flat nodes leaves no choice and keeps
/// every node choice-flat.
pub proof fn lemma_flatten_choices_choices_flat(s: Seq<ExprModel>)
    requires
        all_choices_flat(s),
    ensures
        no_choice_child(flatten_choice_children(s)),
        all_choices_flat(flatten_choice_children(s)),
    decreases s.len(),
{
    if s.len() > 0 {
        assert forall|k: int| 0 <= k < s.drop_last().len() implies choices_flat(
            #[trigger] s.drop_last()[k],
        ) by {
            assert(s.drop_last()[k] == s[k]);
        }
        lemma_flatten_choices_choices_flat(s.drop_last());
        let rest = flatten_choice_children(s.drop_last());
        let tail = match s.last() {
            ExprModel::Choice { body, .. } => body,
            other => Seq::empty().push(other),
        };
        assert(s.last() == s[s.len() - 1]);
        assert(choices_flat(s.last()));
        assert(no_choice_child(tail) && all_choices_flat(tail)) by {
            match s.last() {
                ExprModel::Choice { body, .. } => {},
                _ => {
                    assert(tail[0] == s.last());
                },
            }
        }
        assert forall|i: int| 0 <= i < (rest + tail).len() implies !((#[trigger] (rest
            + tail)[i]) is Choice) && choices_flat((rest + tail)[i]) by {
            if i < rest.len() {
                assert((rest + tail)[i] == rest[i]);
            } else {
                assert((rest + tail)[i] == tail[i - rest.len()]);
            }
        }
    }
}

/// Flattening choice children of group-flat nodes keeps every node
/// group-flat.
pub proof fn lemma_flatten_choices_groups_flat(s: Seq<ExprModel>)
    requires
        all_groups_flat(s),
    ensures
        all_groups_flat(flatten_choice_children(s)),
    decreases s.len(),
{
    if s.len() > 0 {
        assert forall|k: int| 0 <= k < s.drop_last().len() implies groups_flat(
            #[trigger] s.drop_last()[k],
        ) by {
            assert(s.drop_last()[k] == s[k]);
        }
        lemma_flatten_choices_groups_flat(s.drop_last());
        let rest = flatten_choice_children(s.drop_last());
        let tail = match s.last() {
            ExprModel::Choice { body, .. } => body,
            other => Seq::empty().push(other),
        };
        assert(s.last() == s[s.len() - 1]);
        assert(groups_flat(s.last()));
        assert(all_groups_flat(tail)) by {
            match s.last() {
                ExprModel::Choice { body, .. } => {},
                _ => {
                    assert(tail[0] == s.last());
                },
            }
        }
        assert forall|i: int| 0 <= i < (rest + tail).len() implies groups_flat(
            #[trigger] (rest + tail)[i],
        ) by {
            if i < rest.len() {
                assert((rest + tail)[i] == rest[i]);
            } else {
                assert((rest + tail)[i] == tail[i - rest.len()]);
            }
        }
    }
}

/// The group-collapsing pass makes every tree group-flat.
pub proof fn lemma_pass_groups_flat(e: ExprModel)
    ensures
        groups_flat(pass_groups(e)),
    decreases e, 1int,
{
    match e {
        ExprModel::Choice { span, body } => {
            lemma_pass_groups_flat_seq(body);
        },
        ExprModel::Optional { span, body } => {
            lemma_pass_groups_flat_seq(body);
            lemma_flatten_groups_flat(pass_groups_seq(body));
        },
        ExprModel::Repetition { span, body, .. } => {
            lemma_pass_groups_flat_seq(body);
            lemma_flatten_groups_flat(pass_groups_seq(body));
        },
        ExprModel::Group { span, body } => {
            lemma_pass_groups_flat_seq(body);
            lemma_flatten_groups_flat(pass_groups_seq(body));
        },
        ExprModel::Rule { span, rule } => {
            lemma_pass_groups_flat_seq(rule.body);
        },
        _ => {},
    }
}

/// The group-collapsing pass makes every node of a sequence group-flat.
pub proof fn lemma_pass_groups_flat_seq(s: Seq<ExprModel>)
    ensures
        all_groups_flat(pass_groups_seq(s)),
        pass_groups_seq(s).len() == s.len(),
    decreases s, 0int,
{
    crate::simplification::lemma_pass_seq_index(s);
    assert forall|i: int| 0 <= i < pass_groups_seq(s).len() implies groups_flat(
        #[trigger] pass_groups_seq(s)[i],
    ) by {
        assert(pass_groups_seq(s)[i] == pass_groups(s[i]));
        lemma_pass_groups_flat(s[i]);
    }
}

/// The choice-flattening pass keeps each node's variant.
pub proof fn lemma_pass_choices_variant(e: ExprModel)
    ensures
        (pass_choices(e) is Group) == (e is Group),
        (pass_choices(e) is Choice) == (e is Choice),
{
}

/// The choice-flattening pass keeps group-flat trees group-flat.
pub proof fn lemma_pass_choices_groups_flat(e: ExprModel)
    requires
        groups_flat(e),
    ensures
        groups_flat(pass_choices(e)),
    decreases e, 1int,
{
    match e {
        ExprModel::Choice { span, body } => {
            lemma_pass_choices_groups_flat_seq(body);
            lemma_flatten_choices_groups_flat(pass_choices_seq(body));
        },
        ExprModel::Optional { span, body } => {
            lemma_pass_choices_groups_flat_seq(body);
        },
        ExprModel::Repetition { span, body, .. } => {
            lemma_pass_choices_groups_flat_seq(body);
        },
        ExprModel::Group { span, body } => {
            lemma_pass_choices_groups_flat_seq(body);
        },
        ExprModel::Rule { span, rule } => {
            lemma_pass_choices_groups_flat_seq(rule.body);
        },
        _ => {},
    }
}

/// The choice-flattening pass keeps group-flat sequences group-flat,
/// elementwise, without introducing groups.
pub proof fn lemma_pass_choices_groups_flat_seq(s: Seq<ExprModel>)
    requires
        all_groups_flat(s),
    ensures
        all_groups_flat(pass_choices_seq(s)),
        no_group_child(s) ==> no_group_child(pass_choices_seq(s)),
        pass_choices_seq(s).len() == s.len(),
    decreases s, 0int,
{
    crate::simplification::lemma_pass_seq_index(s);
    assert forall|i: int| 0 <= i < pass_choices_seq(s).len() implies groups_flat(
        #[trigger] pass_choices_seq(s)[i],
    ) by {
        assert(pass_choices_seq(s)[i] == pass_choices(s[i]));
        assert(groups_flat(s[i]));
        lemma_pass_choices_groups_flat(s[i]);
    }
    if no_group_child(s) {
        assert forall|i: int| 0 <= i < pass_choices_seq(s).len() implies !((
        #[trigger] pass_choices_seq(s)[i]) is Group) by {
            assert(pass_choices_seq(s)[i] == pass_choices(s[i]));
            assert(!(s[i] is Group));
            lemma_pass_choices_variant(s[i]);
        }
    }
}

/// The choice-flattening pass makes every tree choice-flat.
pub proof fn lemma_pass_choices_flat(e: ExprModel)
    ensures
        choices_flat(pass_choices(e)),
    decreases e, 1int,
{
    match e {
        ExprModel::Choice { span, body } => {
            lemma_pass_choices_flat_seq(body);
            let b = pass_choices_seq(body);
            if crate::simplification::has_choice_child(b) {
                lemma_flatten_choices_choices_flat(b);
            }
        },
        ExprModel::Optional { span, body } => {
            lemma_pass_choices_flat_seq(body);
        },
        ExprModel::Repetition { span, body, .. } => {
            lemma_pass_choices_flat_seq(body);
        },
        ExprModel::Group { span, body } => {
            lemma_pass_choices_flat_seq(body);
        },
        ExprModel::Rule { span, rule } => {
            lemma_pass_choices_flat_seq(rule.body);
        },
        _ => {},
    }
}

/// The choice-flattening pass makes every node of a sequence choice-flat.
pub proof fn lemma_pass_choices_flat_seq(s: Seq<ExprModel>)
    ensures
        all_choices_flat(pass_choices_seq(s)),
        pass_choices_seq(s).len() == s.len(),
    decreases s, 0int,
{
    crate::simplification::lemma_pass_seq_index(s);
    assert forall|i: int| 0 <= i < pass_choices_seq(s).len() implies choices_flat(
        #[trigger] pass_choices_seq(s)[i],
    ) by {
        assert(pass_choices_seq(s)[i] == pass_choices(s[i]));
        lemma_pass_choices_flat(s[i]);
    }
}

/// Simplifying a well-formed non-operator node yields a canonical node.
pub proof fn lemma_simp_canonical(e: ExprModel)
    requires
        node_wf(e),
        !e.is_operator(),
    ensures
        canonical(simp(e)),
        node_wf(simp(e)),
        !simp(e).is_operator(),
{
    lemma_pass_groups_wf(e);
    lemma_pass_groups_flat(e);
    lemma_pass_choices_wf(pass_groups(e));
    lemma_pass_choices_groups_flat(pass_groups(e));
    lemma_pass_choices_flat(pass_groups(e));
    lemma_wf_op_free(simp(e));
}

} // verus!

verus! {

/// Filtering the operators out of well-formed stack nodes leaves well-formed
/// non-operator nodes.
pub proof fn lemma_filter_wf(s: Seq<ExprModel>)
    requires
        forall|i: int| 0 <= i < s.len() ==> node_wf(#[trigger] s[i]),
    ensures
        children_wf(filter_nonop(s)),
    decreases s.len(),
{
    if s.len() > 0 {
        assert forall|i: int| 0 <= i < s.drop_last().len() implies node_wf(
            #[trigger] s.drop_last()[i],
        ) by {
            assert(s.drop_last()[i] == s[i]);
        }
        lemma_filter_wf(s.drop_last());
        let rest = filter_nonop(s.drop_last());
        assert(s.last() == s[s.len() - 1]);
        if !s.last().is_operator() {
            assert forall|i: int|
                0 <= i < rest.push(s.last()).len() implies !(#[trigger] rest.push(
                s.last(),
            )[i]).is_operator() && node_wf(rest.push(s.last())[i]) by {
                if i < rest.len() {
                    assert(rest.push(s.last())[i] == rest[i]);
                } else {
                    assert(rest.push(s.last())[i] == s.last());
                }
            }
        }
    }
}

/// Filtering keeps at least one node where some node is not an operator.
pub proof fn lemma_filter_nonempty(s: Seq<ExprModel>, i: int)
    requires
        0 <= i < s.len(),
        !s[i].is_operator(),
    ensures
        filter_nonop(s).len() > 0,
    decreases s.len(),
{
    if i == s.len() - 1 {
        assert(s.last() == s[i]);
    } else {
        assert(s.drop_last()[i] == s[i]);
        lemma_filter_nonempty(s.drop_last(), i);
    }
}

/// Every node of a non-operator run is indeed not an operator.
pub proof fn lemma_nonop_run_props(st: Seq<ExprModel>, k: int)
    requires
        k < st.len(),
    ensures
        forall|t: int|
            crate::parser::nonop_run_start(st, k) <= t <= k ==> !(#[trigger] st[t]).is_operator(),
    decreases k + 1,
{
    if k >= 0 && !st[k].is_operator() {
        lemma_nonop_run_props(st, k - 1);
    }
}

/// One reduction step keeps every stack node well-formed.
pub proof fn lemma_step_wf(st: Seq<ExprModel>)
    requires
        stack_wf(st),
    ensures
        crate::parser::step(st) matches Some(st2) ==> stack_wf(st2),
{
    let n = st.len() as int;
    if n >= 1 {
        crate::parser::lemma_alt_run_start_bounds(st, n - 1);
        crate::parser::lemma_nonop_run_start_bounds(st, n - 2);
        lemma_nonop_run_props(st, n - 2);
    }
    match crate::parser::step(st) {
        Some(st2) => {
            let start = st2.len() as int - 1;
            let seg = st.subrange(start, n);
            assert forall|i: int| 0 <= i < seg.len() implies node_wf(#[trigger] seg[i]) by {
                assert(seg[i] == st[start + i]);
            }
            lemma_filter_wf(seg);
            // The new node's body is non-empty: each pattern guarantees a
            // non-operator node inside the matched segment.
            if crate::parser::matches_choice(st) {
                assert(seg.len() == n - start);
                assert(seg[seg.len() - 1] == st[n - 1]);
                lemma_filter_nonempty(seg, seg.len() - 1);
            } else if crate::parser::matches_bracketed(
                st,
                crate::expr::Operator::OpenedSquare,
                crate::expr::Operator::ClosedSquare,
            ) {
                assert(seg[n - 2 - start] == st[n - 2]);
                lemma_filter_nonempty(seg, n - 2 - start);
            } else if crate::parser::matches_postfix(st, crate::expr::Operator::Optional)
                || crate::parser::matches_postfix(st, crate::expr::Operator::Kleene)
                || crate::parser::matches_postfix(st, crate::expr::Operator::Repeat) {
                assert(seg[n - 2 - start] == st[n - 2]);
                lemma_filter_nonempty(seg, n - 2 - start);
            } else if crate::parser::matches_braced(st) {
                assert(seg[n - 2 - start] == st[n - 2]);
                lemma_filter_nonempty(seg, n - 2 - start);
            } else if crate::parser::matches_bracketed(
                st,
                crate::expr::Operator::OpenedGroup,
                crate::expr::Operator::ClosedGroup,
            ) {
                assert(seg[n - 2 - start] == st[n - 2]);
                lemma_filter_nonempty(seg, n - 2 - start);
            } else {
                // The rule pattern: the body holds the non-operator run
                // between the equals sign and the terminator.
                assert(crate::parser::matches_rule(st));
                let body = seg.subrange(2, seg.len() - 1);
                assert forall|i: int|
                    0 <= i < body.len() implies !(#[trigger] body[i]).is_operator() && node_wf(
                    body[i],
                ) by {
                    assert(body[i] == st[start + 2 + i]);
                }
            }
            let node = st2.last();
            assert(node_wf(node));
            assert forall|i: int| 0 <= i < st2.len() implies node_wf(#[trigger] st2[i]) by {
                if i < st2.len() - 1 {
                    assert(st2[i] == st.take(start)[i]);
                    assert(st.take(start)[i] == st[i]);
                }
            }
        },
        None => {},
    }
}

/// Reducing to the fixpoint keeps every stack node well-formed.
pub proof fn lemma_reduce_fix_wf(st: Seq<ExprModel>)
    requires
        stack_wf(st),
    ensures
        stack_wf(crate::parser::reduce_fix(st)),
    decreases st.len(),
{
    crate::parser::lemma_step_shrinks(st);
    match crate::parser::step(st) {
        Some(st2) => {
            lemma_step_wf(st);
            lemma_reduce_fix_wf(st2);
        },
        None => {},
    }
}

} // verus!

verus! {

/// Simplifying a well-formed rule node yields a rule node whose rule is
/// canonical.
pub proof fn lemma_simp_rule_canonical(e: ExprModel)
    requires
        node_wf(e),
        e is Rule,
    ensures
        simp(e) is Rule,
        rule_canonical(simp(e)->Rule_rule),
{
    let body = e->Rule_rule.body;
    lemma_pass_groups_wf_seq(body);
    lemma_pass_choices_wf_seq(pass_groups_seq(body));
    let out = pass_choices_seq(pass_groups_seq(body));
    crate::simplification::lemma_pass_seq_index(body);
    crate::simplification::lemma_pass_seq_index(pass_groups_seq(body));
    assert(simp(e)->Rule_rule.body == out);
    assert forall|i: int| 0 <= i < out.len() implies canonical(#[trigger] out[i]) by {
        assert(out[i] == pass_choices(pass_groups_seq(body)[i]));
        assert(pass_groups_seq(body)[i] == pass_groups(body[i]));
        assert(!body[i].is_operator() && node_wf(body[i]));
        lemma_simp_canonical(body[i]);
        assert(simp(body[i]) == pass_choices(pass_groups(body[i])));
    }
}

/// Every rule a successful drive of the loop produces is canonical.
pub proof fn lemma_drive_canonical(
    tokens: Seq<crate::token::TokenModel>,
    input: Seq<char>,
    state: crate::parser::DriveState,
    n: int,
)
    requires
        stack_wf(state.stack),
        forall|i: int|
            0 <= i < state.outputs.len() ==> rule_canonical(#[trigger] state.outputs[i]),
    ensures
        crate::parser::drive(tokens, input, state, n) matches Ok(rules) ==> forall|i: int|
            0 <= i < rules.len() ==> rule_canonical(#[trigger] rules[i]),
    decreases tokens.len() - n,
{
    if n < 0 || n >= tokens.len() {
    } else {
        let st1 = crate::parser::reduce_fix(state.stack);
        lemma_reduce_fix_wf(state.stack);
        let rule_on_top = st1.len() > 0 && st1.last() is Rule;
        if state.eore == Some(n) && !rule_on_top {
        } else {
            let st2 = if rule_on_top {
                st1.drop_last()
            } else {
                st1
            };
            let outputs2 = if rule_on_top {
                state.outputs.push(simp(st1.last())->Rule_rule)
            } else {
                state.outputs
            };
            assert(stack_wf(st2)) by {
                if rule_on_top {
                    assert forall|i: int| 0 <= i < st2.len() implies node_wf(
                        #[trigger] st2[i],
                    ) by {
                        assert(st2[i] == st1[i]);
                    }
                }
            }
            assert forall|i: int| 0 <= i < outputs2.len() implies rule_canonical(
                #[trigger] outputs2[i],
            ) by {
                if rule_on_top {
                    if i < state.outputs.len() {
                        assert(outputs2[i] == state.outputs[i]);
                    } else {
                        assert(st1.last() == st1[st1.len() - 1]);
                        lemma_simp_rule_canonical(st1.last());
                    }
                }
            }
            if n + 1 < tokens.len() {
                let t = tokens[n + 1];
                let eore2 = if t.payload is Termination {
                    Some(n + 1)
                } else {
                    state.eore
                };
                let pushed = st2.push(crate::parser::token_to_node(t));
                assert(stack_wf(pushed)) by {
                    assert forall|i: int| 0 <= i < pushed.len() implies node_wf(
                        #[trigger] pushed[i],
                    ) by {
                        if i < st2.len() {
                            assert(pushed[i] == st2[i]);
                        } else {
                            assert(pushed[i] == crate::parser::token_to_node(t));
                        }
                    }
                }
                lemma_drive_canonical(
                    tokens,
                    input,
                    crate::parser::DriveState { stack: pushed, outputs: outputs2, eore: eore2 },
                    n + 1,
                );
            } else {
                lemma_drive_canonical(
                    tokens,
                    input,
                    crate::parser::DriveState {
                        stack: st2,
                        outputs: outputs2,
                        eore: state.eore,
                    },
                    n + 1,
                );
            }
        }
    }
}

/// Every rule a successful parse of a token stream produces is canonical: its
/// body is non-empty, no operator node survives anywhere in it, every
/// compound node's span is the union of its children's spans, no choice
/// directly holds a choice, and no group, optional or repetition directly
/// holds a group.
pub proof fn lemma_parse_rules_canonical(
    input: Seq<char>,
    tokens: Seq<crate::token::TokenModel>,
)
    ensures
        crate::parser::parse_rules_spec(input, tokens) matches Ok(rules) ==> forall|i: int|
            0 <= i < rules.len() ==> rule_canonical(#[trigger] rules[i]),
{
    if tokens.len() > 0 {
        let st0 = Seq::empty().push(crate::parser::token_to_node(tokens[0]));
        assert(stack_wf(st0)) by {
            assert forall|i: int| 0 <= i < st0.len() implies node_wf(#[trigger] st0[i]) by {
                assert(st0[i] == crate::parser::token_to_node(tokens[0]));
            }
        }
        lemma_drive_canonical(
            tokens,
            input,
            crate::parser::DriveState { stack: st0, outputs: Seq::empty(), eore: None },
            0,
        );
    }
}

/// Every rule `Rule::new` returns is canonical.
pub proof fn lemma_rule_new_canonical(input: Seq<char>)
    ensures
        crate::rule::rule_new_spec(input) matches Ok(r) ==> rule_canonical(r),
{
    match crate::lexer::lex_spec(input) {
        Ok(tokens) => {
            lemma_parse_rules_canonical(input, tokens);
        },
        Err(_) => {},
    }
}

/// The stacks reached while parsing a single expression are well-formed.
pub proof fn lemma_expr_drive_wf(
    tokens: Seq<crate::token::TokenModel>,
    st: Seq<ExprModel>,
    n: int,
)
    requires
        stack_wf(st),
    ensures
        stack_wf(crate::expr::expr_drive(tokens, st, n)),
    decreases tokens.len() - n,
{
    if n < 0 || n >= tokens.len() {
    } else {
        let pushed = st.push(crate::parser::token_to_node(tokens[n]));
        assert(stack_wf(pushed)) by {
            assert forall|i: int| 0 <= i < pushed.len() implies node_wf(#[trigger] pushed[i]) by {
                if i < st.len() {
                    assert(pushed[i] == st[i]);
                } else {
                    assert(pushed[i] == crate::parser::token_to_node(tokens[n]));
                }
            }
        }
        lemma_reduce_fix_wf(pushed);
        lemma_expr_drive_wf(tokens, crate::parser::reduce_fix(pushed), n + 1);
    }
}

/// Every expression `Expr::new` returns is canonical.
pub proof fn lemma_expr_new_canonical(input: Seq<char>)
    ensures
        crate::expr::expr_new_spec(input) matches Ok(e) ==> canonical(e),
{
    match crate::lexer::lex_spec(input) {
        Ok(tokens) => {
            lemma_expr_drive_wf(tokens, Seq::empty(), 0);
            let st = crate::expr::expr_drive(tokens, Seq::empty(), 0);
            if st.len() == 1 && !st[0].is_operator() {
                lemma_simp_canonical(st[0]);
            }
        },
        Err(_) => {},
    }
}

} // verus!

verus! {

/// A valid output rule of a grammar: a non-empty body of nodes that are free
/// of operators and have tight spans. After a duplicate-name merge a rule's
/// top-level choice may hold an inner choice again, so grammar rules promise
/// the operator and span invariants but not flatness.
pub open spec fn rule_output_ok(r: RuleModel) -> bool {
    r.body.len() > 0 && forall|i: int|
        0 <= i < r.body.len() ==> (#[trigger] r.body[i]).op_free() && spans_tight(r.body[i])
}

/// An element of an operator-free sequence is operator-free.
pub proof fn lemma_all_op_free_index(s: Seq<ExprModel>, i: int)
    requires
        all_op_free(s),
        0 <= i < s.len(),
    ensures
        s[i].op_free(),
{
}

/// Canonical rules are valid grammar outputs.
pub proof fn lemma_canonical_output_ok(r: RuleModel)
    requires
        rule_canonical(r),
    ensures
        rule_output_ok(r),
{
    assert forall|i: int|
        0 <= i < r.body.len() implies (#[trigger] r.body[i]).op_free() && spans_tight(
        r.body[i],
    ) by {
        assert(canonical(r.body[i]));
    }
}

/// A body unwrapped for merging keeps non-emptiness, operator-freeness and
/// tight spans.
pub proof fn lemma_unwrap_ok(body: Seq<ExprModel>)
    requires
        body.len() > 0,
        forall|i: int|
            0 <= i < body.len() ==> (#[trigger] body[i]).op_free() && spans_tight(body[i]),
    ensures
        crate::rule::unwrap_choice_body(body).len() > 0,
        forall|i: int|
            0 <= i < crate::rule::unwrap_choice_body(body).len() ==> (
            #[trigger] crate::rule::unwrap_choice_body(body)[i]).op_free() && spans_tight(
                crate::rule::unwrap_choice_body(body)[i],
            ),
{
    let u = crate::rule::unwrap_choice_body(body);
    if body.len() == 1 && body[0] is Choice {
        assert(body[0].op_free() && spans_tight(body[0]));
        let cb = body[0]->Choice_body;
        assert(crate::expr::all_op_free(cb));
        assert(all_spans_tight(cb));
        assert(u == cb);
        assert forall|i: int| 0 <= i < u.len() implies (#[trigger] u[i]).op_free()
            && spans_tight(u[i]) by {
            assert(u[i] == cb[i]);
            lemma_all_op_free_index(cb, i);
            assert(spans_tight(cb[i]));
        }
    }
}

/// The merged body of two valid rules is valid: one choice node over both
/// sides' alternatives, spanning their union.
pub proof fn lemma_merge_ok(a: Seq<ExprModel>, b: Seq<ExprModel>)
    requires
        a.len() > 0,
        b.len() > 0,
        forall|i: int| 0 <= i < a.len() ==> (#[trigger] a[i]).op_free() && spans_tight(a[i]),
        forall|i: int| 0 <= i < b.len() ==> (#[trigger] b[i]).op_free() && spans_tight(b[i]),
    ensures
        crate::rule::merge_bodies(a, b).len() > 0,
        forall|i: int|
            0 <= i < crate::rule::merge_bodies(a, b).len() ==> (#[trigger] crate::rule::merge_bodies(
                a,
                b,
            )[i]).op_free() && spans_tight(crate::rule::merge_bodies(a, b)[i]),
{
    lemma_unwrap_ok(a);
    lemma_unwrap_ok(b);
    let ua = crate::rule::unwrap_choice_body(a);
    let ub = crate::rule::unwrap_choice_body(b);
    let combined = ua + ub;
    assert forall|i: int|
        0 <= i < combined.len() implies (#[trigger] combined[i]).op_free() && spans_tight(
        combined[i],
    ) by {
        if i < ua.len() {
            assert(combined[i] == ua[i]);
        } else {
            assert(combined[i] == ub[i - ua.len()]);
        }
    }
    let node = crate::rule::merge_bodies(a, b)[0];
    assert(node.op_free()) by {
        assert(crate::expr::all_op_free(combined));
    }
    assert(spans_tight(node)) by {
        assert(all_spans_tight(combined));
        assert(crate::simplification::body_span(combined, crate::span::Span::spec_dummy())
            == union_spans(combined));
    }
}

/// Folding one rule into the accumulated grammar keeps every rule valid.
pub proof fn lemma_grammar_insert_ok(acc: Seq<RuleModel>, r: RuleModel)
    requires
        forall|i: int| 0 <= i < acc.len() ==> rule_output_ok(#[trigger] acc[i]),
        rule_output_ok(r),
    ensures
        forall|i: int|
            0 <= i < crate::rule::grammar_insert(acc, r).len() ==> rule_output_ok(
                #[trigger] crate::rule::grammar_insert(acc, r)[i],
            ),
{
    let out = crate::rule::grammar_insert(acc, r);
    let idx = crate::rule::rule_index(acc, r.name);
    crate::rule::lemma_rule_index(acc, r.name);
    assert forall|i: int| 0 <= i < out.len() implies rule_output_ok(#[trigger] out[i]) by {
        if idx == -1 {
            if i < acc.len() {
                assert(out[i] == acc[i]);
            } else {
                assert(out[i] == r);
            }
        } else {
            if i == idx {
                lemma_merge_ok(acc[idx].body, r.body);
            } else {
                assert(out[i] == acc[i]);
            }
        }
    }
}

/// Folding every rule into the accumulated grammar keeps every rule valid.
pub proof fn lemma_grammar_fold_ok(acc: Seq<RuleModel>, list: Seq<RuleModel>, n: int)
    requires
        forall|i: int| 0 <= i < acc.len() ==> rule_output_ok(#[trigger] acc[i]),
        forall|i: int| 0 <= i < list.len() ==> rule_output_ok(#[trigger] list[i]),
    ensures
        forall|i: int|
            0 <= i < crate::rule::grammar_fold(acc, list, n).len() ==> rule_output_ok(
                #[trigger] crate::rule::grammar_fold(acc, list, n)[i],
            ),
    decreases list.len() - n,
{
    if n < 0 || n >= list.len() {
    } else {
        lemma_grammar_insert_ok(acc, list[n]);
        lemma_grammar_fold_ok(crate::rule::grammar_insert(acc, list[n]), list, n + 1);
        assert(crate::rule::grammar_fold(acc, list, n) == crate::rule::grammar_fold(
            crate::rule::grammar_insert(acc, list[n]),
            list,
            n + 1,
        ));
    }
}

/// Every rule `Grammar::new` returns has a non-empty body whose nodes are
/// free of operators and have spans equal to the union of their children's
/// spans.
pub proof fn lemma_grammar_new_ok(input: Seq<char>)
    ensures
        crate::rule::grammar_new_spec(input) matches Ok(rules) ==> forall|i: int|
            0 <= i < rules.len() ==> rule_output_ok(#[trigger] rules[i]),
{
    match crate::lexer::lex_spec(input) {
        Ok(tokens) => {
            lemma_parse_rules_canonical(input, tokens);
            match crate::parser::parse_rules_spec(input, tokens) {
                Ok(rules) => {
                    assert forall|i: int| 0 <= i < rules.len() implies rule_output_ok(
                        #[trigger] rules[i],
                    ) by {
                        lemma_canonical_output_ok(rules[i]);
                    }
                    lemma_grammar_fold_ok(Seq::empty(), rules, 0);
                },
                Err(_) => {},
            }
        },
        Err(_) => {},
    }
}

} // verus!

verus! {

/// A character that the lexer reads as part of an identifier and nothing
/// else: a Unicode letter or digit that is no whitespace and none of the
/// operator, quote, comment or separator characters.
pub open spec fn plain_ident_char(c: char) -> bool {
    &&& crate::lexer::unicode_alphanumeric(c)
    &&& !crate::lexer::unicode_whitespace(c)
    &&& c != '\'' && c != '"' && c != '#' && c != '/' && c != ':' && c != '=' && c != ';'
    &&& c != '|' && c != '?' && c != '*' && c != '+' && c != '(' && c != ')'
    &&& c != '[' && c != ']' && c != '{' && c != '}' && c != ','
}

/// An identifier run over word characters only ends at the end of the input.
proof fn lemma_ident_end_all_word(s: Seq<char>, i: int)
    requires
        0 <= i <= s.len(),
        forall|k: int| 0 <= k < s.len() ==> crate::lexer::is_word_char(#[trigger] s[k]),
    ensures
        crate::lexer::ident_end(s, i) == s.len(),
    decreases s.len() - i,
{
    if i < s.len() {
        lemma_ident_end_all_word(s, i + 1);
    }
}

/// A non-empty string of plain identifier characters lexes as exactly one
/// identifier token carrying the whole string.
pub proof fn lemma_lex_plain_identifier(s: Seq<char>)
    requires
        s.len() > 0,
        forall|i: int| 0 <= i < s.len() ==> plain_ident_char(#[trigger] s[i]),
    ensures
        crate::lexer::lex_spec(s) == Ok::<Seq<crate::token::TokenModel>, usize>(
            Seq::empty().push(
                crate::token::TokenModel {
                    span: crate::lexer::span_at(s, 0, s.len() as int),
                    payload: crate::token::TokenPayloadModel::Identifier(s),
                },
            ),
        ),
{
    assert forall|k: int| 0 <= k < s.len() implies crate::lexer::is_word_char(
        #[trigger] s[k],
    ) by {
        assert(plain_ident_char(s[k]));
    }
    lemma_ident_end_all_word(s, 1);
    assert(plain_ident_char(s[0]));
    assert(crate::lexer::lex_step(s, 0) == (crate::lexer::LexStep::Tok {
        payload: crate::token::TokenPayloadModel::Identifier(s.subrange(0, s.len() as int)),
        end: s.len() as int,
    }));
    assert(s.subrange(0, s.len() as int) =~= s);
    assert(crate::lexer::lex_from(s, s.len() as int) == Ok::<Seq<crate::token::TokenModel>, usize>(
        Seq::empty(),
    ));
    let tok = crate::token::TokenModel {
        span: crate::lexer::span_at(s, 0, s.len() as int),
        payload: crate::token::TokenPayloadModel::Identifier(s),
    };
    assert(Seq::empty().push(tok) + Seq::<crate::token::TokenModel>::empty() =~= Seq::empty().push(
        tok,
    ));
}

/// A stack holding one non-operator node reduces no further.
proof fn lemma_single_node_is_fixed(st: Seq<ExprModel>)
    requires
        st.len() == 1,
        !st[0].is_operator(),
    ensures
        crate::parser::reduce_fix(st) == st,
{
    assert(crate::parser::step(st) is None);
}

/// The round-trip law at a leaf: parsing the rendering of a nonterminal over
/// plain identifier characters yields a nonterminal with the same name, at
/// positions in the rendered text.
pub proof fn lemma_roundtrip_nonterminal(name: Seq<char>, span: crate::span::Span)
    requires
        name.len() > 0,
        forall|i: int| 0 <= i < name.len() ==> plain_ident_char(#[trigger] name[i]),
    ensures
        ({
            let e = ExprModel::Nonterminal { span, name };
            &&& crate::display::render_expr(e) == name
            &&& crate::expr::expr_new_spec(crate::display::render_expr(e)) matches Ok(e2)
                && crate::expr::same_shape(e, e2)
        }),
{
    let e = ExprModel::Nonterminal { span, name };
    assert(crate::display::render_expr(e) == name);
    lemma_lex_plain_identifier(name);
    let tok = crate::token::TokenModel {
        span: crate::lexer::span_at(name, 0, name.len() as int),
        payload: crate::token::TokenPayloadModel::Identifier(name),
    };
    let tokens = Seq::empty().push(tok);
    let node = crate::parser::token_to_node(tok);
    assert(node == (ExprModel::Nonterminal {
        span: crate::lexer::span_at(name, 0, name.len() as int),
        name,
    }));
    let st0 = Seq::<ExprModel>::empty().push(node);
    assert(st0[0] == node);
    lemma_single_node_is_fixed(st0);
    assert(crate::expr::expr_drive(tokens, Seq::empty(), 0) == crate::expr::expr_drive(
        tokens,
        st0,
        1,
    ));
    assert(crate::expr::expr_drive(tokens, st0, 1) == st0);
    assert(crate::simplification::simp(node) == node);
    assert(crate::expr::same_shape(e, node));
}

} // verus!

verus! {

/// The closing-quote scan over plain content finds the final quote.
proof fn lemma_literal_end_plain_all(s: Seq<char>, i: int, quote: char)
    requires
        0 <= i < s.len(),
        quote != '\n',
        quote != '\\',
        s[s.len() - 1] == quote,
        forall|k: int|
            i <= k < s.len() - 1 ==> (#[trigger] s[k]) != quote && s[k] != '\n' && s[k] != '\\',
    ensures
        crate::lexer::literal_end(s, i, quote) == Some(s.len() - 1),
    decreases s.len() - i,
{
    if i < s.len() - 1 {
        lemma_literal_end_plain_all(s, i + 1, quote);
    }
}

/// The round-trip law at a literal leaf: parsing the rendering of a literal
/// whose text holds no double quote, newline or backslash yields a literal
/// with the same text, at positions in the rendered text.
pub proof fn lemma_roundtrip_literal(text: Seq<char>, span: crate::span::Span)
    requires
        forall|i: int|
            0 <= i < text.len() ==> (#[trigger] text[i]) != '"' && text[i] != '\n' && text[i]
                != '\\',
    ensures
        ({
            let e = ExprModel::Literal { span, text };
            crate::expr::expr_new_spec(crate::display::render_expr(e)) matches Ok(e2)
                && crate::expr::same_shape(e, e2)
        }),
{
    let e = ExprModel::Literal { span, text };
    let rendered = crate::display::render_expr(e);
    assert(rendered == "\""@ + text + "\""@);
    lemma_quote_literal();
    let n = rendered.len() as int;
    assert(n == text.len() + 2);
    assert(rendered[0] == '"');
    assert(rendered[n - 1] == '"');
    assert forall|k: int| 0 <= k < n - 1 && k >= 1 implies (#[trigger] rendered[k]) != '"'
        && rendered[k] != '\n' && rendered[k] != '\\' by {
        assert(rendered[k] == text[k - 1]);
    }
    lemma_literal_end_plain_all(rendered, 1, '"');
    assert(crate::lexer::literal_end(rendered, 1, '"') == Some(n - 1));
    assert(crate::lexer::lex_step(rendered, 0) == (crate::lexer::LexStep::Tok {
        payload: crate::token::TokenPayloadModel::Literal(rendered.subrange(1, n - 1)),
        end: n,
    }));
    assert(rendered.subrange(1, n - 1) =~= text);
    assert(crate::lexer::lex_from(rendered, n) == Ok::<Seq<crate::token::TokenModel>, usize>(
        Seq::empty(),
    ));
    let tok = crate::token::TokenModel {
        span: crate::lexer::span_at(rendered, 0, n),
        payload: crate::token::TokenPayloadModel::Literal(text),
    };
    assert(crate::lexer::lex_spec(rendered) == Ok::<Seq<crate::token::TokenModel>, usize>(
        Seq::empty().push(tok),
    )) by {
        assert(Seq::empty().push(tok) + Seq::<crate::token::TokenModel>::empty()
            =~= Seq::empty().push(tok));
    }
    let tokens = Seq::empty().push(tok);
    let node = crate::parser::token_to_node(tok);
    let st0 = Seq::<ExprModel>::empty().push(node);
    assert(st0[0] == node);
    lemma_single_node_is_fixed(st0);
    assert(crate::expr::expr_drive(tokens, Seq::empty(), 0) == crate::expr::expr_drive(
        tokens,
        st0,
        1,
    ));
    assert(crate::expr::expr_drive(tokens, st0, 1) == st0);
    assert(crate::simplification::simp(node) == node);
    assert(crate::expr::same_shape(e, node));
}

/// The quote character is the single character of its literal.
proof fn lemma_quote_literal()
    ensures
        "\""@.len() == 1,
        "\""@[0] == '"',
{
    reveal_strlit("\"");
}

} // verus!

verus! {

/// The closing-quote scan of a regex over plain content finds the final
/// quote.
proof fn lemma_regex_end_plain_all(s: Seq<char>, i: int, quote: char)
    requires
        0 <= i < s.len(),
        quote != '\n',
        s[s.len() - 1] == quote,
        forall|k: int| i <= k < s.len() - 1 ==> (#[trigger] s[k]) != quote && s[k] != '\n',
    ensures
        crate::lexer::regex_end(s, i, quote) == Some(s.len() - 1),
    decreases s.len() - i,
{
    if i < s.len() - 1 {
        lemma_regex_end_plain_all(s, i + 1, quote);
    }
}

/// The round-trip law at a regex leaf: parsing the rendering of a regex whose
/// pattern holds no single quote and no newline yields a regex with the same
/// pattern, at positions in the rendered text.
pub proof fn lemma_roundtrip_regex(pattern: Seq<char>, span: crate::span::Span)
    requires
        forall|i: int|
            0 <= i < pattern.len() ==> (#[trigger] pattern[i]) != '\'' && pattern[i] != '\n',
    ensures
        ({
            let e = ExprModel::Regex { span, pattern };
            crate::expr::expr_new_spec(crate::display::render_expr(e)) matches Ok(e2)
                && crate::expr::same_shape(e, e2)
        }),
{
    let e = ExprModel::Regex { span, pattern };
    let rendered = crate::display::render_expr(e);
    assert(rendered == "#'"@ + pattern + "'"@);
    reveal_strlit("#'");
    reveal_strlit("'");
    let n = rendered.len() as int;
    assert(n == pattern.len() + 3);
    assert(rendered[0] == '#');
    assert(rendered[1] == '\'');
    assert(rendered[n - 1] == '\'');
    assert forall|k: int| 2 <= k < n - 1 implies (#[trigger] rendered[k]) != '\'' && rendered[k]
        != '\n' by {
        assert(rendered[k] == pattern[k - 2]);
    }
    lemma_regex_end_plain_all(rendered, 2, '\'');
    assert(crate::lexer::regex_end(rendered, 2, '\'') == Some(n - 1));
    assert(crate::lexer::lex_step(rendered, 0) == (crate::lexer::LexStep::Tok {
        payload: crate::token::TokenPayloadModel::Regex(rendered.subrange(2, n - 1)),
        end: n,
    }));
    assert(rendered.subrange(2, n - 1) =~= pattern);
    assert(crate::lexer::lex_from(rendered, n) == Ok::<Seq<crate::token::TokenModel>, usize>(
        Seq::empty(),
    ));
    let tok = crate::token::TokenModel {
        span: crate::lexer::span_at(rendered, 0, n),
        payload: crate::token::TokenPayloadModel::Regex(pattern),
    };
    assert(crate::lexer::lex_spec(rendered) == Ok::<Seq<crate::token::TokenModel>, usize>(
        Seq::empty().push(tok),
    )) by {
        assert(Seq::empty().push(tok) + Seq::<crate::token::TokenModel>::empty()
            =~= Seq::empty().push(tok));
    }
    let tokens = Seq::empty().push(tok);
    let node = crate::parser::token_to_node(tok);
    let st0 = Seq::<ExprModel>::empty().push(node);
    assert(st0[0] == node);
    lemma_single_node_is_fixed(st0);
    assert(crate::expr::expr_drive(tokens, Seq::empty(), 0) == crate::expr::expr_drive(
        tokens,
        st0,
        1,
    ));
    assert(crate::expr::expr_drive(tokens, st0, 1) == st0);
    assert(crate::simplification::simp(node) == node);
    assert(crate::expr::same_shape(e, node));
}

} // verus!
