//! The shift/reduce engine: a stack of [`Expr`] nodes that consumes tokens
//! and applies a fixed, ordered table of pattern-based reduction rules over
//! the shape of the stack tail.
//!
//! A reduction looks only at which stack entries are operators, which kinds
//! of operators they are, and where non-operator nodes sit — never at node
//! payloads. Each rule consumes a matched tail of the stack and replaces it
//! with a single node whose span is the union of the consumed spans.

use crate::expr::Expr;
use crate::expr::ExprModel;
use crate::expr::Operator;
use crate::expr::lemma_model_seq;
use crate::expr::lemma_model_seq_push;
use crate::expr::model_seq;
use crate::rule::Rule;
use crate::rule::RuleModel;
use crate::span::Span;
use crate::token::Token;
use crate::token::TokenModel;
use crate::token::TokenPayload;
use vstd::prelude::*;

verus! {

broadcast use crate::expr::lemma_model_seq, crate::expr::lemma_model_seq_push;

/// Whether the node is an operator of the given kind.
pub open spec fn is_op_kind(e: ExprModel, op: Operator) -> bool {
    e matches ExprModel::UnparsedOperator { op: o, .. } && o == op
}

/// The node a freshly shifted token becomes: value tokens become leaf nodes,
/// operator tokens become operator nodes; the span is kept verbatim.
pub open spec fn token_to_node(t: TokenModel) -> ExprModel {
    match t.payload {
        crate::token::TokenPayloadModel::Identifier(s) => ExprModel::Nonterminal {
            span: t.span,
            name: s,
        },
        crate::token::TokenPayloadModel::Literal(s) => ExprModel::Literal {
            span: t.span,
            text: s,
        },
        crate::token::TokenPayloadModel::Regex(s) => ExprModel::Regex {
            span: t.span,
            pattern: s,
        },
        crate::token::TokenPayloadModel::Equals => ExprModel::UnparsedOperator {
            span: t.span,
            op: Operator::Equals,
        },
        crate::token::TokenPayloadModel::Termination => ExprModel::UnparsedOperator {
            span: t.span,
            op: Operator::Terminator,
        },
        crate::token::TokenPayloadModel::Alternation => ExprModel::UnparsedOperator {
            span: t.span,
            op: Operator::Alternation,
        },
        crate::token::TokenPayloadModel::Optional => ExprModel::UnparsedOperator {
            span: t.span,
            op: Operator::Optional,
        },
        crate::token::TokenPayloadModel::Kleene => ExprModel::UnparsedOperator {
            span: t.span,
            op: Operator::Kleene,
        },
        crate::token::TokenPayloadModel::Repeat => ExprModel::UnparsedOperator {
            span: t.span,
            op: Operator::Repeat,
        },
        crate::token::TokenPayloadModel::OpeningGroup => ExprModel::UnparsedOperator {
            span: t.span,
            op: Operator::OpenedGroup,
        },
        crate::token::TokenPayloadModel::ClosingGroup => ExprModel::UnparsedOperator {
            span: t.span,
            op: Operator::ClosedGroup,
        },
        crate::token::TokenPayloadModel::OpeningSquare => ExprModel::UnparsedOperator {
            span: t.span,
            op: Operator::OpenedSquare,
        },
        crate::token::TokenPayloadModel::ClosingSquare => ExprModel::UnparsedOperator {
            span: t.span,
            op: Operator::ClosedSquare,
        },
        crate::token::TokenPayloadModel::OpeningBrace => ExprModel::UnparsedOperator {
            span: t.span,
            op: Operator::OpenedBrace,
        },
        crate::token::TokenPayloadModel::ClosingBrace => ExprModel::UnparsedOperator {
            span: t.span,
            op: Operator::ClosedBrace,
        },
    }
}

/// The nodes of the segment that are not operators, in order.
pub open spec fn filter_nonop(s: Seq<ExprModel>) -> Seq<ExprModel>
    decreases s.len(),
{
    if s.len() == 0 {
        Seq::empty()
    } else {
        let rest = filter_nonop(s.drop_last());
        if s.last().is_operator() {
            rest
        } else {
            rest.push(s.last())
        }
    }
}

/// The union of the spans of a non-empty segment, folded from the left.
pub open spec fn union_spans(s: Seq<ExprModel>) -> Span
    recommends
        s.len() > 0,
    decreases s.len(),
{
    if s.len() <= 1 {
        s[0].spec_span()
    } else {
        Span::spec_union(union_spans(s.drop_last()), s.last().spec_span())
    }
}

/// The start of the maximal alternating run `A (| A)*` that ends at position
/// `k`, walking back two positions at a time over `|` and a non-operator.
pub open spec fn alt_run_start(st: Seq<ExprModel>, k: int) -> int
    decreases k,
{
    if k >= 2 && is_op_kind(st[k - 1], Operator::Alternation) && !st[k - 2].is_operator() {
        alt_run_start(st, k - 2)
    } else {
        k
    }
}

/// The start of the maximal run of non-operator nodes that ends at position
/// `k`; one past `k` when the node at `k` is an operator.
pub open spec fn nonop_run_start(st: Seq<ExprModel>, k: int) -> int
    decreases k + 1,
{
    if k >= 0 && !st[k].is_operator() {
        nonop_run_start(st, k - 1)
    } else {
        k + 1
    }
}

/// Whether the tail of the stack matches the choice pattern `A (| A)+`.
pub open spec fn matches_choice(st: Seq<ExprModel>) -> bool {
    let n = st.len() as int;
    n >= 3 && !st[n - 1].is_operator() && alt_run_start(st, n - 1) != n - 1
}

/// Whether the tail of the stack matches a bracketed run: a closing bracket,
/// one or more non-operators before it (or, for braces, exactly one), and the
/// matching opening bracket before those.
pub open spec fn matches_bracketed(st: Seq<ExprModel>, open: Operator, close: Operator) -> bool {
    let n = st.len() as int;
    let j = nonop_run_start(st, n - 2);
    n >= 3 && is_op_kind(st[n - 1], close) && j <= n - 2 && j >= 1 && is_op_kind(st[j - 1], open)
}

/// Whether the tail of the stack matches a postfix operator applied to one
/// non-operator node.
pub open spec fn matches_postfix(st: Seq<ExprModel>, op: Operator) -> bool {
    let n = st.len() as int;
    n >= 2 && is_op_kind(st[n - 1], op) && !st[n - 2].is_operator()
}

/// Whether the tail of the stack matches `{ A }`: braces around exactly one
/// non-operator node.
pub open spec fn matches_braced(st: Seq<ExprModel>) -> bool {
    let n = st.len() as int;
    n >= 3 && is_op_kind(st[n - 1], Operator::ClosedBrace) && !st[n - 2].is_operator()
        && is_op_kind(st[n - 3], Operator::OpenedBrace)
}

/// Whether the tail of the stack matches the rule pattern `N = A+ ;`.
pub open spec fn matches_rule(st: Seq<ExprModel>) -> bool {
    let n = st.len() as int;
    let j = nonop_run_start(st, n - 2);
    n >= 4 && is_op_kind(st[n - 1], Operator::Terminator) && j <= n - 2 && j >= 2 && is_op_kind(
        st[j - 1],
        Operator::Equals,
    ) && st[j - 2] is Nonterminal
}

/// The start of the matched tail for the pattern that fires on this stack;
/// meaningful only when the corresponding `matches_…` predicate holds.
pub open spec fn choice_start(st: Seq<ExprModel>) -> int {
    alt_run_start(st, st.len() as int - 1)
}

/// The start of the matched tail of a bracketed run: the opening bracket.
pub open spec fn bracketed_start(st: Seq<ExprModel>) -> int {
    nonop_run_start(st, st.len() as int - 2) - 1
}

/// The start of the matched tail of the rule pattern: the rule's name.
pub open spec fn rule_start(st: Seq<ExprModel>) -> int {
    nonop_run_start(st, st.len() as int - 2) - 2
}

/// A choice node built from the matched segment: the non-operator nodes in
/// order, spanning the union of all matched spans.
pub open spec fn reduce_choice(seg: Seq<ExprModel>) -> ExprModel {
    ExprModel::Choice { span: union_spans(seg), body: filter_nonop(seg) }
}

/// An optional node built from the matched segment.
pub open spec fn reduce_option(seg: Seq<ExprModel>) -> ExprModel {
    ExprModel::Optional { span: union_spans(seg), body: filter_nonop(seg) }
}

/// A group node built from the matched segment.
pub open spec fn reduce_group(seg: Seq<ExprModel>) -> ExprModel {
    ExprModel::Group { span: union_spans(seg), body: filter_nonop(seg) }
}

/// A repetition node built from the matched segment; the last matched node
/// decides whether one repetition is needed: `*` means none is, `+` and `}`
/// mean one is.
pub open spec fn reduce_repeat(seg: Seq<ExprModel>) -> ExprModel {
    ExprModel::Repetition {
        span: union_spans(seg),
        body: filter_nonop(seg),
        one_needed: !is_op_kind(seg.last(), Operator::Kleene),
    }
}

/// A rule node built from the matched segment `N = A+ ;`: the name comes from
/// the leading nonterminal, the body is the nodes between `=` and `;`, and
/// the span is the union of all matched spans.
pub open spec fn reduce_rule(seg: Seq<ExprModel>) -> ExprModel {
    ExprModel::Rule {
        span: union_spans(seg),
        rule: RuleModel {
            name: seg[0]->Nonterminal_name,
            body: seg.subrange(2, seg.len() as int - 1),
        },
    }
}

/// Replaces the tail of the stack from `start` on with the reduction of that
/// tail.
pub open spec fn apply_reduction(
    st: Seq<ExprModel>,
    start: int,
    node: ExprModel,
) -> Seq<ExprModel> {
    st.take(start).push(node)
}

/// One reduction step: the first pattern of the table, in declaration order,
/// that matches the tail of the stack is applied; `None` when no pattern
/// matches.
pub open spec fn step(st: Seq<ExprModel>) -> Option<Seq<ExprModel>> {
    let n = st.len() as int;
    if matches_choice(st) {
        Some(apply_reduction(st, choice_start(st), reduce_choice(st.subrange(choice_start(st), n))))
    } else if matches_bracketed(st, Operator::OpenedSquare, Operator::ClosedSquare) {
        Some(
            apply_reduction(
                st,
                bracketed_start(st),
                reduce_option(st.subrange(bracketed_start(st), n)),
            ),
        )
    } else if matches_postfix(st, Operator::Optional) {
        Some(apply_reduction(st, n - 2, reduce_option(st.subrange(n - 2, n))))
    } else if matches_postfix(st, Operator::Kleene) {
        Some(apply_reduction(st, n - 2, reduce_repeat(st.subrange(n - 2, n))))
    } else if matches_postfix(st, Operator::Repeat) {
        Some(apply_reduction(st, n - 2, reduce_repeat(st.subrange(n - 2, n))))
    } else if matches_braced(st) {
        Some(apply_reduction(st, n - 3, reduce_repeat(st.subrange(n - 3, n))))
    } else if matches_bracketed(st, Operator::OpenedGroup, Operator::ClosedGroup) {
        Some(
            apply_reduction(
                st,
                bracketed_start(st),
                reduce_group(st.subrange(bracketed_start(st), n)),
            ),
        )
    } else if matches_rule(st) {
        Some(apply_reduction(st, rule_start(st), reduce_rule(st.subrange(rule_start(st), n))))
    } else {
        None
    }
}

/// The start of an alternating run lies between zero and `k`, and below `k`
/// only in steps of two.
pub proof fn lemma_alt_run_start_bounds(st: Seq<ExprModel>, k: int)
    requires
        0 <= k,
    ensures
        0 <= alt_run_start(st, k) <= k,
    decreases k,
{
    if k >= 2 && is_op_kind(st[k - 1], Operator::Alternation) && !st[k - 2].is_operator() {
        lemma_alt_run_start_bounds(st, k - 2);
    }
}

/// The start of a non-operator run lies between zero and one past `k`.
pub proof fn lemma_nonop_run_start_bounds(st: Seq<ExprModel>, k: int)
    requires
        -1 <= k,
    ensures
        0 <= nonop_run_start(st, k) <= k + 1,
    decreases k + 1,
{
    if k >= 0 && !st[k].is_operator() {
        lemma_nonop_run_start_bounds(st, k - 1);
    }
}

/// A reduction step consumes at least two nodes and pushes one, so it always
/// shortens the stack.
pub proof fn lemma_step_shrinks(st: Seq<ExprModel>)
    ensures
        step(st) matches Some(st2) ==> 0 < st2.len() < st.len(),
{
    let n = st.len() as int;
    if n >= 1 {
        lemma_alt_run_start_bounds(st, n - 1);
    }
    if n >= 1 {
        lemma_nonop_run_start_bounds(st, n - 2);
    }
}

/// The stack after every reduction the table allows has been applied: the
/// first matching pattern is applied and the scan restarts, until no pattern
/// matches.
pub open spec fn reduce_fix(st: Seq<ExprModel>) -> Seq<ExprModel>
    decreases st.len(),
    via reduce_fix_decreases
{
    match step(st) {
        Some(st2) => reduce_fix(st2),
        None => st,
    }
}

#[via_fn]
proof fn reduce_fix_decreases(st: Seq<ExprModel>) {
    lemma_step_shrinks(st);
}

} // verus!

verus! {

/// Whether the node is an operator awaiting reduction.
pub fn is_operator_node(e: &Expr) -> (r: bool)
    ensures
        r == e@.is_operator(),
{
    match e {
        Expr::UnparsedOperator { .. } => true,
        _ => false,
    }
}

/// Whether the node is an operator of the given kind.
fn is_op_kind_node(e: &Expr, op: Operator) -> (r: bool)
    ensures
        r == is_op_kind(e@, op),
{
    match e {
        Expr::UnparsedOperator { op: o, .. } => *o == op,
        _ => false,
    }
}

/// The union of the spans of the stack tail from `start` on, paired with
/// copies of its non-operator nodes in order.
fn collect_segment(stack: &Vec<Expr>, start: usize) -> (r: (Span, Vec<Expr>))
    requires
        start < stack@.len(),
    ensures
        ({
            let seg = model_seq(stack@).subrange(start as int, stack@.len() as int);
            r.0 == union_spans(seg) && model_seq(r.1@) == filter_nonop(seg)
        }),
{
    proof {
        lemma_model_seq(stack@);
    }
    let ghost seg = model_seq(stack@).subrange(start as int, stack@.len() as int);
    let n = stack.len();
    let mut u = stack[start].span();
    let mut body: Vec<Expr> = Vec::new();
    if !is_operator_node(&stack[start]) {
        body.push(stack[start].duplicate());
    }
    proof {
        let s1 = seg.take(1);
        assert(s1.drop_last() =~= Seq::<ExprModel>::empty());
        assert(filter_nonop(s1.drop_last()) == Seq::<ExprModel>::empty());
        assert(s1.last() == stack@[start as int].model());
        assert(u == union_spans(s1));
        if body@.len() > 0 {
            assert(body@.drop_last() =~= Seq::<Expr>::empty());
            assert(model_seq(body@.drop_last()) == Seq::<ExprModel>::empty());
        }
        assert(model_seq(body@) =~= filter_nonop(s1));
    }
    let mut k = start + 1;
    while k < n
        invariant
            start < k <= n,
            n == stack@.len(),
            seg == model_seq(stack@).subrange(start as int, stack@.len() as int),
            u == union_spans(seg.take(k - start)),
            model_seq(body@) == filter_nonop(seg.take(k - start)),
        decreases n - k,
    {
        proof {
            lemma_model_seq(stack@);
            assert(seg.take(k - start + 1).drop_last() =~= seg.take(k - start));
            assert(seg.take(k - start + 1).last() == stack@[k as int].model());
        }
        let ghost bvec = body@;
        u = u.union(stack[k].span());
        if !is_operator_node(&stack[k]) {
            body.push(stack[k].duplicate());
            proof {
                lemma_model_seq_push(bvec, body@.last());
                assert(body@ == bvec.push(body@.last()));
            }
        }
        k = k + 1;
    }
    proof {
        assert(seg.take(n - start) =~= seg);
    }
    (u, body)
}

/// A stack of expression nodes paired with the reduction engine that drives
/// it. The stack's mathematical value is the sequence of node models, oldest
/// first.
#[derive(Debug)]
pub struct LrStack {
    /// The nodes, oldest first.
    pub stack: Vec<Expr>,
}

impl View for LrStack {
    type V = Seq<ExprModel>;

    open spec fn view(&self) -> Seq<ExprModel> {
        model_seq(self.stack@)
    }
}

impl LrStack {
    /// An empty stack.
    pub fn new() -> (r: LrStack)
        ensures
            r@ == Seq::<ExprModel>::empty(),
    {
        let r = LrStack { stack: Vec::new() };
        proof {
            assert(r@ =~= Seq::<ExprModel>::empty());
        }
        r
    }

    /// How many nodes sit on the stack.
    pub fn len(&self) -> (n: usize)
        ensures
            n == self@.len(),
    {
        proof {
            broadcast use lemma_model_seq;

        }
        self.stack.len()
    }

    /// Pushes a node.
    pub fn push_node(&mut self, n: Expr)
        ensures
            final(self)@ == old(self)@.push(n@),
    {
        let ghost before = self.stack@;
        self.stack.push(n);
        proof {
            broadcast use lemma_model_seq;

            assert(self.stack@.drop_last() =~= before);
            assert(self@ =~= old(self)@.push(self.stack@.last().model()));
        }
    }

    /// Pushes a token, converting operator tokens to operator nodes and value
    /// tokens to the corresponding leaf nodes; the span is kept verbatim.
    pub fn push_token(&mut self, t: Token)
        ensures
            final(self)@ == old(self)@.push(token_to_node(t@)),
    {
        let span = t.span;
        let node = match t.payload {
            TokenPayload::Identifier(s) => Expr::Nonterminal { span, name: s },
            TokenPayload::Literal(s) => Expr::Literal { span, str: s },
            TokenPayload::Regex(s) => Expr::Regex { span, pattern: s },
            TokenPayload::Equals => Expr::UnparsedOperator { span, op: Operator::Equals },
            TokenPayload::Termination => Expr::UnparsedOperator { span, op: Operator::Terminator },
            TokenPayload::Alternation => Expr::UnparsedOperator {
                span,
                op: Operator::Alternation,
            },
            TokenPayload::Optional => Expr::UnparsedOperator { span, op: Operator::Optional },
            TokenPayload::Kleene => Expr::UnparsedOperator { span, op: Operator::Kleene },
            TokenPayload::Repeat => Expr::UnparsedOperator { span, op: Operator::Repeat },
            TokenPayload::OpeningGroup => Expr::UnparsedOperator {
                span,
                op: Operator::OpenedGroup,
            },
            TokenPayload::ClosingGroup => Expr::UnparsedOperator {
                span,
                op: Operator::ClosedGroup,
            },
            TokenPayload::OpeningSquare => Expr::UnparsedOperator {
                span,
                op: Operator::OpenedSquare,
            },
            TokenPayload::ClosingSquare => Expr::UnparsedOperator {
                span,
                op: Operator::ClosedSquare,
            },
            TokenPayload::OpeningBrace => Expr::UnparsedOperator {
                span,
                op: Operator::OpenedBrace,
            },
            TokenPayload::ClosingBrace => Expr::UnparsedOperator {
                span,
                op: Operator::ClosedBrace,
            },
        };
        self.push_node(node);
    }

    /// The most recently pushed node, if any.
    pub fn peek_node(&self) -> (r: Option<&Expr>)
        ensures
            match r {
                Some(e) => self@.len() > 0 && e@ == self@.last(),
                None => self@.len() == 0,
            },
    {
        proof {
            broadcast use lemma_model_seq;

        }
        if self.stack.len() == 0 {
            None
        } else {
            Some(&self.stack[self.stack.len() - 1])
        }
    }

    /// Removes and returns the most recently pushed node, if any.
    pub fn pop_node(&mut self) -> (r: Option<Expr>)
        ensures
            match r {
                Some(e) => old(self)@.len() > 0 && e@ == old(self)@.last() && final(self)@ == old(
                    self,
                )@.drop_last(),
                None => old(self)@.len() == 0 && final(self)@ == old(self)@,
            },
    {
        proof {
            broadcast use lemma_model_seq;

        }
        let ghost before = self.stack@;
        let r = self.stack.pop();
        proof {
            if before.len() > 0 {
                assert(model_seq(self.stack@) =~= model_seq(before).drop_last());
            } else {
                assert(self.stack@ =~= before);
            }
        }
        r
    }

    /// Gives the stack away as a plain vector of nodes, oldest first.
    pub fn into_parse_stack(self) -> (r: Vec<Expr>)
        ensures
            model_seq(r@) == self@,
    {
        self.stack
    }
}

} // verus!

verus! {

impl LrStack {
    /// Scans back from the top for the start of the maximal alternating run
    /// `A (| A)*` ending at the top node.
    fn scan_alt_run(&self) -> (k: usize)
        requires
            self@.len() >= 1,
        ensures
            k as int == alt_run_start(self@, self@.len() as int - 1),
            k <= self@.len() - 1,
    {
        proof {
            lemma_model_seq(self.stack@);
            lemma_alt_run_start_bounds(self@, self@.len() as int - 1);
        }
        let ghost st = self@;
        let n = self.stack.len();
        let mut k: usize = n - 1;
        loop
            invariant
                k <= n - 1,
                n == self.stack@.len(),
                st == self@,
                alt_run_start(st, n as int - 1) == alt_run_start(st, k as int),
            decreases k,
        {
            proof {
                lemma_model_seq(self.stack@);
            }
            if k >= 2 && is_op_kind_node(&self.stack[k - 1], Operator::Alternation)
                && !is_operator_node(&self.stack[k - 2]) {
                k = k - 2;
            } else {
                return k;
            }
        }
    }

    /// Scans back from just under the top for the start of the maximal run of
    /// non-operator nodes ending there.
    fn scan_nonop_run(&self) -> (j: usize)
        requires
            self@.len() >= 1,
        ensures
            j as int == nonop_run_start(self@, self@.len() as int - 2),
            j <= self@.len() - 1,
    {
        proof {
            lemma_model_seq(self.stack@);
            lemma_nonop_run_start_bounds(self@, self@.len() as int - 2);
        }
        let ghost st = self@;
        let n = self.stack.len();
        let mut j: usize = n - 1;
        loop
            invariant
                j <= n - 1,
                n == self.stack@.len(),
                st == self@,
                nonop_run_start(st, n as int - 2) == nonop_run_start(st, j as int - 1),
            decreases j,
        {
            proof {
                lemma_model_seq(self.stack@);
            }
            if j >= 1 && !is_operator_node(&self.stack[j - 1]) {
                j = j - 1;
            } else {
                return j;
            }
        }
    }

    /// Replaces the stack tail from `start` on with the given node, which the
    /// caller has built from that tail.
    fn replace_tail(&mut self, start: usize, node: Expr)
        requires
            start <= old(self)@.len(),
        ensures
            final(self)@ == old(self)@.take(start as int).push(node@),
    {
        let ghost st = self@;
        let ghost old_vec = self.stack@;
        self.stack.truncate(start);
        self.stack.push(node);
        proof {
            lemma_model_seq(old_vec);
            lemma_model_seq(old_vec.take(start as int));
            lemma_model_seq_push(old_vec.take(start as int), self.stack@.last());
            assert(self.stack@ == old_vec.take(start as int).push(self.stack@.last()));
            assert(model_seq(old_vec.take(start as int)) =~= st.take(start as int));
        }
    }

    /// Applies the first reduction pattern of the table that matches the tail
    /// of the stack; reports whether any did.
    fn try_step(&mut self) -> (applied: bool)
        ensures
            match step(old(self)@) {
                Some(st2) => applied && final(self)@ == st2,
                None => !applied && final(self)@ == old(self)@,
            },
    {
        proof {
            lemma_model_seq(self.stack@);
        }
        let ghost st = self@;
        let n = self.stack.len();
        if n == 0 {
            return false;
        }
        // Choice: `A (| A)+`.
        if n >= 3 && !is_operator_node(&self.stack[n - 1]) {
            let k = self.scan_alt_run();
            if k != n - 1 {
                let collected = collect_segment(&self.stack, k);
                let node = Expr::Choice { span: collected.0, body: collected.1 };
                proof {
                    assert(node@ == reduce_choice(st.subrange(k as int, n as int)));
                }
                self.replace_tail(k, node);
                return true;
            }
        }
        let j = self.scan_nonop_run();
        // Optional, square-bracket form: `[ A+ ]`.
        if n >= 3 && is_op_kind_node(&self.stack[n - 1], Operator::ClosedSquare) && j <= n - 2 && j
            >= 1 && is_op_kind_node(&self.stack[j - 1], Operator::OpenedSquare) {
            let collected = collect_segment(&self.stack, j - 1);
            let node = Expr::Optional { span: collected.0, body: collected.1 };
            proof {
                assert(node@ == reduce_option(st.subrange(j as int - 1, n as int)));
            }
            self.replace_tail(j - 1, node);
            return true;
        }
        // Optional, postfix form: `A ?`.
        if n >= 2 && is_op_kind_node(&self.stack[n - 1], Operator::Optional) && !is_operator_node(
            &self.stack[n - 2],
        ) {
            let collected = collect_segment(&self.stack, n - 2);
            let node = Expr::Optional { span: collected.0, body: collected.1 };
            proof {
                assert(node@ == reduce_option(st.subrange(n as int - 2, n as int)));
            }
            self.replace_tail(n - 2, node);
            return true;
        }
        // Repetition, postfix forms: `A *` and `A +`.
        if n >= 2 && (is_op_kind_node(&self.stack[n - 1], Operator::Kleene) || is_op_kind_node(
            &self.stack[n - 1],
            Operator::Repeat,
        )) && !is_operator_node(&self.stack[n - 2]) {
            let one_needed = !is_op_kind_node(&self.stack[n - 1], Operator::Kleene);
            let collected = collect_segment(&self.stack, n - 2);
            let node = Expr::Repetition { span: collected.0, body: collected.1, one_needed };
            proof {
                assert(node@ == reduce_repeat(st.subrange(n as int - 2, n as int)));
            }
            self.replace_tail(n - 2, node);
            return true;
        }
        // Repetition, brace form: `{ A }`.
        if n >= 3 && is_op_kind_node(&self.stack[n - 1], Operator::ClosedBrace)
            && !is_operator_node(&self.stack[n - 2]) && is_op_kind_node(
            &self.stack[n - 3],
            Operator::OpenedBrace,
        ) {
            let collected = collect_segment(&self.stack, n - 3);
            let node = Expr::Repetition { span: collected.0, body: collected.1, one_needed: true };
            proof {
                assert(node@ == reduce_repeat(st.subrange(n as int - 3, n as int)));
            }
            self.replace_tail(n - 3, node);
            return true;
        }
        // Group: `( A+ )`.
        if n >= 3 && is_op_kind_node(&self.stack[n - 1], Operator::ClosedGroup) && j <= n - 2 && j
            >= 1 && is_op_kind_node(&self.stack[j - 1], Operator::OpenedGroup) {
            let collected = collect_segment(&self.stack, j - 1);
            let node = Expr::Group { span: collected.0, body: collected.1 };
            proof {
                assert(node@ == reduce_group(st.subrange(j as int - 1, n as int)));
            }
            self.replace_tail(j - 1, node);
            return true;
        }
        // Rule: `N = A+ ;`.
        if n >= 4 && is_op_kind_node(&self.stack[n - 1], Operator::Terminator) && j <= n - 2 && j
            >= 2 && is_op_kind_node(&self.stack[j - 1], Operator::Equals) {
            let named = match &self.stack[j - 2] {
                Expr::Nonterminal { name, .. } => Some(name.clone()),
                _ => None,
            };
            if let Some(name) = named {
                let collected = collect_segment(&self.stack, j - 2);
                let mut rbody: Vec<Expr> = Vec::new();
                let mut t = j;
                proof {
                    assert(model_seq(rbody@) =~= st.subrange(j as int, j as int));
                }
                while t < n - 1
                    invariant
                        j <= t <= n - 1,
                        n == self.stack@.len(),
                        st == self@,
                        model_seq(rbody@) == st.subrange(j as int, t as int),
                    decreases n - t,
                {
                    let ghost bvec = rbody@;
                    rbody.push(self.stack[t].duplicate());
                    proof {
                        lemma_model_seq(self.stack@);
                        lemma_model_seq_push(bvec, rbody@.last());
                        assert(rbody@ == bvec.push(rbody@.last()));
                        assert(model_seq(rbody@) =~= st.subrange(j as int, t as int + 1));
                    }
                    t = t + 1;
                }
                let node = Expr::Rule { span: collected.0, rule: Rule { name, body: rbody } };
                proof {
                    let seg = st.subrange(j as int - 2, n as int);
                    assert(seg.subrange(2, seg.len() as int - 1) =~= st.subrange(
                        j as int,
                        n as int - 1,
                    ));
                    assert(seg[0] == st[j as int - 2]);
                    assert(node@ == reduce_rule(seg));
                }
                self.replace_tail(j - 2, node);
                return true;
            }
        }
        proof {
            assert(step(st) is None);
        }
        false
    }

    /// Repeatedly applies the reduction table, restarting from the top of the
    /// table after every reduction, until no pattern matches.
    pub fn reduce_until_shift_needed(&mut self)
        ensures
            final(self)@ == reduce_fix(old(self)@),
    {
        loop
            invariant
                reduce_fix(self@) == reduce_fix(old(self)@),
            decreases self@.len(),
        {
            proof {
                lemma_step_shrinks(self@);
            }
            let applied = self.try_step();
            if !applied {
                return ;
            }
        }
    }
}

} // verus!

verus! {

/// The moving state of the rule-parsing loop: the live stack, the rules
/// produced so far, and the token index right after the latest `;`, if any.
pub ghost struct DriveState {
    /// The live parse stack.
    pub stack: Seq<ExprModel>,
    /// The rules produced so far, in order.
    pub outputs: Seq<RuleModel>,
    /// The loop round at which the latest `;` demands a finished rule.
    pub eore: Option<int>,
}

/// One round of the rule-parsing loop, from round `n` on: reduce to the
/// fixpoint, demand a rule where a terminator promised one, pop and simplify
/// a finished rule, then shift the next token. After the final round the
/// stack must be empty, else the input ran out too soon.
pub open spec fn drive(
    tokens: Seq<TokenModel>,
    input: Seq<char>,
    state: DriveState,
    n: int,
) -> Result<Seq<RuleModel>, crate::error::EbnfErrorModel>
    decreases tokens.len() - n,
{
    if n < 0 || n >= tokens.len() {
        if state.stack.len() == 0 {
            Ok(state.outputs)
        } else {
            Err(
                crate::error::EbnfErrorModel::ParseError {
                    input,
                    offset: crate::lexer::byte_of(input, input.len() as int) as usize,
                    reason: Some(
                        crate::error::FailureReasonModel::ExhaustedInput(state.stack),
                    ),
                },
            )
        }
    } else {
        let st1 = reduce_fix(state.stack);
        let rule_on_top = st1.len() > 0 && st1.last() is Rule;
        if state.eore == Some(n) && !rule_on_top {
            let offset = if st1.len() > 0 {
                st1.last().spec_span().start
            } else {
                0
            };
            Err(
                crate::error::EbnfErrorModel::ParseError {
                    input,
                    offset,
                    reason: Some(
                        crate::error::FailureReasonModel::TerminatorNotEndingRule(st1),
                    ),
                },
            )
        } else {
            let st2 = if rule_on_top {
                st1.drop_last()
            } else {
                st1
            };
            let outputs2 = if rule_on_top {
                state.outputs.push(crate::simplification::simp(st1.last())->Rule_rule)
            } else {
                state.outputs
            };
            if n + 1 < tokens.len() {
                let t = tokens[n + 1];
                let eore2 = if t.payload is Termination {
                    Some(n + 1)
                } else {
                    state.eore
                };
                drive(
                    tokens,
                    input,
                    DriveState { stack: st2.push(token_to_node(t)), outputs: outputs2, eore: eore2 },
                    n + 1,
                )
            } else {
                drive(
                    tokens,
                    input,
                    DriveState { stack: st2, outputs: outputs2, eore: state.eore },
                    n + 1,
                )
            }
        }
    }
}

/// What parsing a whole token stream into rules yields: no tokens at all is
/// an empty-input error; otherwise the first token is shifted and the loop
/// runs one round per token.
pub open spec fn parse_rules_spec(
    input: Seq<char>,
    tokens: Seq<TokenModel>,
) -> Result<Seq<RuleModel>, crate::error::EbnfErrorModel> {
    if tokens.len() == 0 {
        Err(crate::error::EbnfErrorModel::EmptyInput)
    } else {
        drive(
            tokens,
            input,
            DriveState {
                stack: Seq::empty().push(token_to_node(tokens[0])),
                outputs: Seq::empty(),
                eore: None,
            },
            0,
        )
    }
}

/// Parses a token stream into the rules it holds, in order; fails where a
/// terminator does not end a rule, or where input runs out with nodes still
/// on the stack.
pub fn parse_rules_from_tokens(input: &str, tokens: &Vec<Token>) -> (r: Result<
    Vec<Rule>,
    crate::error::EbnfError,
>)
    ensures
        ({
            let m = parse_rules_spec(input@, crate::lexer::token_model_seq(tokens@));
            match r {
                Ok(rules) => m matches Ok(rms) && crate::rule::rule_model_seq(rules@) == rms,
                Err(e) => m matches Err(em) && e@ == em,
            }
        }),
{
    broadcast use crate::lexer::lemma_token_model_seq, crate::rule::lemma_rule_model_seq, crate::rule::lemma_rule_model_seq_push;

    let ghost tm = crate::lexer::token_model_seq(tokens@);
    let num = tokens.len();
    if num == 0 {
        return Err(crate::error::EbnfError::EmptyInput);
    }
    let mut stack = LrStack::new();
    stack.push_token(tokens[0].duplicate());
    let mut outputs: Vec<Rule> = Vec::new();
    let mut eore: Option<usize> = None;
    let mut n: usize = 0;
    proof {
        assert(Seq::<ExprModel>::empty().push(token_to_node(tm[0])) =~= stack@);
        assert(crate::rule::rule_model_seq(outputs@) =~= Seq::<RuleModel>::empty());
    }
    let ghost target = parse_rules_spec(input@, tm);
    while n < num
        invariant
            n <= num,
            num == tokens@.len(),
            tm == crate::lexer::token_model_seq(tokens@),
            target == parse_rules_spec(input@, tm),
            drive(
                tm,
                input@,
                DriveState {
                    stack: stack@,
                    outputs: crate::rule::rule_model_seq(outputs@),
                    eore: match eore {
                        Some(v) => Some(v as int),
                        None => None,
                    },
                },
                n as int,
            ) == target,
        decreases num - n,
    {
        broadcast use crate::lexer::lemma_token_model_seq, crate::rule::lemma_rule_model_seq, crate::rule::lemma_rule_model_seq_push;

        stack.reduce_until_shift_needed();
        let rule_on_top = match stack.peek_node() {
            Some(e) => match e {
                Expr::Rule { .. } => true,
                _ => false,
            },
            None => false,
        };
        let eore_is_now = match eore {
            Some(v) => v == n,
            None => false,
        };
        if eore_is_now && !rule_on_top {
            let offset = match stack.peek_node() {
                Some(e) => e.span().start,
                None => 0,
            };
            return Err(
                crate::error::EbnfError::ParseError {
                    input: input.to_owned(),
                    offset,
                    reason: Some(
                        crate::error::FailureReason::TerminatorNotEndingRule(
                            stack.into_parse_stack(),
                        ),
                    ),
                },
            );
        }
        if rule_on_top {
            let popped = stack.pop_node();
            match popped {
                Some(mut rule_node) => {
                    crate::simplification::simplify_node(&mut rule_node);
                    match rule_node {
                        Expr::Rule { rule, .. } => {
                            outputs.push(rule);
                        },
                        _ => {
                            proof {
                                assert(false);
                            }
                        },
                    }
                },
                None => {
                    proof {
                        assert(false);
                    }
                },
            }
        }
        if n + 1 < num {
            let t = tokens[n + 1].duplicate();
            let t_is_term = match &t.payload {
                TokenPayload::Termination => true,
                _ => false,
            };
            if t_is_term {
                eore = Some(n + 1);
            }
            stack.push_token(t);
        }
        n = n + 1;
    }
    if stack.len() == 0 {
        Ok(outputs)
    } else {
        let total = crate::lexer::str_byte_len(input);
        Err(
            crate::error::EbnfError::ParseError {
                input: input.to_owned(),
                offset: total,
                reason: Some(
                    crate::error::FailureReason::ExhaustedInput(stack.into_parse_stack()),
                ),
            },
        )
    }
}

} // verus!
