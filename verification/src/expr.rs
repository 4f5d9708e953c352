//! The expression model: the tagged-union node type that represents every
//! parsed EBNF construct, plus a transient operator variant that exists only
//! on the parse stack.

use crate::rule::Rule;
use crate::rule::RuleModel;
use crate::span::Span;
use vstd::prelude::*;

verus! {

/// An operator token awaiting reduction on the parse stack.
#[derive(Debug, Clone, Copy, PartialEq, Eq, Hash, Structural)]
pub enum Operator {
    /// `(`.
    OpenedGroup,
    /// `)`.
    ClosedGroup,
    /// `[`.
    OpenedSquare,
    /// `]`.
    ClosedSquare,
    /// `{`.
    OpenedBrace,
    /// `}`.
    ClosedBrace,
    /// `;`.
    Terminator,
    /// `=` or `::=`.
    Equals,
    /// `|` or `/`.
    Alternation,
    /// `*`.
    Kleene,
    /// `?`.
    Optional,
    /// `+`.
    Repeat,
}

/// A node in the syntax tree of an EBNF rule.
#[derive(Debug)]
pub enum Expr {
    /// A terminal: a literal string.
    Literal {
        /// The run of source text this node covers.
        span: Span,
        /// The literal text, escape sequences kept verbatim.
        str: String,
    },
    /// The name of some other production rule.
    Nonterminal {
        /// The run of source text this node covers.
        span: Span,
        /// The referenced name.
        name: String,
    },
    /// Exactly one of the child nodes.
    Choice {
        /// The run of source text this node covers.
        span: Span,
        /// The alternatives, in order.
        body: Vec<Expr>,
    },
    /// Either the entire sequence of child nodes in order, or nothing.
    Optional {
        /// The run of source text this node covers.
        span: Span,
        /// The child nodes.
        body: Vec<Expr>,
    },
    /// The child nodes, in sequence, repeated some number of times.
    Repetition {
        /// The run of source text this node covers.
        span: Span,
        /// The child nodes.
        body: Vec<Expr>,
        /// Whether at least one repetition is needed.
        one_needed: bool,
    },
    /// A regular expression over terminal characters.
    Regex {
        /// The run of source text this node covers.
        span: Span,
        /// The pattern between the quotes.
        pattern: String,
    },
    /// The child nodes, in order, exactly once.
    Group {
        /// The run of source text this node covers.
        span: Span,
        /// The child nodes.
        body: Vec<Expr>,
    },
    /// An operator awaiting reduction; permitted only on the live parse stack
    /// and never present in any parse output.
    UnparsedOperator {
        /// The run of source text this node covers.
        span: Span,
        /// Which operator.
        op: Operator,
    },
    /// An entire EBNF rule, as a node. Public parse output wraps the inner
    /// value in [`Rule`] instead.
    Rule {
        /// The run of source text this node covers.
        span: Span,
        /// The rule itself.
        rule: Rule,
    },
}

/// The mathematical value of an [`Expr`]: the same tree with text as
/// character sequences and bodies as sequences of models.
pub ghost enum ExprModel {
    /// Model of [`Expr::Literal`].
    Literal { span: Span, text: Seq<char> },
    /// Model of [`Expr::Nonterminal`].
    Nonterminal { span: Span, name: Seq<char> },
    /// Model of [`Expr::Choice`].
    Choice { span: Span, body: Seq<ExprModel> },
    /// Model of [`Expr::Optional`].
    Optional { span: Span, body: Seq<ExprModel> },
    /// Model of [`Expr::Repetition`].
    Repetition { span: Span, body: Seq<ExprModel>, one_needed: bool },
    /// Model of [`Expr::Regex`].
    Regex { span: Span, pattern: Seq<char> },
    /// Model of [`Expr::Group`].
    Group { span: Span, body: Seq<ExprModel> },
    /// Model of [`Expr::UnparsedOperator`].
    UnparsedOperator { span: Span, op: Operator },
    /// Model of [`Expr::Rule`].
    Rule { span: Span, rule: RuleModel },
}

impl Expr {
    /// The mathematical value of this node.
    pub open spec fn model(self) -> ExprModel
        decreases self,
    {
        match self {
            Expr::Literal { span, str } => ExprModel::Literal { span, text: str@ },
            Expr::Nonterminal { span, name } => ExprModel::Nonterminal { span, name: name@ },
            Expr::Choice { span, body } => ExprModel::Choice { span, body: model_seq(body@) },
            Expr::Optional { span, body } => ExprModel::Optional { span, body: model_seq(body@) },
            Expr::Repetition { span, body, one_needed } => ExprModel::Repetition {
                span,
                body: model_seq(body@),
                one_needed,
            },
            Expr::Regex { span, pattern } => ExprModel::Regex { span, pattern: pattern@ },
            Expr::Group { span, body } => ExprModel::Group { span, body: model_seq(body@) },
            Expr::UnparsedOperator { span, op } => ExprModel::UnparsedOperator { span, op },
            Expr::Rule { span, rule } => ExprModel::Rule {
                span,
                rule: RuleModel { name: rule.name@, body: model_seq(rule.body@) },
            },
        }
    }
}

/// The models of a sequence of nodes, elementwise.
pub open spec fn model_seq(s: Seq<Expr>) -> Seq<ExprModel>
    decreases s,
{
    if s.len() == 0 {
        Seq::empty()
    } else {
        model_seq(s.drop_last()).push(s.last().model())
    }
}

/// The model of a sequence of nodes has the same length, and holds the model
/// of each node at the same position.
pub broadcast proof fn lemma_model_seq(s: Seq<Expr>)
    ensures
        (#[trigger] model_seq(s)).len() == s.len(),
        forall|i: int| 0 <= i < s.len() ==> model_seq(s)[i] == s[i].model(),
    decreases s.len(),
{
    if s.len() > 0 {
        lemma_model_seq(s.drop_last());
    }
}

/// Pushing a node onto a sequence pushes its model onto the model sequence.
pub broadcast proof fn lemma_model_seq_push(s: Seq<Expr>, e: Expr)
    ensures
        #[trigger] model_seq(s.push(e)) == model_seq(s).push(e.model()),
{
    assert(s.push(e).drop_last() =~= s);
    assert(s.push(e).last() == e);
}

impl View for Expr {
    type V = ExprModel;

    open spec fn view(&self) -> ExprModel {
        self.model()
    }
}

impl ExprModel {
    /// The span this node carries.
    pub open spec fn spec_span(self) -> Span {
        match self {
            ExprModel::Literal { span, .. } => span,
            ExprModel::Nonterminal { span, .. } => span,
            ExprModel::Choice { span, .. } => span,
            ExprModel::Optional { span, .. } => span,
            ExprModel::Repetition { span, .. } => span,
            ExprModel::Regex { span, .. } => span,
            ExprModel::Group { span, .. } => span,
            ExprModel::UnparsedOperator { span, .. } => span,
            ExprModel::Rule { span, .. } => span,
        }
    }

    /// Whether this node is an operator awaiting reduction.
    pub open spec fn is_operator(self) -> bool {
        self is UnparsedOperator
    }

    /// Whether no operator node appears anywhere in this tree.
    pub open spec fn op_free(self) -> bool
        decreases self,
    {
        match self {
            ExprModel::UnparsedOperator { .. } => false,
            ExprModel::Literal { .. } => true,
            ExprModel::Nonterminal { .. } => true,
            ExprModel::Regex { .. } => true,
            ExprModel::Choice { body, .. } => all_op_free(body),
            ExprModel::Optional { body, .. } => all_op_free(body),
            ExprModel::Repetition { body, .. } => all_op_free(body),
            ExprModel::Group { body, .. } => all_op_free(body),
            ExprModel::Rule { rule, .. } => all_op_free(rule.body),
        }
    }
}

/// Whether every node of the sequence is free of operator nodes.
pub open spec fn all_op_free(s: Seq<ExprModel>) -> bool
    decreases s,
{
    forall|i: int| 0 <= i < s.len() ==> (#[trigger] s[i]).op_free()
}

impl Expr {
    /// The span of the input this node and all of its children represent.
    pub fn span(&self) -> (s: Span)
        ensures
            s == self@.spec_span(),
    {
        match self {
            Expr::Literal { span, .. } => *span,
            Expr::Nonterminal { span, .. } => *span,
            Expr::Choice { span, .. } => *span,
            Expr::Optional { span, .. } => *span,
            Expr::Repetition { span, .. } => *span,
            Expr::Regex { span, .. } => *span,
            Expr::Group { span, .. } => *span,
            Expr::UnparsedOperator { span, .. } => *span,
            Expr::Rule { span, .. } => *span,
        }
    }

    /// Builds a structurally identical copy of this node.
    pub fn duplicate(&self) -> (r: Expr)
        ensures
            r@ == self@,
        decreases self,
    {
        match self {
            Expr::Literal { span, str } => Expr::Literal { span: *span, str: str.clone() },
            Expr::Nonterminal { span, name } => Expr::Nonterminal {
                span: *span,
                name: name.clone(),
            },
            Expr::Regex { span, pattern } => Expr::Regex { span: *span, pattern: pattern.clone() },
            Expr::UnparsedOperator { span, op } => Expr::UnparsedOperator { span: *span, op: *op },
            Expr::Choice { span, body } => Expr::Choice { span: *span, body: duplicate_vec(body) },
            Expr::Optional { span, body } => Expr::Optional {
                span: *span,
                body: duplicate_vec(body),
            },
            Expr::Repetition { span, body, one_needed } => Expr::Repetition {
                span: *span,
                body: duplicate_vec(body),
                one_needed: *one_needed,
            },
            Expr::Group { span, body } => Expr::Group { span: *span, body: duplicate_vec(body) },
            Expr::Rule { span, rule } => Expr::Rule {
                span: *span,
                rule: Rule { name: rule.name.clone(), body: duplicate_vec(&rule.body) },
            },
        }
    }
}

/// Builds a structurally identical copy of a vector of nodes.
pub fn duplicate_vec(v: &Vec<Expr>) -> (r: Vec<Expr>)
    ensures
        model_seq(r@) == model_seq(v@),
    decreases v,
{
    let mut out: Vec<Expr> = Vec::new();
    let mut j: usize = 0;
    while j < v.len()
        invariant
            j <= v@.len(),
            out@.len() == j,
            forall|k: int| 0 <= k < j ==> #[trigger] out@[k].model() == v@[k].model(),
        decreases v@.len() - j,
    {
        let d = v[j].duplicate();
        out.push(d);
        j = j + 1;
    }
    proof {
        broadcast use lemma_model_seq;

        assert(model_seq(out@) =~= model_seq(v@));
    }
    out
}

} // verus!

verus! {

/// The stack after shifting each token in turn and reducing to the fixpoint
/// after every shift, starting from token index `n`.
pub open spec fn expr_drive(
    tokens: Seq<crate::token::TokenModel>,
    st: Seq<ExprModel>,
    n: int,
) -> Seq<ExprModel>
    decreases tokens.len() - n,
{
    if n < 0 || n >= tokens.len() {
        st
    } else {
        expr_drive(
            tokens,
            crate::parser::reduce_fix(st.push(crate::parser::token_to_node(tokens[n]))),
            n + 1,
        )
    }
}

/// What parsing a whole input into one expression yields: the input lexes,
/// every token is shifted and reduced, and exactly one non-operator node
/// survives, which is then simplified.
pub open spec fn expr_new_spec(input: Seq<char>) -> Result<
    ExprModel,
    crate::error::EbnfErrorModel,
> {
    match crate::lexer::lex_spec(input) {
        Err(o) => Err(crate::error::EbnfErrorModel::LexError { input, offset: o }),
        Ok(tokens) => {
            let st = expr_drive(tokens, Seq::empty(), 0);
            if st.len() == 1 && !st[0].is_operator() {
                Ok(crate::simplification::simp(st[0]))
            } else {
                Err(
                    crate::error::EbnfErrorModel::ParseError {
                        input,
                        offset: crate::lexer::byte_of(input, input.len() as int) as usize,
                        reason: Some(crate::error::FailureReasonModel::ExhaustedInput(st)),
                    },
                )
            }
        },
    }
}

impl Expr {
    /// Parses a string into a single expression. For parsing an entire rule,
    /// prefer [`crate::rule::Rule::new`].
    pub fn new(input: &str) -> (r: Result<Expr, crate::error::EbnfError>)
        ensures
            ({
                let m = expr_new_spec(input@);
                match r {
                    Ok(e) => m matches Ok(em) && e@ == em,
                    Err(e) => m matches Err(em) && e@ == em,
                }
            }),
            r matches Ok(e) ==> crate::laws::canonical(e@),
    {
        broadcast use crate::lexer::lemma_token_model_seq;

        proof {
            crate::laws::lemma_expr_new_canonical(input@);
        }

        let tokens = match crate::lexer::tokenize(input) {
            Ok(t) => t,
            Err(e) => {
                return Err(e);
            },
        };
        let ghost tm = crate::lexer::token_model_seq(tokens@);
        let mut stack = crate::parser::LrStack::new();
        let mut n: usize = 0;
        proof {
            assert(stack@ =~= Seq::<ExprModel>::empty());
        }
        let ghost target = expr_drive(tm, stack@, 0);
        while n < tokens.len()
            invariant
                n <= tokens@.len(),
                tm == crate::lexer::token_model_seq(tokens@),
                expr_drive(tm, stack@, n as int) == target,
            decreases tokens@.len() - n,
        {
            broadcast use crate::lexer::lemma_token_model_seq;

            stack.push_token(tokens[n].duplicate());
            stack.reduce_until_shift_needed();
            n = n + 1;
        }
        let single_value = stack.len() == 1 && match stack.peek_node() {
            Some(e) => !crate::parser::is_operator_node(e),
            None => false,
        };
        let ghost pre = stack@;
        if single_value {
            match stack.pop_node() {
                Some(mut e) => {
                    proof {
                        assert(pre.len() == 1 && pre[0] == pre.last());
                    }
                    crate::simplification::simplify_node(&mut e);
                    Ok(e)
                },
                None => {
                    proof {
                        assert(false);
                    }
                    Err(crate::error::EbnfError::EmptyInput)
                },
            }
        } else {
            let total = crate::lexer::str_byte_len(input);
            Err(
                crate::error::EbnfError::ParseError {
                    input: input.to_owned(),
                    offset: total,
                    reason: Some(
                        crate::error::FailureReason::ExhaustedInput(stack.into_parse_stack()),
                    ),
                },
            )
        }
    }
}

} // verus!

verus! {

/// Whether two nodes are structurally identical: same variant, same span,
/// same text, and identical children.
pub fn deep_eq(a: &Expr, b: &Expr) -> (r: bool)
    ensures
        r == (a@ == b@),
    decreases a,
{
    match (a, b) {
        (Expr::Literal { span: sa, str: ta }, Expr::Literal { span: sb, str: tb }) => *sa == *sb
            && *ta == *tb,
        (
            Expr::Nonterminal { span: sa, name: ta },
            Expr::Nonterminal { span: sb, name: tb },
        ) => *sa == *sb && *ta == *tb,
        (Expr::Regex { span: sa, pattern: ta }, Expr::Regex { span: sb, pattern: tb }) => *sa
            == *sb && *ta == *tb,
        (Expr::Choice { span: sa, body: ba }, Expr::Choice { span: sb, body: bb }) => *sa == *sb
            && deep_eq_vec(ba, bb),
        (Expr::Optional { span: sa, body: ba }, Expr::Optional { span: sb, body: bb }) => *sa
            == *sb && deep_eq_vec(ba, bb),
        (Expr::Group { span: sa, body: ba }, Expr::Group { span: sb, body: bb }) => *sa == *sb
            && deep_eq_vec(ba, bb),
        (
            Expr::Repetition { span: sa, body: ba, one_needed: oa },
            Expr::Repetition { span: sb, body: bb, one_needed: ob },
        ) => *sa == *sb && *oa == *ob && deep_eq_vec(ba, bb),
        (
            Expr::UnparsedOperator { span: sa, op: oa },
            Expr::UnparsedOperator { span: sb, op: ob },
        ) => *sa == *sb && *oa == *ob,
        (Expr::Rule { span: sa, rule: ra }, Expr::Rule { span: sb, rule: rb }) => *sa == *sb
            && ra.name == rb.name && deep_eq_vec(&ra.body, &rb.body),
        _ => false,
    }
}

/// Whether two vectors of nodes are elementwise structurally identical.
pub fn deep_eq_vec(a: &Vec<Expr>, b: &Vec<Expr>) -> (r: bool)
    ensures
        r == (model_seq(a@) == model_seq(b@)),
    decreases a,
{
    broadcast use lemma_model_seq;

    if a.len() != b.len() {
        proof {
            assert(model_seq(a@).len() != model_seq(b@).len());
        }
        return false;
    }
    let n = a.len();
    let mut i: usize = 0;
    while i < n
        invariant
            i <= n,
            n == a@.len(),
            n == b@.len(),
            forall|k: int| 0 <= k < i ==> model_seq(a@)[k] == model_seq(b@)[k],
        decreases n - i,
    {
        broadcast use lemma_model_seq;

        if !deep_eq(&a[i], &b[i]) {
            proof {
                assert(model_seq(a@)[i as int] != model_seq(b@)[i as int]);
            }
            return false;
        }
        i = i + 1;
    }
    proof {
        assert(model_seq(a@) =~= model_seq(b@));
    }
    true
}

impl PartialEq for Expr {
    fn eq(&self, other: &Self) -> (r: bool) {
        deep_eq(self, other)
    }
}

impl vstd::std_specs::cmp::PartialEqSpecImpl for Expr {
    open spec fn obeys_eq_spec() -> bool {
        true
    }

    open spec fn eq_spec(&self, other: &Expr) -> bool {
        self@ == other@
    }
}

impl Eq for Expr {

}

} // verus!

verus! {

/// Whether two nodes are structurally identical once spans are disregarded:
/// same variant, same text, same shape of children. Spans describe where in
/// some input a node came from, so re-parsing a rendered tree yields the same
/// shape at different positions.
pub open spec fn same_shape(a: ExprModel, b: ExprModel) -> bool
    decreases a,
{
    match (a, b) {
        (ExprModel::Literal { text: ta, .. }, ExprModel::Literal { text: tb, .. }) => ta == tb,
        (
            ExprModel::Nonterminal { name: na, .. },
            ExprModel::Nonterminal { name: nb, .. },
        ) => na == nb,
        (ExprModel::Regex { pattern: pa, .. }, ExprModel::Regex { pattern: pb, .. }) => pa == pb,
        (ExprModel::Choice { body: ba, .. }, ExprModel::Choice { body: bb, .. }) => same_shape_seq(
            ba,
            bb,
        ),
        (ExprModel::Optional { body: ba, .. }, ExprModel::Optional { body: bb, .. }) => {
            same_shape_seq(ba, bb)
        },
        (ExprModel::Group { body: ba, .. }, ExprModel::Group { body: bb, .. }) => same_shape_seq(
            ba,
            bb,
        ),
        (
            ExprModel::Repetition { body: ba, one_needed: oa, .. },
            ExprModel::Repetition { body: bb, one_needed: ob, .. },
        ) => oa == ob && same_shape_seq(ba, bb),
        (
            ExprModel::UnparsedOperator { op: oa, .. },
            ExprModel::UnparsedOperator { op: ob, .. },
        ) => oa == ob,
        (ExprModel::Rule { rule: ra, .. }, ExprModel::Rule { rule: rb, .. }) => ra.name == rb.name
            && same_shape_seq(ra.body, rb.body),
        _ => false,
    }
}

/// Whether two sequences of nodes match elementwise once spans are
/// disregarded.
pub open spec fn same_shape_seq(a: Seq<ExprModel>, b: Seq<ExprModel>) -> bool
    decreases a,
{
    a.len() == b.len() && forall|i: int| 0 <= i < a.len() ==> same_shape(#[trigger] a[i], b[i])
}

/// Whether two nodes are structurally identical once spans are disregarded.
pub fn shape_eq(a: &Expr, b: &Expr) -> (r: bool)
    ensures
        r == same_shape(a@, b@),
    decreases a,
{
    match (a, b) {
        (Expr::Literal { str: ta, .. }, Expr::Literal { str: tb, .. }) => *ta == *tb,
        (Expr::Nonterminal { name: ta, .. }, Expr::Nonterminal { name: tb, .. }) => *ta == *tb,
        (Expr::Regex { pattern: ta, .. }, Expr::Regex { pattern: tb, .. }) => *ta == *tb,
        (Expr::Choice { body: ba, .. }, Expr::Choice { body: bb, .. }) => shape_eq_vec(ba, bb),
        (Expr::Optional { body: ba, .. }, Expr::Optional { body: bb, .. }) => shape_eq_vec(ba, bb),
        (Expr::Group { body: ba, .. }, Expr::Group { body: bb, .. }) => shape_eq_vec(ba, bb),
        (
            Expr::Repetition { body: ba, one_needed: oa, .. },
            Expr::Repetition { body: bb, one_needed: ob, .. },
        ) => *oa == *ob && shape_eq_vec(ba, bb),
        (
            Expr::UnparsedOperator { op: oa, .. },
            Expr::UnparsedOperator { op: ob, .. },
        ) => *oa == *ob,
        (Expr::Rule { rule: ra, .. }, Expr::Rule { rule: rb, .. }) => ra.name == rb.name
            && shape_eq_vec(&ra.body, &rb.body),
        _ => false,
    }
}

/// Whether two vectors of nodes match elementwise once spans are disregarded.
pub fn shape_eq_vec(a: &Vec<Expr>, b: &Vec<Expr>) -> (r: bool)
    ensures
        r == same_shape_seq(model_seq(a@), model_seq(b@)),
    decreases a,
{
    broadcast use lemma_model_seq;

    if a.len() != b.len() {
        return false;
    }
    let n = a.len();
    let mut i: usize = 0;
    while i < n
        invariant
            i <= n,
            n == a@.len(),
            n == b@.len(),
            forall|k: int|
                0 <= k < i ==> same_shape(#[trigger] model_seq(a@)[k], model_seq(b@)[k]),
        decreases n - i,
    {
        broadcast use lemma_model_seq;

        if !shape_eq(&a[i], &b[i]) {
            proof {
                assert(!same_shape(model_seq(a@)[i as int], model_seq(b@)[i as int]));
            }
            return false;
        }
        i = i + 1;
    }
    true
}

} // verus!
