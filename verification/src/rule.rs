//! Production rules and grammars: the top-level values the parser produces.

use crate::expr::Expr;
use crate::expr::ExprModel;
use vstd::prelude::*;

verus! {

/// A single production rule of a grammar: a name and the ordered sequence of
/// expressions the name refers to. The body is semantically equivalent to a
/// [`crate::expr::Expr::Group`].
#[derive(Debug)]
pub struct Rule {
    /// The name of the rule.
    pub name: String,
    /// The sequence of nodes that the name refers to.
    pub body: Vec<Expr>,
}

/// The mathematical value of a [`Rule`].
pub ghost struct RuleModel {
    /// The name of the rule.
    pub name: Seq<char>,
    /// The models of the body nodes, in order.
    pub body: Seq<ExprModel>,
}

impl Rule {
    /// The mathematical value of this rule.
    pub open spec fn model(self) -> RuleModel {
        RuleModel { name: self.name@, body: crate::expr::model_seq(self.body@) }
    }
}

/// The models of a sequence of rules, elementwise.
pub open spec fn rule_model_seq(s: Seq<Rule>) -> Seq<RuleModel>
    decreases s,
{
    if s.len() == 0 {
        Seq::empty()
    } else {
        rule_model_seq(s.drop_last()).push(s.last().model())
    }
}

/// The model of a sequence of rules has the same length, and holds the model
/// of each rule at the same position.
pub broadcast proof fn lemma_rule_model_seq(s: Seq<Rule>)
    ensures
        (#[trigger] rule_model_seq(s)).len() == s.len(),
        forall|i: int| 0 <= i < s.len() ==> rule_model_seq(s)[i] == s[i].model(),
    decreases s.len(),
{
    if s.len() > 0 {
        lemma_rule_model_seq(s.drop_last());
    }
}

/// Pushing a rule onto a sequence pushes its model onto the model sequence.
pub broadcast proof fn lemma_rule_model_seq_push(s: Seq<Rule>, e: Rule)
    ensures
        #[trigger] rule_model_seq(s.push(e)) == rule_model_seq(s).push(e.model()),
{
    assert(s.push(e).drop_last() =~= s);
    assert(s.push(e).last() == e);
}

impl View for Rule {
    type V = RuleModel;

    open spec fn view(&self) -> RuleModel {
        self.model()
    }
}

} // verus!

verus! {

broadcast use crate::expr::lemma_model_seq, crate::expr::lemma_model_seq_push;

/// The number of nodes in a tree, the node itself included.
pub open spec fn expr_size(e: ExprModel) -> int
    decreases e,
{
    match e {
        ExprModel::Choice { body, .. } => 1 + seq_size(body),
        ExprModel::Optional { body, .. } => 1 + seq_size(body),
        ExprModel::Repetition { body, .. } => 1 + seq_size(body),
        ExprModel::Group { body, .. } => 1 + seq_size(body),
        ExprModel::Rule { rule, .. } => 1 + seq_size(rule.body),
        _ => 1,
    }
}

/// The summed sizes of a sequence of trees.
pub open spec fn seq_size(s: Seq<ExprModel>) -> int
    decreases s,
{
    if s.len() == 0 {
        0
    } else {
        seq_size(s.drop_last()) + expr_size(s.last())
    }
}

/// Sizes are positive for nodes and non-negative for sequences.
pub proof fn lemma_seq_size_nonneg(s: Seq<ExprModel>)
    ensures
        seq_size(s) >= 0,
    decreases s, 0int,
{
    if s.len() > 0 {
        lemma_seq_size_nonneg(s.drop_last());
        lemma_expr_size_pos(s.last());
    }
}

/// Sizes are positive for nodes.
pub proof fn lemma_expr_size_pos(e: ExprModel)
    ensures
        expr_size(e) >= 1,
    decreases e, 1int,
{
    match e {
        ExprModel::Choice { body, .. } => lemma_seq_size_nonneg(body),
        ExprModel::Optional { body, .. } => lemma_seq_size_nonneg(body),
        ExprModel::Repetition { body, .. } => lemma_seq_size_nonneg(body),
        ExprModel::Group { body, .. } => lemma_seq_size_nonneg(body),
        ExprModel::Rule { rule, .. } => lemma_seq_size_nonneg(rule.body),
        _ => {},
    }
}

/// Size is additive over concatenation.
pub proof fn lemma_seq_size_concat(a: Seq<ExprModel>, b: Seq<ExprModel>)
    ensures
        seq_size(a + b) == seq_size(a) + seq_size(b),
    decreases b.len(),
{
    if b.len() == 0 {
        assert(a + b =~= a);
    } else {
        lemma_seq_size_concat(a, b.drop_last());
        assert((a + b).drop_last() =~= a + b.drop_last());
        assert((a + b).last() == b.last());
    }
}

/// A non-empty queue splits into its head and the rest.
pub proof fn lemma_seq_size_first(s: Seq<ExprModel>)
    requires
        s.len() > 0,
    ensures
        seq_size(s) == expr_size(s.first()) + seq_size(s.drop_first()),
{
    let head = Seq::empty().push(s.first());
    assert(s =~= head + s.drop_first());
    lemma_seq_size_concat(head, s.drop_first());
    assert(head.drop_last() =~= Seq::<ExprModel>::empty());
    assert(seq_size(head.drop_last()) == 0);
    assert(head.last() == s.first());
    assert(seq_size(head) == expr_size(s.first()));
}

/// The names of every nonterminal reachable from the queued trees, in
/// breadth-first document order: the queue is worked front to back, and a
/// compound node appends its children at the back.
pub open spec fn bfs_names(queue: Seq<ExprModel>) -> Seq<Seq<char>>
    decreases seq_size(queue), queue.len(),
    via bfs_names_decreases
{
    if queue.len() == 0 {
        Seq::empty()
    } else {
        let head = queue.first();
        let rest = queue.drop_first();
        match head {
            ExprModel::Nonterminal { name, .. } => Seq::empty().push(name) + bfs_names(rest),
            ExprModel::Choice { body, .. } => bfs_names(rest + body),
            ExprModel::Optional { body, .. } => bfs_names(rest + body),
            ExprModel::Repetition { body, .. } => bfs_names(rest + body),
            ExprModel::Group { body, .. } => bfs_names(rest + body),
            ExprModel::Rule { rule, .. } => bfs_names(rest + rule.body),
            _ => bfs_names(rest),
        }
    }
}

#[via_fn]
proof fn bfs_names_decreases(queue: Seq<ExprModel>) {
    if queue.len() > 0 {
        let head = queue.first();
        let rest = queue.drop_first();
        lemma_seq_size_first(queue);
        lemma_seq_size_nonneg(rest);
        lemma_expr_size_pos(head);
        match head {
            ExprModel::Choice { body, .. } => lemma_seq_size_concat(rest, body),
            ExprModel::Optional { body, .. } => lemma_seq_size_concat(rest, body),
            ExprModel::Repetition { body, .. } => lemma_seq_size_concat(rest, body),
            ExprModel::Group { body, .. } => lemma_seq_size_concat(rest, body),
            ExprModel::Rule { rule, .. } => lemma_seq_size_concat(rest, rule.body),
            _ => {},
        }
    }
}

/// The views of a sequence of strings, elementwise.
pub open spec fn name_model_seq(s: Seq<String>) -> Seq<Seq<char>>
    decreases s,
{
    if s.len() == 0 {
        Seq::empty()
    } else {
        name_model_seq(s.drop_last()).push(s.last()@)
    }
}

/// The view sequence has the same length and holds each string's view.
pub broadcast proof fn lemma_name_model_seq(s: Seq<String>)
    ensures
        (#[trigger] name_model_seq(s)).len() == s.len(),
        forall|i: int| 0 <= i < s.len() ==> name_model_seq(s)[i] == s[i]@,
    decreases s.len(),
{
    if s.len() > 0 {
        lemma_name_model_seq(s.drop_last());
    }
}

/// Pushing a string pushes its view.
pub broadcast proof fn lemma_name_model_seq_push(s: Seq<String>, e: String)
    ensures
        #[trigger] name_model_seq(s.push(e)) == name_model_seq(s).push(e@),
{
    assert(s.push(e).drop_last() =~= s);
    assert(s.push(e).last() == e);
}

/// Whether one of the names equals the given one.
pub open spec fn has_name(names: Seq<Seq<char>>, x: Seq<char>) -> bool {
    exists|i: int| 0 <= i < names.len() && names[i] == x
}

/// What parsing a whole input into one rule yields: the first rule the
/// engine produces.
pub open spec fn rule_new_spec(input: Seq<char>) -> Result<
    RuleModel,
    crate::error::EbnfErrorModel,
> {
    match crate::lexer::lex_spec(input) {
        Err(o) => Err(crate::error::EbnfErrorModel::LexError { input, offset: o }),
        Ok(tokens) => match crate::parser::parse_rules_spec(input, tokens) {
            Ok(rules) => if rules.len() > 0 {
                Ok(rules[0])
            } else {
                Err(crate::error::EbnfErrorModel::EmptyInput)
            },
            Err(e) => Err(e),
        },
    }
}

impl Rule {
    /// Parses a rule from an input string: the first rule the input holds.
    pub fn new(input: &str) -> (r: Result<Rule, crate::error::EbnfError>)
        ensures
            ({
                let m = rule_new_spec(input@);
                match r {
                    Ok(rule) => m matches Ok(rm) && rule@ == rm,
                    Err(e) => m matches Err(em) && e@ == em,
                }
            }),
            r matches Ok(rule) ==> crate::laws::rule_canonical(rule@),
    {
        broadcast use lemma_rule_model_seq;

        proof {
            crate::laws::lemma_rule_new_canonical(input@);
        }
        let tokens = match crate::lexer::tokenize(input) {
            Ok(t) => t,
            Err(e) => {
                return Err(e);
            },
        };
        let mut rules = match crate::parser::parse_rules_from_tokens(input, &tokens) {
            Ok(rs) => rs,
            Err(e) => {
                return Err(e);
            },
        };
        if rules.len() > 0 {
            let first = rules.remove(0);
            Ok(first)
        } else {
            Err(crate::error::EbnfError::EmptyInput)
        }
    }

    /// Every nonterminal name that appears anywhere within this rule, in
    /// breadth-first document order.
    pub fn nonterminals(&self) -> (r: Vec<String>)
        ensures
            name_model_seq(r@) == bfs_names(self@.body),
    {
        broadcast use lemma_name_model_seq, lemma_name_model_seq_push;

        let mut queue: Vec<Expr> = crate::expr::duplicate_vec(&self.body);
        let mut names: Vec<String> = Vec::new();
        let mut h: usize = 0;
        proof {
            assert(crate::expr::model_seq(queue@).skip(0) =~= crate::expr::model_seq(queue@));
            assert(name_model_seq(names@) + bfs_names(crate::expr::model_seq(queue@))
                =~= bfs_names(self@.body));
        }
        let ghost target = bfs_names(self@.body);
        while h < queue.len()
            invariant
                h <= queue@.len(),
                name_model_seq(names@) + bfs_names(
                    crate::expr::model_seq(queue@).skip(h as int),
                ) == target,
            decreases seq_size(crate::expr::model_seq(queue@).skip(h as int)),
        {
            broadcast use lemma_name_model_seq, lemma_name_model_seq_push;

            let ghost qm = crate::expr::model_seq(queue@);
            let ghost sub = qm.skip(h as int);
            proof {
                assert(sub.first() == qm[h as int]);
                assert(sub.drop_first() =~= qm.skip(h as int + 1));
                lemma_seq_size_first(sub);
                lemma_seq_size_nonneg(sub.drop_first());
                lemma_expr_size_pos(sub.first());
            }
            let node = queue[h].duplicate();
            h = h + 1;
            match node {
                Expr::Nonterminal { name, .. } => {
                    let ghost names_before = names@;
                    names.push(name);
                    proof {
                        assert(name_model_seq(names@) + bfs_names(
                            crate::expr::model_seq(queue@).skip(h as int),
                        ) =~= target);
                    }
                },
                Expr::Choice { body, .. } => {
                    push_children(&mut queue, &body);
                    proof {
                        assert(crate::expr::model_seq(queue@).skip(h as int) =~= sub.drop_first()
                            + crate::expr::model_seq(body@));
                        lemma_seq_size_concat(sub.drop_first(), crate::expr::model_seq(body@));
                        lemma_seq_size_nonneg(crate::expr::model_seq(body@));
                    }
                },
                Expr::Optional { body, .. } => {
                    push_children(&mut queue, &body);
                    proof {
                        assert(crate::expr::model_seq(queue@).skip(h as int) =~= sub.drop_first()
                            + crate::expr::model_seq(body@));
                        lemma_seq_size_concat(sub.drop_first(), crate::expr::model_seq(body@));
                        lemma_seq_size_nonneg(crate::expr::model_seq(body@));
                    }
                },
                Expr::Repetition { body, .. } => {
                    push_children(&mut queue, &body);
                    proof {
                        assert(crate::expr::model_seq(queue@).skip(h as int) =~= sub.drop_first()
                            + crate::expr::model_seq(body@));
                        lemma_seq_size_concat(sub.drop_first(), crate::expr::model_seq(body@));
                        lemma_seq_size_nonneg(crate::expr::model_seq(body@));
                    }
                },
                Expr::Group { body, .. } => {
                    push_children(&mut queue, &body);
                    proof {
                        assert(crate::expr::model_seq(queue@).skip(h as int) =~= sub.drop_first()
                            + crate::expr::model_seq(body@));
                        lemma_seq_size_concat(sub.drop_first(), crate::expr::model_seq(body@));
                        lemma_seq_size_nonneg(crate::expr::model_seq(body@));
                    }
                },
                Expr::Rule { rule, .. } => {
                    push_children(&mut queue, &rule.body);
                    proof {
                        assert(crate::expr::model_seq(queue@).skip(h as int) =~= sub.drop_first()
                            + crate::expr::model_seq(rule.body@));
                        lemma_seq_size_concat(
                            sub.drop_first(),
                            crate::expr::model_seq(rule.body@),
                        );
                        lemma_seq_size_nonneg(crate::expr::model_seq(rule.body@));
                    }
                },
                _ => {
                    proof {
                        assert(crate::expr::model_seq(queue@).skip(h as int) =~= sub.drop_first());
                    }
                },
            }
        }
        proof {
            assert(bfs_names(crate::expr::model_seq(queue@).skip(h as int)) =~= Seq::<
                Seq<char>,
            >::empty());
            assert(name_model_seq(names@) + Seq::<Seq<char>>::empty() =~= name_model_seq(names@));
        }
        names
    }

    /// Whether this rule refers to itself.
    pub fn is_recursive(&self) -> (r: bool)
        ensures
            r == has_name(bfs_names(self@.body), self@.name),
    {
        broadcast use lemma_name_model_seq;

        let names = self.nonterminals();
        let mut k: usize = 0;
        while k < names.len()
            invariant
                k <= names@.len(),
                name_model_seq(names@) == bfs_names(self@.body),
                forall|i: int| 0 <= i < k ==> name_model_seq(names@)[i] != self@.name,
            decreases names@.len() - k,
        {
            broadcast use lemma_name_model_seq;

            if names[k] == self.name {
                proof {
                    assert(name_model_seq(names@)[k as int] == self@.name);
                }
                return true;
            }
            k = k + 1;
        }
        false
    }

    /// Whether this rule refers to any other rule at all.
    pub fn contains_any_nonterminal(&self) -> (r: bool)
        ensures
            r == (bfs_names(self@.body).len() > 0),
    {
        broadcast use lemma_name_model_seq;

        let names = self.nonterminals();
        names.len() > 0
    }
}

/// Appends a copy of each node to the back of the queue.
fn push_children(queue: &mut Vec<Expr>, body: &Vec<Expr>)
    ensures
        crate::expr::model_seq(final(queue)@) == crate::expr::model_seq(old(queue)@)
            + crate::expr::model_seq(body@),
{
    let ghost base = crate::expr::model_seq(queue@);
    let ghost bm = crate::expr::model_seq(body@);
    proof {
        assert(base + bm.take(0) =~= base);
    }
    let mut t: usize = 0;
    while t < body.len()
        invariant
            t <= body@.len(),
            bm == crate::expr::model_seq(body@),
            crate::expr::model_seq(queue@) == base + bm.take(t as int),
        decreases body@.len() - t,
    {
        let ghost qvec = queue@;
        queue.push(body[t].duplicate());
        proof {
            assert(queue@ == qvec.push(queue@.last()));
            assert(base + bm.take(t as int + 1) =~= (base + bm.take(t as int)).push(
                bm[t as int],
            ));
        }
        t = t + 1;
    }
    proof {
        assert(bm.take(body@.len() as int) =~= bm);
    }
}

} // verus!

verus! {

/// Whether two string slices hold the same characters.
fn str_eq(a: &str, b: &str) -> (r: bool)
    ensures
        r == (a@ == b@),
{
    let n = a.unicode_len();
    if n != b.unicode_len() {
        return false;
    }
    let mut i: usize = 0;
    while i < n
        invariant
            i <= n,
            n == a@.len(),
            n == b@.len(),
            forall|k: int| 0 <= k < i ==> a@[k] == b@[k],
        decreases n - i,
    {
        if a.get_char(i) != b.get_char(i) {
            return false;
        }
        i = i + 1;
    }
    proof {
        assert(a@ =~= b@);
    }
    true
}

/// The index of the first rule with the given name, or minus one when no rule
/// has it.
pub open spec fn rule_index(rules: Seq<RuleModel>, name: Seq<char>) -> int
    decreases rules.len(),
{
    if rules.len() == 0 {
        -1
    } else if rules.first().name == name {
        0
    } else {
        let r = rule_index(rules.drop_first(), name);
        if r < 0 {
            -1
        } else {
            r + 1
        }
    }
}

/// What the rule-name lookup returns: either minus one and no rule has the
/// name, or the position of the first rule with it.
pub proof fn lemma_rule_index(rules: Seq<RuleModel>, name: Seq<char>)
    ensures
        rule_index(rules, name) == -1 ==> forall|k: int|
            0 <= k < rules.len() ==> (#[trigger] rules[k]).name != name,
        rule_index(rules, name) != -1 ==> {
            let i = rule_index(rules, name);
            &&& 0 <= i < rules.len()
            &&& rules[i].name == name
            &&& forall|k: int| 0 <= k < i ==> (#[trigger] rules[k]).name != name
        },
    decreases rules.len(),
{
    if rules.len() == 0 {
    } else if rules.first().name == name {
        assert(rules[0] == rules.first());
    } else {
        let rest = rules.drop_first();
        lemma_rule_index(rest, name);
        let r = rule_index(rest, name);
        if r < 0 {
            assert forall|k: int| 0 <= k < rules.len() implies (#[trigger] rules[k]).name
                != name by {
                if k == 0 {
                    assert(rules[0] == rules.first());
                } else {
                    assert(rules[k] == rest[k - 1]);
                }
            }
        } else {
            assert(rules[r + 1] == rest[r]);
            assert forall|k: int| 0 <= k < r + 1 implies (#[trigger] rules[k]).name != name by {
                if k == 0 {
                    assert(rules[0] == rules.first());
                } else {
                    assert(rules[k] == rest[k - 1]);
                }
            }
        }
    }
}

/// A rule body unwrapped for merging: where the body is exactly one choice,
/// that choice's alternatives; otherwise the body itself.
pub open spec fn unwrap_choice_body(body: Seq<ExprModel>) -> Seq<ExprModel> {
    if body.len() == 1 && body[0] is Choice {
        body[0]->Choice_body
    } else {
        body
    }
}

/// The merged body of two rules with one name: both sides unwrapped, chained,
/// and wrapped in a single choice spanning all alternatives.
pub open spec fn merge_bodies(
    old_body: Seq<ExprModel>,
    new_body: Seq<ExprModel>,
) -> Seq<ExprModel> {
    let combined = unwrap_choice_body(old_body) + unwrap_choice_body(new_body);
    Seq::empty().push(
        ExprModel::Choice {
            span: crate::simplification::body_span(combined, crate::span::Span::spec_dummy()),
            body: combined,
        },
    )
}

/// One rule folded into the accumulated grammar: a fresh name is appended, a
/// duplicate name merges into the existing entry in place.
pub open spec fn grammar_insert(rules: Seq<RuleModel>, r: RuleModel) -> Seq<RuleModel> {
    let i = rule_index(rules, r.name);
    if i == -1 {
        rules.push(r)
    } else {
        rules.update(
            i,
            RuleModel { name: rules[i].name, body: merge_bodies(rules[i].body, r.body) },
        )
    }
}

/// Every rule folded into the accumulated grammar, in order, from index `n`
/// on.
pub open spec fn grammar_fold(acc: Seq<RuleModel>, list: Seq<RuleModel>, n: int) -> Seq<RuleModel>
    decreases list.len() - n,
{
    if n < 0 || n >= list.len() {
        acc
    } else {
        grammar_fold(grammar_insert(acc, list[n]), list, n + 1)
    }
}

/// What parsing a whole input into a grammar yields: every rule the engine
/// produces, folded in order with duplicate names merged.
pub open spec fn grammar_new_spec(input: Seq<char>) -> Result<
    Seq<RuleModel>,
    crate::error::EbnfErrorModel,
> {
    match crate::lexer::lex_spec(input) {
        Err(o) => Err(crate::error::EbnfErrorModel::LexError { input, offset: o }),
        Ok(tokens) => match crate::parser::parse_rules_spec(input, tokens) {
            Ok(rules) => Ok(grammar_fold(Seq::empty(), rules, 0)),
            Err(e) => Err(e),
        },
    }
}

/// A set of EBNF rules, kept in first-appearance order; a rule name appears
/// at most once, later rules with a seen name having been merged in.
#[derive(Debug)]
pub struct Grammar {
    /// The rules, in first-appearance order.
    pub rules: Vec<Rule>,
}

impl View for Grammar {
    type V = Seq<RuleModel>;

    open spec fn view(&self) -> Seq<RuleModel> {
        rule_model_seq(self.rules@)
    }
}

/// The merged body of two rules with one name.
fn merge_duplicate_rule(old_body: Vec<Expr>, new_body: Vec<Expr>) -> (r: Vec<Expr>)
    ensures
        crate::expr::model_seq(r@) == merge_bodies(
            crate::expr::model_seq(old_body@),
            crate::expr::model_seq(new_body@),
        ),
{
    let mut combined = unwrap_choice_items(old_body);
    let mut unwrapped_new = unwrap_choice_items(new_body);
    let ghost av = crate::expr::model_seq(combined@);
    let ghost bv = combined@;
    let ghost nv = unwrapped_new@;
    combined.append(&mut unwrapped_new);
    proof {
        lemma_model_seq_concat(bv, nv);
    }
    let span = crate::simplification::union_of_spans(&combined, crate::span::Span::dummy());
    let node = Expr::Choice { span, body: combined };
    let mut out: Vec<Expr> = Vec::new();
    out.push(node);
    proof {
        assert(out@.drop_last() =~= Seq::<Expr>::empty());
        assert(crate::expr::model_seq(out@) =~= Seq::empty().push(out@.last().model()));
    }
    out
}

/// The models of a concatenation are the concatenated models.
proof fn lemma_model_seq_concat(a: Seq<Expr>, b: Seq<Expr>)
    ensures
        crate::expr::model_seq(a + b) == crate::expr::model_seq(a) + crate::expr::model_seq(b),
    decreases b.len(),
{
    if b.len() == 0 {
        assert(a + b =~= a);
        assert(crate::expr::model_seq(a) + crate::expr::model_seq(b) =~= crate::expr::model_seq(
            a,
        ));
    } else {
        lemma_model_seq_concat(a, b.drop_last());
        assert((a + b).drop_last() =~= a + b.drop_last());
        assert((a + b).last() == b.last());
        assert(crate::expr::model_seq(a) + crate::expr::model_seq(b) =~= (crate::expr::model_seq(a)
            + crate::expr::model_seq(b.drop_last())).push(b.last().model()));
    }
}

/// A rule body unwrapped for merging.
fn unwrap_choice_items(body: Vec<Expr>) -> (r: Vec<Expr>)
    ensures
        crate::expr::model_seq(r@) == unwrap_choice_body(crate::expr::model_seq(body@)),
{
    let ghost orig = crate::expr::model_seq(body@);
    let single_choice = body.len() == 1 && match &body[0] {
        Expr::Choice { .. } => true,
        _ => false,
    };
    if single_choice {
        let mut b = body;
        let popped = b.pop();
        match popped {
            Some(e) => match e {
                Expr::Choice { body: inner, .. } => {
                    proof {
                        assert(orig[0] == orig.last());
                        assert(orig[0] is Choice);
                    }
                    inner
                },
                _ => {
                    proof {
                        assert(false);
                    }
                    Vec::new()
                },
            },
            None => {
                proof {
                    assert(false);
                }
                Vec::new()
            },
        }
    } else {
        body
    }
}

} // verus!

verus! {

/// The position of the first rule with the given name, or the length of the
/// vector when no rule has it.
fn find_rule(rules: &Vec<Rule>, name: &String) -> (i: usize)
    ensures
        ({
            let rm = rule_model_seq(rules@);
            if rule_index(rm, name@) == -1 {
                i == rules@.len()
            } else {
                i as int == rule_index(rm, name@) && i < rules@.len()
            }
        }),
{
    broadcast use lemma_rule_model_seq;

    let ghost rm = rule_model_seq(rules@);
    let n = rules.len();
    let mut i: usize = 0;
    while i < n
        invariant
            i <= n,
            n == rules@.len(),
            rm == rule_model_seq(rules@),
            forall|k: int| 0 <= k < i ==> (#[trigger] rm[k]).name != name@,
        decreases n - i,
    {
        broadcast use lemma_rule_model_seq;

        if rules[i].name == *name {
            proof {
                lemma_rule_index(rm, name@);
                let idx = rule_index(rm, name@);
                if idx == -1 {
                    assert(rm[i as int].name != name@);
                }
                if 0 <= idx < i as int {
                    assert(rm[idx].name != name@);
                }
                if idx > i as int {
                    assert(rm[i as int].name != name@);
                }
            }
            return i;
        }
        i = i + 1;
    }
    proof {
        lemma_rule_index(rm, name@);
        let idx = rule_index(rm, name@);
        if idx != -1 {
            assert(rm[idx].name != name@);
        }
    }
    n
}

/// Folds one parsed rule into the accumulated grammar: a fresh name is
/// appended, a duplicate name merges into the existing entry in place.
fn insert_rule(rules: &mut Vec<Rule>, r: Rule)
    ensures
        rule_model_seq(final(rules)@) == grammar_insert(rule_model_seq(old(rules)@), r@),
{
    broadcast use lemma_rule_model_seq, lemma_rule_model_seq_push;

    let ghost rm = rule_model_seq(rules@);
    let i = find_rule(rules, &r.name);
    if i < rules.len() {
        let ghost before = rules@;
        let old_rule = rules.remove(i);
        let merged_body = merge_duplicate_rule(old_rule.body, r.body);
        let replacement = Rule { name: old_rule.name, body: merged_body };
        rules.insert(i, replacement);
        proof {
            lemma_rule_model_seq(rules@);
            lemma_rule_model_seq(before);
            assert(rules@ =~= before.update(i as int, rules@[i as int]));
            assert(rule_model_seq(rules@) =~= rm.update(i as int, rules@[i as int].model()));
            assert(rules@[i as int].model() == (RuleModel {
                name: rm[i as int].name,
                body: merge_bodies(rm[i as int].body, r@.body),
            }));
        }
    } else {
        rules.push(r);
    }
}

impl Grammar {
    /// Parses a grammar: every rule of the input, in first-appearance order,
    /// with duplicate names merged into one choice.
    pub fn new(input: &str) -> (r: Result<Grammar, crate::error::EbnfError>)
        ensures
            ({
                let m = grammar_new_spec(input@);
                match r {
                    Ok(g) => m matches Ok(gm) && g@ == gm,
                    Err(e) => m matches Err(em) && e@ == em,
                }
            }),
            r matches Ok(g) ==> forall|i: int|
                0 <= i < g@.len() ==> crate::laws::rule_output_ok(#[trigger] g@[i]),
    {
        broadcast use lemma_rule_model_seq;

        proof {
            crate::laws::lemma_grammar_new_ok(input@);
        }
        let tokens = match crate::lexer::tokenize(input) {
            Ok(t) => t,
            Err(e) => {
                return Err(e);
            },
        };
        let rules = match crate::parser::parse_rules_from_tokens(input, &tokens) {
            Ok(rs) => rs,
            Err(e) => {
                return Err(e);
            },
        };
        let ghost listm = rule_model_seq(rules@);
        let ghost target = grammar_fold(Seq::empty(), listm, 0);
        let mut acc: Vec<Rule> = Vec::new();
        let mut k: usize = 0;
        proof {
            assert(rule_model_seq(acc@) =~= Seq::<RuleModel>::empty());
        }
        while k < rules.len()
            invariant
                k <= rules@.len(),
                listm == rule_model_seq(rules@),
                target == grammar_fold(Seq::empty(), listm, 0),
                grammar_fold(rule_model_seq(acc@), listm, k as int) == target,
            decreases rules@.len() - k,
        {
            broadcast use lemma_rule_model_seq;

            let copy = Rule {
                name: rules[k].name.clone(),
                body: crate::expr::duplicate_vec(&rules[k].body),
            };
            proof {
                assert(copy.model() == listm[k as int]);
            }
            insert_rule(&mut acc, copy);
            k = k + 1;
        }
        Ok(Grammar { rules: acc })
    }

    /// The rule with the given name, if the grammar holds one.
    pub fn get(&self, name: &str) -> (r: Option<&Rule>)
        ensures
            match r {
                Some(rule) => rule_index(self@, name@) >= 0 && rule@ == self@[rule_index(
                    self@,
                    name@,
                )],
                None => rule_index(self@, name@) == -1,
            },
    {
        broadcast use lemma_rule_model_seq;

        let ghost gm = self@;
        proof {
            lemma_rule_index(gm, name@);
        }
        let n = self.rules.len();
        let mut i: usize = 0;
        while i < n
            invariant
                i <= n,
                n == self.rules@.len(),
                gm == self@,
                forall|k: int| 0 <= k < i ==> (#[trigger] gm[k]).name != name@,
            decreases n - i,
        {
            broadcast use lemma_rule_model_seq;

            if str_eq(self.rules[i].name.as_str(), name) {
                proof {
                    lemma_rule_index(gm, name@);
                    let idx = rule_index(gm, name@);
                    if idx == -1 {
                        assert(gm[i as int].name != name@);
                    }
                    if idx < i as int && idx >= 0 {
                        assert(gm[idx].name != name@);
                    }
                    if idx > i as int {
                        assert(gm[i as int].name != name@);
                    }
                }
                return Some(&self.rules[i]);
            }
            i = i + 1;
        }
        proof {
            lemma_rule_index(gm, name@);
            let idx = rule_index(gm, name@);
            if idx != -1 {
                assert(gm[idx].name != name@);
            }
        }
        None
    }
}

/// Whether the grammar holds a rule with the given name.
fn has_rule(rules: &Vec<Rule>, name: &String) -> (r: bool)
    ensures
        r == (rule_index(rule_model_seq(rules@), name@) != -1),
{
    broadcast use lemma_rule_model_seq;

    let ghost gm = rule_model_seq(rules@);
    let n = rules.len();
    let mut i: usize = 0;
    while i < n
        invariant
            i <= n,
            n == rules@.len(),
            gm == rule_model_seq(rules@),
            forall|k: int| 0 <= k < i ==> (#[trigger] gm[k]).name != name@,
        decreases n - i,
    {
        broadcast use lemma_rule_model_seq;

        if rules[i].name == *name {
            proof {
                lemma_rule_index(gm, name@);
                let idx = rule_index(gm, name@);
                if idx == -1 {
                    assert(gm[i as int].name != name@);
                }
            }
            return true;
        }
        i = i + 1;
    }
    proof {
        lemma_rule_index(gm, name@);
        let idx = rule_index(gm, name@);
        if idx != -1 {
            assert(gm[idx].name != name@);
        }
    }
    false
}

/// The first missing name: the first of the names that no rule of the grammar
/// carries.
pub open spec fn first_missing(names: Seq<Seq<char>>, rules: Seq<RuleModel>) -> Option<Seq<char>>
    decreases names.len(),
{
    if names.len() == 0 {
        None
    } else if rule_index(rules, names.first()) == -1 {
        Some(names.first())
    } else {
        first_missing(names.drop_first(), rules)
    }
}

/// The first dangling reference from rule `k` on: the first rule, in order,
/// holding a reference to a name the grammar does not define, paired with
/// that name.
pub open spec fn first_dangling(rules: Seq<RuleModel>, k: int) -> Option<(Seq<char>, Seq<char>)>
    decreases rules.len() - k,
{
    if k < 0 || k >= rules.len() {
        None
    } else {
        match first_missing(bfs_names(rules[k].body), rules) {
            Some(m) => Some((rules[k].name, m)),
            None => first_dangling(rules, k + 1),
        }
    }
}

impl Grammar {
    /// Looks for a rule whose body references a name that no rule of this
    /// grammar defines: the first such rule's name together with the missing
    /// name, in rule order and document order, or nothing when every
    /// reference resolves.
    pub fn first_dangling_reference(&self) -> (r: Option<(String, String)>)
        ensures
            match r {
                Some(p) => first_dangling(self@, 0) == Some((p.0@, p.1@)),
                None => first_dangling(self@, 0) is None,
            },
    {
        broadcast use lemma_rule_model_seq, lemma_name_model_seq;

        let ghost gm = self@;
        let n = self.rules.len();
        let mut k: usize = 0;
        while k < n
            invariant
                k <= n,
                n == self.rules@.len(),
                gm == self@,
                first_dangling(gm, k as int) == first_dangling(gm, 0),
            decreases n - k,
        {
            broadcast use lemma_rule_model_seq, lemma_name_model_seq;

            let names = self.rules[k].nonterminals();
            let ghost nm = name_model_seq(names@);
            let mut t: usize = 0;
            proof {
                assert(nm.skip(0) =~= nm);
            }
            while t < names.len()
                invariant
                    t <= names@.len(),
                    nm == name_model_seq(names@),
                    gm == self@,
                    n == self.rules@.len(),
                    k < n,
                    nm == bfs_names(gm[k as int].body),
                    first_missing(nm.skip(t as int), gm) == first_missing(nm, gm),
                    first_dangling(gm, k as int) == first_dangling(gm, 0),
                decreases names@.len() - t,
            {
                broadcast use lemma_rule_model_seq, lemma_name_model_seq;

                let ghost sub = nm.skip(t as int);
                proof {
                    assert(sub.first() == nm[t as int]);
                    assert(sub.drop_first() =~= nm.skip(t as int + 1));
                }
                if !has_rule(&self.rules, &names[t]) {
                    let rule_name = self.rules[k].name.clone();
                    let missing = names[t].clone();
                    proof {
                        assert(sub.len() > 0);
                        assert(first_missing(sub, gm) == Some(sub.first()));
                        assert(first_dangling(gm, k as int) == Some(
                            (gm[k as int].name, nm[t as int]),
                        ));
                        assert(rule_name@ == gm[k as int].name);
                        assert(missing@ == nm[t as int]);
                        assert(gm == self@);
                        assert(first_dangling(self@, 0) == Some((rule_name@, missing@)));
                    }
                    return Some((rule_name, missing));
                }
                t = t + 1;
            }
            proof {
                assert(nm.skip(names@.len() as int) =~= Seq::<Seq<char>>::empty());
                assert(first_missing(nm, gm) is None);
                assert(first_dangling(gm, k as int) == first_dangling(gm, k as int + 1));
            }
            k = k + 1;
        }
        None
    }
}

} // verus!

verus! {

impl PartialEq for Rule {
    fn eq(&self, other: &Self) -> (r: bool) {
        self.name == other.name && crate::expr::deep_eq_vec(&self.body, &other.body)
    }
}

impl vstd::std_specs::cmp::PartialEqSpecImpl for Rule {
    open spec fn obeys_eq_spec() -> bool {
        true
    }

    open spec fn eq_spec(&self, other: &Rule) -> bool {
        self@ == other@
    }
}

impl Eq for Rule {

}

} // verus!
