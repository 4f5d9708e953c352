//! Structured diagnostic values for malformed input, with a rendering
//! capability that highlights source spans.

use crate::expr::Expr;
use crate::expr::ExprModel;
use crate::expr::model_seq;
use vstd::prelude::*;

verus! {

/// Why a parse failed after the lexer succeeded.
#[derive(Debug)]
pub enum FailureReason {
    /// A `;` was seen but reducing did not produce a rule; carries the
    /// surviving parse stack, oldest node first.
    TerminatorNotEndingRule(Vec<Expr>),
    /// The end of the input was reached with nodes still on the stack;
    /// carries the surviving parse stack, oldest node first.
    ExhaustedInput(Vec<Expr>),
}

/// The mathematical value of a [`FailureReason`].
pub ghost enum FailureReasonModel {
    /// Model of [`FailureReason::TerminatorNotEndingRule`].
    TerminatorNotEndingRule(Seq<ExprModel>),
    /// Model of [`FailureReason::ExhaustedInput`].
    ExhaustedInput(Seq<ExprModel>),
}

impl View for FailureReason {
    type V = FailureReasonModel;

    open spec fn view(&self) -> FailureReasonModel {
        match self {
            FailureReason::TerminatorNotEndingRule(stack) => {
                FailureReasonModel::TerminatorNotEndingRule(model_seq(stack@))
            },
            FailureReason::ExhaustedInput(stack) => {
                FailureReasonModel::ExhaustedInput(model_seq(stack@))
            },
        }
    }
}

/// A failure to turn input text into an expression, rule or grammar.
#[derive(Debug)]
pub enum EbnfError {
    /// The lexer found a position with no recognizable token; carries the
    /// original input and the byte offset of that position.
    LexError {
        /// The input that failed to lex.
        input: String,
        /// Byte offset of the first unrecognized character.
        offset: usize,
    },
    /// The token stream did not reduce to the requested value; carries the
    /// original input, a byte offset near the failure, and a guess at the
    /// reason.
    ParseError {
        /// The input that failed to parse.
        input: String,
        /// Byte offset near where the parse got stuck.
        offset: usize,
        /// A guess at why; it may be absent.
        reason: Option<FailureReason>,
    },
    /// The input held no tokens at all.
    EmptyInput,
}

/// The mathematical value of an [`EbnfError`].
pub ghost enum EbnfErrorModel {
    /// Model of [`EbnfError::LexError`].
    LexError { input: Seq<char>, offset: usize },
    /// Model of [`EbnfError::ParseError`].
    ParseError { input: Seq<char>, offset: usize, reason: Option<FailureReasonModel> },
    /// Model of [`EbnfError::EmptyInput`].
    EmptyInput,
}

impl View for EbnfError {
    type V = EbnfErrorModel;

    open spec fn view(&self) -> EbnfErrorModel {
        match self {
            EbnfError::LexError { input, offset } => EbnfErrorModel::LexError {
                input: input@,
                offset: *offset,
            },
            EbnfError::ParseError { input, offset, reason } => EbnfErrorModel::ParseError {
                input: input@,
                offset: *offset,
                reason: match reason {
                    Some(r) => Some(r@),
                    None => None,
                },
            },
            EbnfError::EmptyInput => EbnfErrorModel::EmptyInput,
        }
    }
}

impl EbnfError {
    /// The input text the error refers to, where the error carries one.
    pub fn input(&self) -> (r: Option<&str>)
        ensures
            match r {
                Some(s) => (self@ matches EbnfErrorModel::LexError { input, .. } && s@ == input)
                    || (self@ matches EbnfErrorModel::ParseError { input, .. } && s@ == input),
                None => self@ is EmptyInput,
            },
    {
        match self {
            EbnfError::LexError { input, .. } => Some(input.as_str()),
            EbnfError::ParseError { input, .. } => Some(input.as_str()),
            EbnfError::EmptyInput => None,
        }
    }

    /// The byte offset the error refers to, where the error carries one.
    pub fn offset(&self) -> (r: Option<usize>)
        ensures
            match r {
                Some(o) => (self@ matches EbnfErrorModel::LexError { offset, .. } && o == offset)
                    || (self@ matches EbnfErrorModel::ParseError { offset, .. } && o == offset),
                None => self@ is EmptyInput,
            },
    {
        match self {
            EbnfError::LexError { offset, .. } => Some(*offset),
            EbnfError::ParseError { offset, .. } => Some(*offset),
            EbnfError::EmptyInput => None,
        }
    }
}

/// Equality on errors compares the kind, the input and the offset; the guessed
/// reason of a parse error is not part of its identity.
pub open spec fn error_models_equal(a: EbnfErrorModel, b: EbnfErrorModel) -> bool {
    match (a, b) {
        (EbnfErrorModel::EmptyInput, EbnfErrorModel::EmptyInput) => true,
        (
            EbnfErrorModel::LexError { input: ia, offset: oa },
            EbnfErrorModel::LexError { input: ib, offset: ob },
        ) => ia == ib && oa == ob,
        (
            EbnfErrorModel::ParseError { input: ia, offset: oa, .. },
            EbnfErrorModel::ParseError { input: ib, offset: ob, .. },
        ) => ia == ib && oa == ob,
        _ => false,
    }
}

impl PartialEq for EbnfError {
    fn eq(&self, other: &Self) -> (r: bool) {
        match (self, other) {
            (EbnfError::EmptyInput, EbnfError::EmptyInput) => true,
            (
                EbnfError::LexError { input: ia, offset: oa },
                EbnfError::LexError { input: ib, offset: ob },
            ) => *ia == *ib && oa == ob,
            (
                EbnfError::ParseError { input: ia, offset: oa, .. },
                EbnfError::ParseError { input: ib, offset: ob, .. },
            ) => *ia == *ib && oa == ob,
            _ => false,
        }
    }
}

impl vstd::std_specs::cmp::PartialEqSpecImpl for EbnfError {
    open spec fn obeys_eq_spec() -> bool {
        true
    }

    open spec fn eq_spec(&self, other: &EbnfError) -> bool {
        error_models_equal(self@, other@)
    }
}

impl Eq for EbnfError {

}

} // verus!

verus! {

/// The text of one decimal digit.
pub open spec fn digit_rep(d: int) -> Seq<char> {
    if d == 0 {
        "0"@
    } else if d == 1 {
        "1"@
    } else if d == 2 {
        "2"@
    } else if d == 3 {
        "3"@
    } else if d == 4 {
        "4"@
    } else if d == 5 {
        "5"@
    } else if d == 6 {
        "6"@
    } else if d == 7 {
        "7"@
    } else if d == 8 {
        "8"@
    } else {
        "9"@
    }
}

/// The decimal text of a non-negative number.
pub open spec fn dec_digits(n: int) -> Seq<char>
    decreases n,
{
    if n <= 9 {
        digit_rep(n)
    } else {
        dec_digits(n / 10) + digit_rep(n % 10)
    }
}

/// The text of one decimal digit.
fn digit_string(d: usize) -> (r: &'static str)
    requires
        d <= 9,
    ensures
        r@ == digit_rep(d as int),
{
    if d == 0 {
        "0"
    } else if d == 1 {
        "1"
    } else if d == 2 {
        "2"
    } else if d == 3 {
        "3"
    } else if d == 4 {
        "4"
    } else if d == 5 {
        "5"
    } else if d == 6 {
        "6"
    } else if d == 7 {
        "7"
    } else if d == 8 {
        "8"
    } else {
        "9"
    }
}

/// The decimal text of a number.
pub fn usize_to_string(n: usize) -> (r: String)
    ensures
        r@ == dec_digits(n as int),
    decreases n,
{
    if n <= 9 {
        digit_string(n).to_owned()
    } else {
        let mut s = usize_to_string(n / 10);
        s.append(digit_string(n % 10));
        s
    }
}

/// The name of a node's kind, as diagnostics print it.
pub open spec fn kind_name(e: ExprModel) -> Seq<char> {
    match e {
        ExprModel::Literal { .. } => "Literal"@,
        ExprModel::Nonterminal { .. } => "Nonterminal"@,
        ExprModel::Choice { .. } => "Choice"@,
        ExprModel::Optional { .. } => "Optional"@,
        ExprModel::Repetition { .. } => "Repetition"@,
        ExprModel::Regex { .. } => "Regex"@,
        ExprModel::Group { .. } => "Group"@,
        ExprModel::UnparsedOperator { .. } => "UnparsedOperator"@,
        ExprModel::Rule { .. } => "Rule"@,
    }
}

/// The name of a node's kind, as diagnostics print it.
fn kind_name_exec(e: &Expr) -> (r: &'static str)
    ensures
        r@ == kind_name(e@),
{
    match e {
        Expr::Literal { .. } => "Literal",
        Expr::Nonterminal { .. } => "Nonterminal",
        Expr::Choice { .. } => "Choice",
        Expr::Optional { .. } => "Optional",
        Expr::Repetition { .. } => "Repetition",
        Expr::Regex { .. } => "Regex",
        Expr::Group { .. } => "Group",
        Expr::UnparsedOperator { .. } => "UnparsedOperator",
        Expr::Rule { .. } => "Rule",
    }
}

/// The hint attached to an operator that survived to the fixpoint.
pub open spec fn op_hint(op: crate::expr::Operator) -> Seq<char> {
    match op {
        crate::expr::Operator::OpenedGroup => "Possible unclosed bracket"@,
        crate::expr::Operator::OpenedSquare => "Possible unclosed bracket"@,
        crate::expr::Operator::Kleene => "Could not apply to preceding term"@,
        crate::expr::Operator::Optional => "Could not apply to preceding term"@,
        crate::expr::Operator::Repeat => "Could not apply to preceding term"@,
        _ => "Operator not understood"@,
    }
}

/// The hint attached to an operator that survived to the fixpoint.
fn op_hint_exec(op: crate::expr::Operator) -> (r: &'static str)
    ensures
        r@ == op_hint(op),
{
    match op {
        crate::expr::Operator::OpenedGroup => "Possible unclosed bracket",
        crate::expr::Operator::OpenedSquare => "Possible unclosed bracket",
        crate::expr::Operator::Kleene => "Could not apply to preceding term",
        crate::expr::Operator::Optional => "Could not apply to preceding term",
        crate::expr::Operator::Repeat => "Could not apply to preceding term",
        _ => "Operator not understood",
    }
}

/// The bracketed text of a span: start and end as line:column pairs.
pub open spec fn span_text(sp: crate::span::Span) -> Seq<char> {
    "["@ + dec_digits(sp.line_offset_start.line as int) + ":"@ + dec_digits(
        sp.line_offset_start.col as int,
    ) + ".."@ + dec_digits(sp.line_offset_end.line as int) + ":"@ + dec_digits(
        sp.line_offset_end.col as int,
    ) + "]"@
}

/// The bracketed text of a span: start and end as line:column pairs.
fn span_text_exec(sp: crate::span::Span) -> (r: String)
    ensures
        r@ == span_text(sp),
{
    let mut out = String::new();
    out.append("[");
    let t1 = usize_to_string(sp.line_offset_start.line);
    out.append(t1.as_str());
    out.append(":");
    let t2 = usize_to_string(sp.line_offset_start.col);
    out.append(t2.as_str());
    out.append("..");
    let t3 = usize_to_string(sp.line_offset_end.line);
    out.append(t3.as_str());
    out.append(":");
    let t4 = usize_to_string(sp.line_offset_end.col);
    out.append(t4.as_str());
    out.append("]");
    proof {
        assert(out@ =~= span_text(sp));
    }
    out
}

} // verus!

verus! {

/// A structured diagnostic: a message, labelled source ranges, and notes.
pub ghost struct DiagnosticsModel {
    /// The headline message.
    pub message: Seq<char>,
    /// Labelled byte ranges of the input, each with its text.
    pub labels: Seq<(usize, usize, Seq<char>)>,
    /// Free-standing notes.
    pub notes: Seq<Seq<char>>,
}

/// One more than the offset, capped at the largest representable value.
pub open spec fn bump(offset: usize) -> usize {
    if offset == usize::MAX {
        offset
    } else {
        (offset + 1) as usize
    }
}

/// The character whose encoding starts at the given byte offset, walking from
/// character index `i`.
pub open spec fn char_at_byte(s: Seq<char>, off: int, i: int) -> Option<char>
    decreases s.len() - i,
{
    if i < 0 || i >= s.len() {
        None
    } else if crate::lexer::byte_of(s, i) == off {
        Some(s[i])
    } else if crate::lexer::byte_of(s, i) > off {
        None
    } else {
        char_at_byte(s, off, i + 1)
    }
}

/// A label for each operator on the surviving stack, oldest first, except the
/// equals sign and the terminator; each carries a hint for its kind.
pub open spec fn operator_labels(nodes: Seq<ExprModel>) -> Seq<(usize, usize, Seq<char>)>
    decreases nodes.len(),
{
    if nodes.len() == 0 {
        Seq::empty()
    } else {
        let rest = operator_labels(nodes.drop_last());
        match nodes.last() {
            ExprModel::UnparsedOperator { span, op } => {
                if op == crate::expr::Operator::Equals || op
                    == crate::expr::Operator::Terminator {
                    rest
                } else {
                    rest.push((span.start, span.end, op_hint(op)))
                }
            },
            _ => rest,
        }
    }
}

/// The position of the first equals operator on the stack, or minus one.
pub open spec fn equals_pos(nodes: Seq<ExprModel>) -> int
    decreases nodes.len(),
{
    if nodes.len() == 0 {
        -1
    } else if is_equals_node(nodes.first()) {
        0
    } else {
        let r = equals_pos(nodes.drop_first());
        if r < 0 {
            -1
        } else {
            r + 1
        }
    }
}

/// Whether the node is the equals operator.
pub open spec fn is_equals_node(e: ExprModel) -> bool {
    e matches ExprModel::UnparsedOperator { op, .. } && op == crate::expr::Operator::Equals
}

/// What the equals-position lookup returns: either minus one and no node is
/// an equals operator, or the position of the first one.
pub proof fn lemma_equals_pos(nodes: Seq<ExprModel>)
    ensures
        equals_pos(nodes) == -1 ==> forall|k: int|
            0 <= k < nodes.len() ==> !is_equals_node(#[trigger] nodes[k]),
        equals_pos(nodes) != -1 ==> {
            let i = equals_pos(nodes);
            &&& 0 <= i < nodes.len()
            &&& is_equals_node(nodes[i])
            &&& forall|k: int| 0 <= k < i ==> !is_equals_node(#[trigger] nodes[k])
        },
    decreases nodes.len(),
{
    if nodes.len() == 0 {
    } else if is_equals_node(nodes.first()) {
        assert(nodes[0] == nodes.first());
    } else {
        let rest = nodes.drop_first();
        lemma_equals_pos(rest);
        let r = equals_pos(rest);
        if r < 0 {
            assert forall|k: int| 0 <= k < nodes.len() implies !is_equals_node(
                #[trigger] nodes[k],
            ) by {
                if k == 0 {
                    assert(nodes[0] == nodes.first());
                } else {
                    assert(nodes[k] == rest[k - 1]);
                }
            }
        } else {
            assert(nodes[r + 1] == rest[r]);
            assert forall|k: int| 0 <= k < r + 1 implies !is_equals_node(#[trigger] nodes[k]) by {
                if k == 0 {
                    assert(nodes[0] == nodes.first());
                } else {
                    assert(nodes[k] == rest[k - 1]);
                }
            }
        }
    }
}

/// Whether pushing a synthetic terminator onto the surviving stack and
/// reducing once more would have produced a rule: the input only lacked a
/// semicolon.
pub open spec fn missing_terminator(nodes: Seq<ExprModel>) -> bool {
    let sp = if nodes.len() == 0 {
        crate::span::Span::spec_dummy()
    } else {
        crate::parser::union_spans(nodes)
    };
    let st = crate::parser::reduce_fix(
        nodes.push(
            ExprModel::UnparsedOperator { span: sp, op: crate::expr::Operator::Terminator },
        ),
    );
    st.len() > 0 && st.last() is Rule
}

/// One line of the stack note for each surviving node, most recent on top.
pub open spec fn stack_lines(nodes: Seq<ExprModel>, i: int) -> Seq<char>
    decreases nodes.len() - i,
{
    if i < 0 || i >= nodes.len() {
        Seq::empty()
    } else {
        let node = nodes[nodes.len() - 1 - i];
        dec_digits(i) + ": "@ + kind_name(node) + " "@ + span_text(node.spec_span()) + "\n"@
            + stack_lines(nodes, i + 1)
    }
}

/// The note that prints the surviving stack, most recent on top.
pub open spec fn stack_note(nodes: Seq<ExprModel>) -> Seq<char> {
    "The parse stack looked like this (most recent on top):\n"@ + stack_lines(nodes, 0)
}

/// The labels of a parse error: a hint for every stuck operator, a note on a
/// missing identifier before the equals sign where one is expected, and a
/// label at the reported offset.
pub open spec fn parse_labels(offset: usize, reason: FailureReasonModel) -> Seq<
    (usize, usize, Seq<char>),
> {
    match reason {
        FailureReasonModel::ExhaustedInput(nodes) => operator_labels(nodes).push(
            if missing_terminator(nodes) {
                (offset, offset, "Missing semicolon here"@)
            } else {
                (offset, offset, "Unexpected end of input at index "@ + dec_digits(offset as int))
            },
        ),
        FailureReasonModel::TerminatorNotEndingRule(nodes) => {
            let base = operator_labels(nodes);
            let p = equals_pos(nodes);
            let with_ident = if p >= 1 && !(nodes[p - 1] is Nonterminal) {
                base.push(
                    (
                        nodes[p - 1].spec_span().start,
                        nodes[p - 1].spec_span().end,
                        "Expected identifier, found "@ + kind_name(nodes[p - 1]),
                    ),
                )
            } else {
                base
            };
            with_ident.push((offset, bump(offset), "Rule ending here did not parse successfully"@))
        },
    }
}

/// The structured diagnostic of an error.
pub open spec fn diag_spec(e: EbnfErrorModel) -> DiagnosticsModel {
    match e {
        EbnfErrorModel::EmptyInput => DiagnosticsModel {
            message: "Input string was empty"@,
            labels: Seq::empty(),
            notes: Seq::empty(),
        },
        EbnfErrorModel::LexError { input, offset } => DiagnosticsModel {
            message: "Tokenization error"@,
            labels: Seq::empty().push(
                (offset, bump(offset), "This was not recognised as the start of a valid token"@),
            ),
            notes: {
                let c = char_at_byte(input, offset as int, 0);
                if c == Some('\'') || c == Some('"') {
                    Seq::empty().push("Is this the beginning of an unclosed string?"@)
                } else {
                    Seq::empty()
                }
            },
        },
        EbnfErrorModel::ParseError { input, offset, reason } => match reason {
            // The guessed reason is optional; without one there is nothing to
            // label beyond the bare report.
            None => DiagnosticsModel {
                message: Seq::empty(),
                labels: Seq::empty(),
                notes: Seq::empty(),
            },
            Some(re) => DiagnosticsModel {
                message: Seq::empty(),
                labels: parse_labels(offset, re),
                notes: Seq::empty().push(
                    stack_note(
                        match re {
                            FailureReasonModel::ExhaustedInput(nodes) => nodes,
                            FailureReasonModel::TerminatorNotEndingRule(nodes) => nodes,
                        },
                    ),
                ),
            },
        },
    }
}

} // verus!

verus! {

broadcast use crate::expr::lemma_model_seq, crate::expr::lemma_model_seq_push;

/// The views of a sequence of labels, elementwise.
pub open spec fn label_model_seq(s: Seq<(usize, usize, String)>) -> Seq<(usize, usize, Seq<char>)>
    decreases s,
{
    if s.len() == 0 {
        Seq::empty()
    } else {
        label_model_seq(s.drop_last()).push((s.last().0, s.last().1, s.last().2@))
    }
}

/// The view sequence has the same length and holds each label's view.
pub broadcast proof fn lemma_label_model_seq(s: Seq<(usize, usize, String)>)
    ensures
        (#[trigger] label_model_seq(s)).len() == s.len(),
        forall|i: int|
            0 <= i < s.len() ==> label_model_seq(s)[i] == (s[i].0, s[i].1, s[i].2@),
    decreases s.len(),
{
    if s.len() > 0 {
        lemma_label_model_seq(s.drop_last());
    }
}

/// Pushing a label pushes its view.
pub broadcast proof fn lemma_label_model_seq_push(s: Seq<(usize, usize, String)>, e: (usize, usize, String))
    ensures
        #[trigger] label_model_seq(s.push(e)) == label_model_seq(s).push((e.0, e.1, e.2@)),
{
    assert(s.push(e).drop_last() =~= s);
    assert(s.push(e).last() == e);
}

/// What ariadne renders for a report over the input with the given message,
/// labels and notes, with color off and byte-indexed spans: a pure function
/// of these arguments.
pub uninterp spec fn report_text(
    input: Seq<char>,
    message: Seq<char>,
    labels: Seq<(usize, usize, Seq<char>)>,
    notes: Seq<Seq<char>>,
) -> Seq<char>;

/// Relies on ariadne's Report: builds an error report with the given message,
/// labels and notes over the input, color off and spans indexed by byte, and
/// writes it to text; with that fixed configuration the text is a function of
/// the arguments alone.
#[verifier::external_body]
fn ariadne_report(
    input: &str,
    message: &str,
    labels: &Vec<(usize, usize, String)>,
    notes: &Vec<String>,
) -> (r: String)
    requires
        forall|i: int|
            0 <= i < labels@.len() ==> (#[trigger] labels@[i]).0 <= labels@[i].1
                && labels@[i].1 as int <= crate::lexer::byte_of(input@, input@.len() as int)
                && is_boundary(input@, labels@[i].0 as int) && is_boundary(
                input@,
                labels@[i].1 as int,
            ),
    ensures
        r@ == report_text(
            input@,
            message@,
            label_model_seq(labels@),
            crate::rule::name_model_seq(notes@),
        ),
{
    let config = ariadne::Config::new().with_color(false).with_index_type(ariadne::IndexType::Byte);
    let mut b = ariadne::Report::build(ariadne::ReportKind::Error, 0..input.len()).with_config(config);
    if !message.is_empty() { b = b.with_message(message); }
    for (s, e, m) in labels.iter() { b = b.with_label(ariadne::Label::new(*s..*e).with_message(m)); }
    for n in notes.iter() { b = b.with_note(n); }
    let mut out: Vec<u8> = Vec::new();
    let _ = b.finish().write(ariadne::Source::from(input), &mut out);
    String::from_utf8(out).unwrap_or(String::new())
}

/// Whether a byte offset is a character boundary of the text: the byte
/// offset of some character position, the end included.
pub open spec fn is_boundary(s: Seq<char>, b: int) -> bool {
    exists|k: int| 0 <= k <= s.len() && b == crate::lexer::byte_of(s, k)
}

/// The largest character-boundary byte offset at or below `off`, walking from
/// character index `i`; callers start at zero with `off` non-negative.
pub open spec fn boundary_floor(s: Seq<char>, off: int, i: int) -> int
    decreases s.len() - i,
{
    if i < 0 || i >= s.len() {
        crate::lexer::byte_of(s, i)
    } else if crate::lexer::byte_of(s, i + 1) <= off {
        boundary_floor(s, off, i + 1)
    } else {
        crate::lexer::byte_of(s, i)
    }
}

/// The smallest character-boundary byte offset at or above `off`, capped at
/// the end of the text, walking from character index `i`.
pub open spec fn boundary_ceil(s: Seq<char>, off: int, i: int) -> int
    decreases s.len() - i,
{
    if i < 0 || i >= s.len() {
        crate::lexer::byte_of(s, i)
    } else if crate::lexer::byte_of(s, i) >= off {
        crate::lexer::byte_of(s, i)
    } else {
        boundary_ceil(s, off, i + 1)
    }
}

/// The floor walk lands on a boundary no further than `off` when `off` is
/// reachable.
pub proof fn lemma_boundary_floor(s: Seq<char>, off: int, i: int)
    requires
        0 <= i <= s.len(),
        crate::lexer::byte_of(s, i) <= off,
    ensures
        is_boundary(s, boundary_floor(s, off, i)),
        boundary_floor(s, off, i) <= off,
        boundary_floor(s, off, i) <= crate::lexer::byte_of(s, s.len() as int),
    decreases s.len() - i,
{
    crate::lexer::lemma_byte_of_monotone(s, i, s.len() as int);
    if i >= s.len() {
        assert(boundary_floor(s, off, i) == crate::lexer::byte_of(s, i));
    } else if crate::lexer::byte_of(s, i + 1) <= off {
        lemma_boundary_floor(s, off, i + 1);
    } else {
        assert(boundary_floor(s, off, i) == crate::lexer::byte_of(s, i));
    }
}

/// The ceiling walk lands on a boundary between `off` and the end of the
/// text, where `off` itself lies in range.
pub proof fn lemma_boundary_ceil(s: Seq<char>, off: int, i: int)
    requires
        0 <= i <= s.len(),
        off <= crate::lexer::byte_of(s, s.len() as int),
    ensures
        is_boundary(s, boundary_ceil(s, off, i)),
        boundary_ceil(s, off, i) <= crate::lexer::byte_of(s, s.len() as int),
        crate::lexer::byte_of(s, i) >= off ==> boundary_ceil(s, off, i) >= off,
    decreases s.len() - i,
{
    crate::lexer::lemma_byte_of_monotone(s, i, s.len() as int);
    if i >= s.len() {
        assert(boundary_ceil(s, off, i) == crate::lexer::byte_of(s, i));
    } else if crate::lexer::byte_of(s, i) >= off {
    } else {
        crate::lexer::lemma_byte_of_monotone(s, i, i + 1);
        lemma_boundary_ceil(s, off, i + 1);
    }
}

/// A label cut back to lie inside the input, run forwards, and sit on
/// character boundaries.
pub open spec fn clamp_label(l: (usize, usize, Seq<char>), input: Seq<char>) -> (
    usize,
    usize,
    Seq<char>,
) {
    let total = crate::lexer::byte_of(input, input.len() as int);
    let s1 = if l.0 as int > total {
        total
    } else {
        l.0 as int
    };
    let s = boundary_floor(input, s1, 0);
    let e1 = if l.1 as int > total {
        total
    } else {
        l.1 as int
    };
    let e2 = boundary_ceil(input, e1, 0);
    let e = if e2 < s {
        s
    } else {
        e2
    };
    (s as usize, e as usize, l.2)
}

/// Every label cut back to lie inside the input on character boundaries.
pub open spec fn clamp_labels(
    ls: Seq<(usize, usize, Seq<char>)>,
    input: Seq<char>,
) -> Seq<(usize, usize, Seq<char>)> {
    ls.map_values(|l: (usize, usize, Seq<char>)| clamp_label(l, input))
}

/// The full report text of an error: a plain sentence for empty input, and an
/// ariadne report over the carried input otherwise, with every label cut back
/// to lie inside the input.
pub open spec fn render_error(e: EbnfErrorModel) -> Seq<char> {
    match e {
        EbnfErrorModel::EmptyInput => "Input string was empty"@,
        EbnfErrorModel::LexError { input, .. } => {
            let d = diag_spec(e);
            report_text(input, d.message, clamp_labels(d.labels, input), d.notes)
        },
        EbnfErrorModel::ParseError { input, .. } => {
            let d = diag_spec(e);
            report_text(input, d.message, clamp_labels(d.labels, input), d.notes)
        },
    }
}

/// One more than the offset, capped at the largest representable value.
fn bump_exec(offset: usize) -> (r: usize)
    ensures
        r == bump(offset),
{
    if offset == usize::MAX {
        offset
    } else {
        offset + 1
    }
}

/// The character whose encoding starts at the given byte offset.
fn char_at_byte_exec(input: &str, off: usize) -> (r: Option<char>)
    ensures
        r == char_at_byte(input@, off as int, 0),
{
    let ghost s = input@;
    let n = input.unicode_len();
    let total = crate::lexer::str_byte_len(input);
    let mut i: usize = 0;
    let mut byte: usize = 0;
    while i < n
        invariant
            i <= n,
            n == s.len(),
            s == input@,
            total as int == crate::lexer::byte_of(s, s.len() as int),
            total <= usize::MAX / 2,
            byte as int == crate::lexer::byte_of(s, i as int),
            char_at_byte(s, off as int, 0) == char_at_byte(s, off as int, i as int),
        decreases n - i,
    {
        proof {
            broadcast use crate::lexer::lemma_pos_bounds;

            crate::lexer::lemma_byte_of_monotone(s, i as int + 1, s.len() as int);
        }
        let c = input.get_char(i);
        if byte == off {
            return Some(c);
        }
        if byte > off {
            return None;
        }
        let w = crate::lexer::char_utf8_len(c);
        byte = byte + w;
        i = i + 1;
    }
    None
}

/// A label for each stuck operator on the surviving stack, oldest first.
fn operator_labels_exec(nodes: &Vec<Expr>) -> (r: Vec<(usize, usize, String)>)
    ensures
        label_model_seq(r@) == operator_labels(model_seq(nodes@)),
{
    broadcast use lemma_label_model_seq, lemma_label_model_seq_push;

    let ghost m = model_seq(nodes@);
    let mut out: Vec<(usize, usize, String)> = Vec::new();
    proof {
        assert(label_model_seq(out@) =~= operator_labels(m.take(0)));
    }
    let mut k: usize = 0;
    while k < nodes.len()
        invariant
            k <= nodes@.len(),
            m == model_seq(nodes@),
            label_model_seq(out@) == operator_labels(m.take(k as int)),
        decreases nodes@.len() - k,
    {
        broadcast use lemma_label_model_seq, lemma_label_model_seq_push;

        proof {
            assert(m.take(k as int + 1).drop_last() =~= m.take(k as int));
            assert(m.take(k as int + 1).last() == nodes@[k as int].model());
        }
        match &nodes[k] {
            Expr::UnparsedOperator { span, op } => {
                let is_silent = match op {
                    crate::expr::Operator::Equals => true,
                    crate::expr::Operator::Terminator => true,
                    _ => false,
                };
                if !is_silent {
                    out.push((span.start, span.end, op_hint_exec(*op).to_owned()));
                }
            },
            _ => {},
        }
        k = k + 1;
    }
    proof {
        assert(m.take(nodes@.len() as int) =~= m);
    }
    out
}

/// Whether a synthetic terminator would have finished a rule on this stack.
fn missing_terminator_exec(nodes: &Vec<Expr>) -> (r: bool)
    ensures
        r == missing_terminator(model_seq(nodes@)),
{
    let ghost m = model_seq(nodes@);
    let mut stack = crate::parser::LrStack::new();
    let mut k: usize = 0;
    proof {
        assert(stack@ =~= m.take(0));
    }
    while k < nodes.len()
        invariant
            k <= nodes@.len(),
            m == model_seq(nodes@),
            stack@ == m.take(k as int),
        decreases nodes@.len() - k,
    {
        proof {
            assert(m.take(k as int + 1).drop_last() =~= m.take(k as int));
            assert(m.take(k as int + 1).last() == nodes@[k as int].model());
            assert(m.take(k as int + 1) =~= m.take(k as int).push(nodes@[k as int].model()));
        }
        stack.push_node(nodes[k].duplicate());
        k = k + 1;
    }
    proof {
        assert(m.take(nodes@.len() as int) =~= m);
    }
    let sp = if nodes.len() == 0 {
        crate::span::Span::dummy()
    } else {
        crate::simplification::union_of_spans(nodes, crate::span::Span::dummy())
    };
    stack.push_node(
        Expr::UnparsedOperator { span: sp, op: crate::expr::Operator::Terminator },
    );
    stack.reduce_until_shift_needed();
    match stack.pop_node() {
        Some(e) => match e {
            Expr::Rule { .. } => true,
            _ => false,
        },
        None => false,
    }
}

/// The note that prints the surviving stack, most recent on top.
fn stack_note_exec(nodes: &Vec<Expr>) -> (r: String)
    ensures
        r@ == stack_note(model_seq(nodes@)),
{
    let ghost m = model_seq(nodes@);
    let mut out = "The parse stack looked like this (most recent on top):\n".to_owned();
    let n = nodes.len();
    let mut i: usize = 0;
    while i < n
        invariant
            i <= n,
            n == nodes@.len(),
            m == model_seq(nodes@),
            out@ + stack_lines(m, i as int) == stack_note(m),
        decreases n - i,
    {
        let ghost before = out@;
        let node = &nodes[n - 1 - i];
        let idx_text = usize_to_string(i);
        out.append(idx_text.as_str());
        out.append(": ");
        out.append(kind_name_exec(node));
        out.append(" ");
        let sp_text = span_text_exec(node.span());
        out.append(sp_text.as_str());
        out.append("\n");
        proof {
            let nm = m[n - 1 - i as int];
            assert(nm == nodes@[n - 1 - i as int].model());
            let line = dec_digits(i as int) + ": "@ + kind_name(nm) + " "@ + span_text(
                nm.spec_span(),
            ) + "\n"@;
            assert(out@ =~= before + line);
            assert(stack_lines(m, i as int) == line + stack_lines(m, i as int + 1));
            assert(out@ + stack_lines(m, i as int + 1) =~= before + stack_lines(m, i as int));
        }
        i = i + 1;
    }
    proof {
        assert(stack_lines(m, n as int) =~= Seq::<char>::empty());
        assert(out@ + stack_lines(m, n as int) =~= out@);
    }
    out
}

/// The largest character-boundary byte offset at or below `off`.
fn boundary_floor_exec(input: &str, off: usize) -> (r: usize)
    ensures
        r as int == boundary_floor(input@, off as int, 0),
{
    let ghost s = input@;
    let n = input.unicode_len();
    let total = crate::lexer::str_byte_len(input);
    let mut i: usize = 0;
    let mut b: usize = 0;
    while i < n
        invariant
            i <= n,
            n == s.len(),
            s == input@,
            total as int == crate::lexer::byte_of(s, s.len() as int),
            total <= usize::MAX / 2,
            b as int == crate::lexer::byte_of(s, i as int),
            boundary_floor(s, off as int, 0) == boundary_floor(s, off as int, i as int),
        decreases n - i,
    {
        proof {
            broadcast use crate::lexer::lemma_pos_bounds;

            crate::lexer::lemma_byte_of_monotone(s, i as int + 1, s.len() as int);
        }
        let w = crate::lexer::char_utf8_len(input.get_char(i));
        if b + w <= off {
            b = b + w;
            i = i + 1;
        } else {
            return b;
        }
    }
    b
}

/// The smallest character-boundary byte offset at or above `off`, capped at
/// the end of the text.
fn boundary_ceil_exec(input: &str, off: usize) -> (r: usize)
    ensures
        r as int == boundary_ceil(input@, off as int, 0),
{
    let ghost s = input@;
    let n = input.unicode_len();
    let total = crate::lexer::str_byte_len(input);
    let mut i: usize = 0;
    let mut b: usize = 0;
    while i < n
        invariant
            i <= n,
            n == s.len(),
            s == input@,
            total as int == crate::lexer::byte_of(s, s.len() as int),
            total <= usize::MAX / 2,
            b as int == crate::lexer::byte_of(s, i as int),
            boundary_ceil(s, off as int, 0) == boundary_ceil(s, off as int, i as int),
        decreases n - i,
    {
        proof {
            broadcast use crate::lexer::lemma_pos_bounds;

            crate::lexer::lemma_byte_of_monotone(s, i as int + 1, s.len() as int);
        }
        if b >= off {
            return b;
        }
        let w = crate::lexer::char_utf8_len(input.get_char(i));
        b = b + w;
        i = i + 1;
    }
    b
}

/// Every label cut back to lie inside the input on character boundaries.
fn clamp_labels_exec(labels: &Vec<(usize, usize, String)>, input: &str) -> (r: Vec<
    (usize, usize, String),
>)
    ensures
        label_model_seq(r@) == clamp_labels(label_model_seq(labels@), input@),
        forall|i: int|
            0 <= i < r@.len() ==> (#[trigger] r@[i]).0 <= r@[i].1 && r@[i].1 as int
                <= crate::lexer::byte_of(input@, input@.len() as int) && is_boundary(
                input@,
                r@[i].0 as int,
            ) && is_boundary(input@, r@[i].1 as int),
{
    broadcast use lemma_label_model_seq, lemma_label_model_seq_push;

    let ghost sv = input@;
    let ghost lm = label_model_seq(labels@);
    let total = crate::lexer::str_byte_len(input);
    let mut out: Vec<(usize, usize, String)> = Vec::new();
    let mut k: usize = 0;
    proof {
        assert(label_model_seq(out@) =~= clamp_labels(lm, sv).take(0));
    }
    let n = labels.len();
    while k < n
        invariant
            k <= n,
            n == labels@.len(),
            sv == input@,
            lm == label_model_seq(labels@),
            total as int == crate::lexer::byte_of(sv, sv.len() as int),
            total <= usize::MAX / 2,
            label_model_seq(out@) == clamp_labels(lm, sv).take(k as int),
            forall|i: int|
                0 <= i < out@.len() ==> (#[trigger] out@[i]).0 <= out@[i].1 && out@[i].1 as int
                    <= crate::lexer::byte_of(sv, sv.len() as int) && is_boundary(
                    sv,
                    out@[i].0 as int,
                ) && is_boundary(sv, out@[i].1 as int),
        decreases n - k,
    {
        broadcast use lemma_label_model_seq, lemma_label_model_seq_push;

        let s1 = if labels[k].0 > total {
            total
        } else {
            labels[k].0
        };
        let s0 = boundary_floor_exec(input, s1);
        let e1 = if labels[k].1 > total {
            total
        } else {
            labels[k].1
        };
        let e2 = boundary_ceil_exec(input, e1);
        let e0 = if e2 < s0 {
            s0
        } else {
            e2
        };
        proof {
            lemma_boundary_floor(sv, s1 as int, 0);
            lemma_boundary_ceil(sv, e1 as int, 0);
        }
        let text = labels[k].2.clone();
        let ghost obefore = out@;
        out.push((s0, e0, text));
        proof {
            assert(clamp_labels(lm, sv)[k as int] == clamp_label(lm[k as int], sv));
            assert(clamp_labels(lm, sv).take(k as int + 1) =~= clamp_labels(lm, sv).take(
                k as int,
            ).push(clamp_labels(lm, sv)[k as int]));
            assert(label_model_seq(out@) =~= label_model_seq(obefore).push(
                (out@.last().0, out@.last().1, out@.last().2@),
            ));
        }
        k = k + 1;
    }
    proof {
        assert(clamp_labels(lm, sv).take(n as int) =~= clamp_labels(lm, sv));
    }
    out
}

} // verus!

verus! {

/// The report of a tokenization error.
fn render_lex_error(input: &str, offset: usize) -> (r: String)
    ensures
        r@ == render_error(EbnfErrorModel::LexError { input: input@, offset }),
{
    broadcast use lemma_label_model_seq, lemma_label_model_seq_push, crate::rule::lemma_name_model_seq, crate::rule::lemma_name_model_seq_push;

    let ghost me = EbnfErrorModel::LexError { input: input@, offset };
    let mut labels: Vec<(usize, usize, String)> = Vec::new();
    labels.push(
        (
            offset,
            bump_exec(offset),
            "This was not recognised as the start of a valid token".to_owned(),
        ),
    );
    let mut notes: Vec<String> = Vec::new();
    let c = char_at_byte_exec(input, offset);
    let is_quote = match c {
        Some(ch) => ch == '\'' || ch == '"',
        None => false,
    };
    if is_quote {
        notes.push("Is this the beginning of an unclosed string?".to_owned());
    }
    let clamped = clamp_labels_exec(&labels, input);
    proof {
        assert(labels@.drop_last() =~= Seq::<(usize, usize, String)>::empty());
        assert(label_model_seq(labels@) =~= diag_spec(me).labels);
        if is_quote {
            assert(notes@.drop_last() =~= Seq::<String>::empty());
        }
        assert(crate::rule::name_model_seq(notes@) =~= diag_spec(me).notes);
    }
    ariadne_report(input, "Tokenization error", &clamped, &notes)
}

/// The labels of a parse error, in report order.
fn parse_labels_exec(offset: usize, reason: &FailureReason) -> (r: Vec<(usize, usize, String)>)
    ensures
        label_model_seq(r@) == parse_labels(offset, reason@),
{
    broadcast use lemma_label_model_seq, lemma_label_model_seq_push;

    let nodes: &Vec<Expr> = match reason {
        FailureReason::TerminatorNotEndingRule(ns) => ns,
        FailureReason::ExhaustedInput(ns) => ns,
    };
    let mut labels = operator_labels_exec(nodes);
    let is_exhausted = match reason {
        FailureReason::ExhaustedInput(..) => true,
        _ => false,
    };
    if is_exhausted {
        if missing_terminator_exec(nodes) {
            labels.push((offset, offset, "Missing semicolon here".to_owned()));
        } else {
            let mut text = "Unexpected end of input at index ".to_owned();
            let dec = usize_to_string(offset);
            text.append(dec.as_str());
            labels.push((offset, offset, text));
        }
    } else {
        let ghost m = model_seq(nodes@);
        let mut p: usize = 0;
        let mut found = false;
        while p < nodes.len() && !found
            invariant
                p <= nodes@.len(),
                m == model_seq(nodes@),
                found ==> p < nodes@.len() && is_equals_node(m[p as int]),
                forall|k: int| 0 <= k < p ==> !is_equals_node(#[trigger] m[k]),
            decreases nodes@.len() - p + (if found {
                0int
            } else {
                1int
            }),
        {
            let is_eq = match &nodes[p] {
                Expr::UnparsedOperator { op: crate::expr::Operator::Equals, .. } => true,
                _ => false,
            };
            if is_eq {
                found = true;
            } else {
                p = p + 1;
            }
        }
        proof {
            lemma_equals_pos(m);
            if found {
                let ep = equals_pos(m);
                if ep == -1 {
                    assert(!is_equals_node(m[p as int]));
                }
                if 0 <= ep < p as int {
                    assert(!is_equals_node(m[ep]));
                }
                if ep > p as int {
                    assert(!is_equals_node(m[p as int]));
                }
                assert(ep == p as int);
            } else {
                if equals_pos(m) != -1 {
                    assert(!is_equals_node(m[equals_pos(m)]));
                }
                assert(equals_pos(m) == -1);
            }
        }
        if found && p >= 1 {
            let before_eq = &nodes[p - 1];
            let is_nonterminal = match before_eq {
                Expr::Nonterminal { .. } => true,
                _ => false,
            };
            if !is_nonterminal {
                let sp = before_eq.span();
                let mut text = "Expected identifier, found ".to_owned();
                text.append(kind_name_exec(before_eq));
                labels.push((sp.start, sp.end, text));
            }
        }
        labels.push(
            (offset, bump_exec(offset), "Rule ending here did not parse successfully".to_owned()),
        );
    }
    labels
}

/// The report of a parse error.
fn render_parse_error(input: &str, offset: usize, reason: &Option<FailureReason>) -> (r: String)
    ensures
        r@ == render_error(
            EbnfErrorModel::ParseError {
                input: input@,
                offset,
                reason: match reason {
                    Some(re) => Some(re@),
                    None => None,
                },
            },
        ),
{
    broadcast use lemma_label_model_seq, lemma_label_model_seq_push, crate::rule::lemma_name_model_seq, crate::rule::lemma_name_model_seq_push;

    match reason {
        None => {
            let ghost me = EbnfErrorModel::ParseError { input: input@, offset, reason: None };
            let labels: Vec<(usize, usize, String)> = Vec::new();
            let notes: Vec<String> = Vec::new();
            proof {
                reveal_strlit("");
                assert(""@ =~= Seq::<char>::empty());
                assert(label_model_seq(labels@) =~= diag_spec(me).labels);
                assert(crate::rule::name_model_seq(notes@) =~= diag_spec(me).notes);
                assert(clamp_labels(diag_spec(me).labels, input@) =~= diag_spec(me).labels);
            }
            ariadne_report(input, "", &labels, &notes)
        },
        Some(re) => {
            let ghost me = EbnfErrorModel::ParseError {
                input: input@,
                offset,
                reason: Some(re@),
            };
            let nodes: &Vec<Expr> = match re {
                FailureReason::TerminatorNotEndingRule(ns) => ns,
                FailureReason::ExhaustedInput(ns) => ns,
            };
            let labels = parse_labels_exec(offset, re);
            let note = stack_note_exec(nodes);
            let mut notes: Vec<String> = Vec::new();
            notes.push(note);
            let clamped = clamp_labels_exec(&labels, input);
            proof {
                reveal_strlit("");
                assert(""@ =~= Seq::<char>::empty());
                assert(label_model_seq(labels@) =~= diag_spec(me).labels);
                assert(notes@.drop_last() =~= Seq::<String>::empty());
                assert(crate::rule::name_model_seq(notes@) =~= diag_spec(me).notes);
            }
            ariadne_report(input, "", &clamped, &notes)
        },
    }
}

impl EbnfError {
    /// A human-readable report of what went wrong, with the offending source
    /// ranges labelled: a tokenization error points at the unrecognized
    /// character, and a parse error carries a hint for every stuck operator
    /// and prints the surviving parse stack as a note.
    pub fn render(&self) -> (r: String)
        ensures
            r@ == render_error(self@),
    {
        match self {
            EbnfError::EmptyInput => "Input string was empty".to_owned(),
            EbnfError::LexError { input, offset } => render_lex_error(input.as_str(), *offset),
            EbnfError::ParseError { input, offset, reason } => render_parse_error(
                input.as_str(),
                *offset,
                reason,
            ),
        }
    }
}

} // verus!
