//! Byte offsets and line:column coordinates for a run of source text, with a
//! union operator that joins two runs into the smallest run covering both.

use vstd::prelude::*;

verus! {

/// A position in the source text as a line:column pair.
/// Lines are 1-based; the column is the byte offset from the start of the line.
#[derive(Clone, Copy, Debug, PartialEq, Eq, Structural)]
pub struct LineCol {
    /// 1-based line number.
    pub line: usize,
    /// Byte offset from the character right after the last newline.
    pub col: usize,
}

/// A half-open range `start..end` of byte offsets in the source text,
/// together with the line:column coordinates of both ends.
#[derive(Clone, Copy, Debug, PartialEq, Eq, Structural)]
pub struct Span {
    /// Byte offset of the first byte covered.
    pub start: usize,
    /// Byte offset one past the last byte covered.
    pub end: usize,
    /// Line and column of `start`.
    pub line_offset_start: LineCol,
    /// Line and column of `end`.
    pub line_offset_end: LineCol,
}

impl Span {
    /// Orders the start of `a` strictly before the start of `b`: byte offset
    /// first, then line, then column.
    pub open spec fn start_lt(a: Span, b: Span) -> bool {
        a.start < b.start || (a.start == b.start && (a.line_offset_start.line
            < b.line_offset_start.line || (a.line_offset_start.line == b.line_offset_start.line
            && a.line_offset_start.col < b.line_offset_start.col)))
    }

    /// Orders the end of `a` strictly after the end of `b`: byte offset first,
    /// then line, then column.
    pub open spec fn end_gt(a: Span, b: Span) -> bool {
        a.end > b.end || (a.end == b.end && (a.line_offset_end.line > b.line_offset_end.line || (
        a.line_offset_end.line == b.line_offset_end.line && a.line_offset_end.col
            > b.line_offset_end.col)))
    }

    /// The union of two spans: it takes the start (with its line:column) from
    /// the span that starts first and the end (with its line:column) from the
    /// span that ends last.
    pub open spec fn spec_union(a: Span, b: Span) -> Span {
        let lo = if Span::start_lt(b, a) {
            b
        } else {
            a
        };
        let hi = if Span::end_gt(b, a) {
            b
        } else {
            a
        };
        Span {
            start: lo.start,
            end: hi.end,
            line_offset_start: lo.line_offset_start,
            line_offset_end: hi.line_offset_end,
        }
    }

    /// The union of a non-empty sequence of spans, folded from the left.
    pub open spec fn spec_union_seq(spans: Seq<Span>) -> Span
        recommends
            spans.len() > 0,
        decreases spans.len(),
    {
        if spans.len() <= 1 {
            spans[0]
        } else {
            Span::spec_union(Span::spec_union_seq(spans.drop_last()), spans.last())
        }
    }

    /// A sentinel span for synthetic nodes that do not come from source text.
    pub fn dummy() -> (r: Span)
        ensures
            r == Span::spec_dummy(),
    {
        Span {
            start: 0,
            end: 0,
            line_offset_start: LineCol { line: 0, col: 0 },
            line_offset_end: LineCol { line: 0, col: 0 },
        }
    }

    /// The value returned by [`Span::dummy`].
    pub open spec fn spec_dummy() -> Span {
        Span {
            start: 0,
            end: 0,
            line_offset_start: LineCol { line: 0, col: 0 },
            line_offset_end: LineCol { line: 0, col: 0 },
        }
    }

    /// Joins `self` with `other`, returning the span with the smaller start
    /// and the larger end.
    pub fn union(self, other: Span) -> (r: Span)
        ensures
            r == Span::spec_union(self, other),
    {
        let a = self;
        let b = other;
        let b_starts_first = b.start < a.start || (b.start == a.start
            && (b.line_offset_start.line < a.line_offset_start.line
            || (b.line_offset_start.line == a.line_offset_start.line
            && b.line_offset_start.col < a.line_offset_start.col)));
        let b_ends_last = b.end > a.end || (b.end == a.end
            && (b.line_offset_end.line > a.line_offset_end.line
            || (b.line_offset_end.line == a.line_offset_end.line
            && b.line_offset_end.col > a.line_offset_end.col)));
        let lo = if b_starts_first {
            b
        } else {
            a
        };
        let hi = if b_ends_last {
            b
        } else {
            a
        };
        Span {
            start: lo.start,
            end: hi.end,
            line_offset_start: lo.line_offset_start,
            line_offset_end: hi.line_offset_end,
        }
    }
}

/// The union of spans is commutative.
pub proof fn lemma_span_union_commutative(a: Span, b: Span)
    ensures
        Span::spec_union(a, b) == Span::spec_union(b, a),
{
}

/// The union of spans is associative.
pub proof fn lemma_span_union_associative(a: Span, b: Span, c: Span)
    ensures
        Span::spec_union(Span::spec_union(a, b), c) == Span::spec_union(
            a,
            Span::spec_union(b, c),
        ),
{
}

/// The union of a span with itself is that span.
pub proof fn lemma_span_union_idempotent(a: Span)
    ensures
        Span::spec_union(a, a) == a,
{
}

} // verus!
