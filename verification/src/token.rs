//! Spanned tokens produced by the lexer.

use crate::span::Span;
use vstd::prelude::*;

verus! {

/// The payload of a lexed token: which kind of token it is, together with the
/// borrowed source text for identifiers, string literals and regexes.
#[derive(Debug, Clone)]
pub enum TokenPayload {
    /// A run of Unicode letters, digits and underscores.
    Identifier(String),
    /// A quoted string literal; the payload is the content between the quotes,
    /// escape sequences kept verbatim.
    Literal(String),
    /// A `#`-prefixed quoted regular expression; the payload is the content
    /// between the quotes.
    Regex(String),
    /// `=` or `::=`.
    Equals,
    /// `;`.
    Termination,
    /// `|` or `/`.
    Alternation,
    /// `?`.
    Optional,
    /// `*`.
    Kleene,
    /// `+`.
    Repeat,
    /// `(`.
    OpeningGroup,
    /// `)`.
    ClosingGroup,
    /// `[`.
    OpeningSquare,
    /// `]`.
    ClosingSquare,
    /// `{`.
    OpeningBrace,
    /// `}`.
    ClosingBrace,
}

/// The mathematical value of a [`TokenPayload`]: the same tag, with text as a
/// sequence of characters.
pub ghost enum TokenPayloadModel {
    /// Model of [`TokenPayload::Identifier`].
    Identifier(Seq<char>),
    /// Model of [`TokenPayload::Literal`].
    Literal(Seq<char>),
    /// Model of [`TokenPayload::Regex`].
    Regex(Seq<char>),
    /// Model of [`TokenPayload::Equals`].
    Equals,
    /// Model of [`TokenPayload::Termination`].
    Termination,
    /// Model of [`TokenPayload::Alternation`].
    Alternation,
    /// Model of [`TokenPayload::Optional`].
    Optional,
    /// Model of [`TokenPayload::Kleene`].
    Kleene,
    /// Model of [`TokenPayload::Repeat`].
    Repeat,
    /// Model of [`TokenPayload::OpeningGroup`].
    OpeningGroup,
    /// Model of [`TokenPayload::ClosingGroup`].
    ClosingGroup,
    /// Model of [`TokenPayload::OpeningSquare`].
    OpeningSquare,
    /// Model of [`TokenPayload::ClosingSquare`].
    ClosingSquare,
    /// Model of [`TokenPayload::OpeningBrace`].
    OpeningBrace,
    /// Model of [`TokenPayload::ClosingBrace`].
    ClosingBrace,
}

impl View for TokenPayload {
    type V = TokenPayloadModel;

    open spec fn view(&self) -> TokenPayloadModel {
        match self {
            TokenPayload::Identifier(s) => TokenPayloadModel::Identifier(s@),
            TokenPayload::Literal(s) => TokenPayloadModel::Literal(s@),
            TokenPayload::Regex(s) => TokenPayloadModel::Regex(s@),
            TokenPayload::Equals => TokenPayloadModel::Equals,
            TokenPayload::Termination => TokenPayloadModel::Termination,
            TokenPayload::Alternation => TokenPayloadModel::Alternation,
            TokenPayload::Optional => TokenPayloadModel::Optional,
            TokenPayload::Kleene => TokenPayloadModel::Kleene,
            TokenPayload::Repeat => TokenPayloadModel::Repeat,
            TokenPayload::OpeningGroup => TokenPayloadModel::OpeningGroup,
            TokenPayload::ClosingGroup => TokenPayloadModel::ClosingGroup,
            TokenPayload::OpeningSquare => TokenPayloadModel::OpeningSquare,
            TokenPayload::ClosingSquare => TokenPayloadModel::ClosingSquare,
            TokenPayload::OpeningBrace => TokenPayloadModel::OpeningBrace,
            TokenPayload::ClosingBrace => TokenPayloadModel::ClosingBrace,
        }
    }
}

/// A lexed token: a payload together with the span of source text it covers.
#[derive(Debug, Clone)]
pub struct Token {
    /// The run of source text this token covers.
    pub span: Span,
    /// What was lexed.
    pub payload: TokenPayload,
}

/// The mathematical value of a [`Token`].
pub ghost struct TokenModel {
    /// The run of source text the token covers.
    pub span: Span,
    /// The model of the payload.
    pub payload: TokenPayloadModel,
}

impl View for Token {
    type V = TokenModel;

    open spec fn view(&self) -> TokenModel {
        TokenModel { span: self.span, payload: self.payload@ }
    }
}

impl Token {
    /// Builds an identical copy of this token.
    pub fn duplicate(&self) -> (r: Token)
        ensures
            r@ == self@,
    {
        let payload = match &self.payload {
            TokenPayload::Identifier(s) => TokenPayload::Identifier(s.clone()),
            TokenPayload::Literal(s) => TokenPayload::Literal(s.clone()),
            TokenPayload::Regex(s) => TokenPayload::Regex(s.clone()),
            TokenPayload::Equals => TokenPayload::Equals,
            TokenPayload::Termination => TokenPayload::Termination,
            TokenPayload::Alternation => TokenPayload::Alternation,
            TokenPayload::Optional => TokenPayload::Optional,
            TokenPayload::Kleene => TokenPayload::Kleene,
            TokenPayload::Repeat => TokenPayload::Repeat,
            TokenPayload::OpeningGroup => TokenPayload::OpeningGroup,
            TokenPayload::ClosingGroup => TokenPayload::ClosingGroup,
            TokenPayload::OpeningSquare => TokenPayload::OpeningSquare,
            TokenPayload::ClosingSquare => TokenPayload::ClosingSquare,
            TokenPayload::OpeningBrace => TokenPayload::OpeningBrace,
            TokenPayload::ClosingBrace => TokenPayload::ClosingBrace,
        };
        Token { span: self.span, payload }
    }
}

impl TokenModel {
    /// Whether this token is the rule terminator `;`.
    pub open spec fn is_termination(self) -> bool {
        self.payload is Termination
    }
}

} // verus!
