//! The lexer: maps UTF-8 source text to a sequence of spanned tokens, or a
//! lex error naming the byte offset of the first unrecognized character.
//!
//! Whitespace, commas and `//` line comments are skipped. Spans carry byte
//! offsets and line:column coordinates, where the column is the byte offset
//! from the last newline.

use crate::error::EbnfError;
use crate::error::EbnfErrorModel;
use crate::span::LineCol;
use crate::span::Span;
use crate::token::Token;
use crate::token::TokenModel;
use crate::token::TokenPayload;
use crate::token::TokenPayloadModel;
use vstd::prelude::*;

verus! {

/// Whether a character counts as a Unicode letter or digit; the value of
/// `char::is_alphanumeric` on it.
pub uninterp spec fn unicode_alphanumeric(c: char) -> bool;

/// Whether a character is Unicode whitespace; the value of
/// `char::is_whitespace` on it.
pub uninterp spec fn unicode_whitespace(c: char) -> bool;

/// Relies on char::is_alphanumeric: true exactly on Unicode letters and
/// digits; within ASCII these are `a`-`z`, `A`-`Z` and `0`-`9`.
#[verifier::external_body]
fn char_is_alphanumeric(c: char) -> (r: bool)
    ensures
        r == unicode_alphanumeric(c),
        (c as u32) < 128 ==> r == (('a' <= c && c <= 'z') || ('A' <= c && c <= 'Z') || ('0' <= c
            && c <= '9')),
{
    c.is_alphanumeric()
}

/// Relies on char::is_whitespace: true exactly on characters with the
/// White_Space property; within ASCII these are space and the controls
/// U+0009 through U+000D.
#[verifier::external_body]
fn char_is_whitespace(c: char) -> (r: bool)
    ensures
        r == unicode_whitespace(c),
        (c as u32) < 128 ==> r == (c == ' ' || ('\u{09}' <= c && c <= '\u{0D}')),
{
    c.is_whitespace()
}

/// Whether a character may appear in an identifier: a Unicode letter or digit,
/// or an underscore.
pub open spec fn is_word_char(c: char) -> bool {
    unicode_alphanumeric(c) || c == '_'
}

/// Whether the lexer skips a character without producing a token: Unicode
/// whitespace, or a comma.
pub open spec fn is_skippable(c: char) -> bool {
    unicode_whitespace(c) || c == ','
}

/// The width in bytes of a character in UTF-8.
pub open spec fn utf8_len(c: char) -> int {
    if (c as u32) < 0x80 {
        1
    } else if (c as u32) < 0x800 {
        2
    } else if (c as u32) < 0x10000 {
        3
    } else {
        4
    }
}

/// The width in bytes of a character in UTF-8.
pub fn char_utf8_len(c: char) -> (r: usize)
    ensures
        r as int == utf8_len(c),
{
    let u = c as u32;
    if u < 0x80 {
        1
    } else if u < 0x800 {
        2
    } else if u < 0x10000 {
        3
    } else {
        4
    }
}

/// The byte offset of the character at index `i`: the summed UTF-8 widths of
/// the characters before it.
pub open spec fn byte_of(s: Seq<char>, i: int) -> int
    decreases i,
{
    if i <= 0 {
        0
    } else {
        byte_of(s, i - 1) + utf8_len(s[i - 1])
    }
}

/// The 1-based line number of the character at index `i`.
pub open spec fn line_of(s: Seq<char>, i: int) -> int
    decreases i,
{
    if i <= 0 {
        1
    } else {
        line_of(s, i - 1) + if s[i - 1] == '\n' {
            1int
        } else {
            0int
        }
    }
}

/// The byte offset just after the last newline strictly before index `i`, or
/// zero if there is none: the base that columns are measured from.
pub open spec fn nl_base_of(s: Seq<char>, i: int) -> int
    decreases i,
{
    if i <= 0 {
        0
    } else if s[i - 1] == '\n' {
        byte_of(s, i)
    } else {
        nl_base_of(s, i - 1)
    }
}

/// Byte offsets grow by between one and four bytes per character, never pass
/// the newline base, and bound the line count.
pub broadcast proof fn lemma_pos_bounds(s: Seq<char>, i: int)
    requires
        0 <= i,
    ensures
        i <= #[trigger] byte_of(s, i) <= 4 * i,
        0 <= nl_base_of(s, i) <= byte_of(s, i),
        1 <= line_of(s, i) <= 1 + byte_of(s, i),
    decreases i,
{
    if i > 0 {
        lemma_pos_bounds(s, i - 1);
    }
}

/// Byte offsets are monotone in the position.
pub proof fn lemma_byte_of_monotone(s: Seq<char>, i: int, j: int)
    requires
        0 <= i <= j,
    ensures
        byte_of(s, i) <= byte_of(s, j),
        i < j ==> byte_of(s, i) < byte_of(s, j),
    decreases j,
{
    if i < j {
        lemma_byte_of_monotone(s, i, j - 1);
        broadcast use lemma_pos_bounds;

    }
}

/// The line:column coordinates of the character position `i`.
pub open spec fn linecol_at(s: Seq<char>, i: int) -> LineCol {
    LineCol { line: line_of(s, i) as usize, col: (byte_of(s, i) - nl_base_of(s, i)) as usize }
}

/// The span of the run of characters from index `i` to index `j`.
pub open spec fn span_at(s: Seq<char>, i: int, j: int) -> Span {
    Span {
        start: byte_of(s, i) as usize,
        end: byte_of(s, j) as usize,
        line_offset_start: linecol_at(s, i),
        line_offset_end: linecol_at(s, j),
    }
}

/// The end of the identifier whose characters start at index `i`: the first
/// index at or after `i` holding no word character.
pub open spec fn ident_end(s: Seq<char>, i: int) -> int
    decreases s.len() - i,
{
    if i < 0 || i >= s.len() || !is_word_char(s[i]) {
        i
    } else {
        ident_end(s, i + 1)
    }
}

/// The end of a `//` comment whose text starts at index `i`: the index of the
/// next newline, or the end of the input.
pub open spec fn comment_end(s: Seq<char>, i: int) -> int
    decreases s.len() - i,
{
    if i < 0 || i >= s.len() || s[i] == '\n' {
        i
    } else {
        comment_end(s, i + 1)
    }
}

/// The index of the quote closing a string literal whose content starts at
/// index `i`, consuming `\` together with the character after it; `None` if a
/// newline or the end of the input comes first.
pub open spec fn literal_end(s: Seq<char>, i: int, quote: char) -> Option<int>
    decreases s.len() - i,
{
    if i < 0 || i >= s.len() || s[i] == '\n' {
        None
    } else if s[i] == quote {
        Some(i)
    } else if s[i] == '\\' {
        if i + 1 < s.len() {
            literal_end(s, i + 2, quote)
        } else {
            None
        }
    } else {
        literal_end(s, i + 1, quote)
    }
}

/// The index of the quote closing a regex whose content starts at index `i`;
/// no escape processing happens; `None` if a newline or the end of the input
/// comes first.
pub open spec fn regex_end(s: Seq<char>, i: int, quote: char) -> Option<int>
    decreases s.len() - i,
{
    if i < 0 || i >= s.len() || s[i] == '\n' {
        None
    } else if s[i] == quote {
        Some(i)
    } else {
        regex_end(s, i + 1, quote)
    }
}

/// The identifier end lies between `i` and the end of the input, and past `i`
/// when a word character stands at `i`.
pub proof fn lemma_ident_end_bounds(s: Seq<char>, i: int)
    requires
        0 <= i <= s.len(),
    ensures
        i <= ident_end(s, i) <= s.len(),
        i < s.len() && is_word_char(s[i]) ==> i + 1 <= ident_end(s, i),
    decreases s.len() - i,
{
    if i < s.len() && is_word_char(s[i]) {
        lemma_ident_end_bounds(s, i + 1);
    }
}

/// The comment end lies between `i` and the end of the input.
pub proof fn lemma_comment_end_bounds(s: Seq<char>, i: int)
    requires
        0 <= i <= s.len(),
    ensures
        i <= comment_end(s, i) <= s.len(),
    decreases s.len() - i,
{
    if i < s.len() && s[i] != '\n' {
        lemma_comment_end_bounds(s, i + 1);
    }
}

/// A found closing quote lies between `i` and the end of the input.
pub proof fn lemma_literal_end_bounds(s: Seq<char>, i: int, quote: char)
    requires
        0 <= i,
    ensures
        literal_end(s, i, quote) matches Some(j) ==> i <= j < s.len(),
    decreases s.len() - i,
{
    if i < s.len() && s[i] != '\n' && s[i] != quote {
        if s[i] == '\\' {
            if i + 1 < s.len() {
                lemma_literal_end_bounds(s, i + 2, quote);
            }
        } else {
            lemma_literal_end_bounds(s, i + 1, quote);
        }
    }
}

/// A found closing quote lies between `i` and the end of the input.
pub proof fn lemma_regex_end_bounds(s: Seq<char>, i: int, quote: char)
    requires
        0 <= i,
    ensures
        regex_end(s, i, quote) matches Some(j) ==> i <= j < s.len(),
    decreases s.len() - i,
{
    if i < s.len() && s[i] != '\n' && s[i] != quote {
        lemma_regex_end_bounds(s, i + 1, quote);
    }
}

/// One step of the lexer at character index `i`.
pub ghost enum LexStep {
    /// The character starts no token; scanning resumes at `next`.
    Skip { next: int },
    /// A token with the given payload covers the characters `i..end`.
    Tok { payload: TokenPayloadModel, end: int },
    /// No rule matches at `i`; `offset` is the byte offset to report.
    Fail { offset: usize },
}

/// Which token, skip or failure the lexer finds at character index `i`.
pub open spec fn lex_step(s: Seq<char>, i: int) -> LexStep
    recommends
        0 <= i < s.len(),
{
    let c = s[i];
    if c == '\'' || c == '"' {
        match literal_end(s, i + 1, c) {
            Some(j) => LexStep::Tok {
                payload: TokenPayloadModel::Literal(s.subrange(i + 1, j)),
                end: j + 1,
            },
            None => LexStep::Fail { offset: byte_of(s, i) as usize },
        }
    } else if c == '#' {
        if i + 1 < s.len() && (s[i + 1] == '\'' || s[i + 1] == '"') {
            match regex_end(s, i + 2, s[i + 1]) {
                Some(j) => LexStep::Tok {
                    payload: TokenPayloadModel::Regex(s.subrange(i + 2, j)),
                    end: j + 1,
                },
                None => LexStep::Fail { offset: byte_of(s, i + 1) as usize },
            }
        } else {
            LexStep::Fail { offset: byte_of(s, i) as usize }
        }
    } else if c == '/' {
        if i + 1 < s.len() && s[i + 1] == '/' {
            LexStep::Skip { next: comment_end(s, i + 2) }
        } else {
            LexStep::Tok { payload: TokenPayloadModel::Alternation, end: i + 1 }
        }
    } else if c == ':' {
        if i + 2 < s.len() && s[i + 1] == ':' && s[i + 2] == '=' {
            LexStep::Tok { payload: TokenPayloadModel::Equals, end: i + 3 }
        } else {
            LexStep::Fail { offset: byte_of(s, i) as usize }
        }
    } else if c == '=' {
        LexStep::Tok { payload: TokenPayloadModel::Equals, end: i + 1 }
    } else if c == ';' {
        LexStep::Tok { payload: TokenPayloadModel::Termination, end: i + 1 }
    } else if c == '|' {
        LexStep::Tok { payload: TokenPayloadModel::Alternation, end: i + 1 }
    } else if c == '?' {
        LexStep::Tok { payload: TokenPayloadModel::Optional, end: i + 1 }
    } else if c == '*' {
        LexStep::Tok { payload: TokenPayloadModel::Kleene, end: i + 1 }
    } else if c == '+' {
        LexStep::Tok { payload: TokenPayloadModel::Repeat, end: i + 1 }
    } else if c == '(' {
        LexStep::Tok { payload: TokenPayloadModel::OpeningGroup, end: i + 1 }
    } else if c == ')' {
        LexStep::Tok { payload: TokenPayloadModel::ClosingGroup, end: i + 1 }
    } else if c == '[' {
        LexStep::Tok { payload: TokenPayloadModel::OpeningSquare, end: i + 1 }
    } else if c == ']' {
        LexStep::Tok { payload: TokenPayloadModel::ClosingSquare, end: i + 1 }
    } else if c == '{' {
        LexStep::Tok { payload: TokenPayloadModel::OpeningBrace, end: i + 1 }
    } else if c == '}' {
        LexStep::Tok { payload: TokenPayloadModel::ClosingBrace, end: i + 1 }
    } else if is_skippable(c) {
        LexStep::Skip { next: i + 1 }
    } else if is_word_char(c) {
        LexStep::Tok {
            payload: TokenPayloadModel::Identifier(s.subrange(i, ident_end(s, i + 1))),
            end: ident_end(s, i + 1),
        }
    } else {
        LexStep::Fail { offset: byte_of(s, i) as usize }
    }
}

/// A lexer step at a valid position never moves backwards and never moves past
/// the end of the input.
pub proof fn lemma_lex_step_bounds(s: Seq<char>, i: int)
    requires
        0 <= i < s.len(),
    ensures
        lex_step(s, i) matches LexStep::Skip { next } ==> i < next <= s.len(),
        lex_step(s, i) matches LexStep::Tok { end, .. } ==> i < end <= s.len(),
{
    let c = s[i];
    if c == '\'' || c == '"' {
        lemma_literal_end_bounds(s, i + 1, c);
    } else if c == '#' {
        if i + 1 < s.len() && (s[i + 1] == '\'' || s[i + 1] == '"') {
            lemma_regex_end_bounds(s, i + 2, s[i + 1]);
        }
    } else if c == '/' {
        if i + 1 < s.len() && s[i + 1] == '/' {
            lemma_comment_end_bounds(s, i + 2);
        }
    } else if is_word_char(c) {
        lemma_ident_end_bounds(s, i + 1);
    }
}

/// The tokens of the input from character index `i` on, or the byte offset of
/// the first position where no rule matches.
pub open spec fn lex_from(s: Seq<char>, i: int) -> Result<Seq<TokenModel>, usize>
    decreases s.len() - i,
    via lex_from_decreases
{
    if i < 0 || i >= s.len() {
        Ok(Seq::empty())
    } else {
        match lex_step(s, i) {
            LexStep::Skip { next } => lex_from(s, next),
            LexStep::Tok { payload, end } => match lex_from(s, end) {
                Ok(rest) => Ok(
                    Seq::empty().push(TokenModel { span: span_at(s, i, end), payload }) + rest,
                ),
                Err(o) => Err(o),
            },
            LexStep::Fail { offset } => Err(offset),
        }
    }
}

#[via_fn]
proof fn lex_from_decreases(s: Seq<char>, i: int) {
    if 0 <= i < s.len() {
        lemma_lex_step_bounds(s, i);
    }
}

/// The tokens of the whole input, or the byte offset of the first position
/// where no rule matches.
pub open spec fn lex_spec(s: Seq<char>) -> Result<Seq<TokenModel>, usize> {
    lex_from(s, 0)
}

/// The models of a sequence of tokens, elementwise.
pub open spec fn token_model_seq(s: Seq<Token>) -> Seq<TokenModel>
    decreases s,
{
    if s.len() == 0 {
        Seq::empty()
    } else {
        token_model_seq(s.drop_last()).push(s.last()@)
    }
}

/// The model of a sequence of tokens has the same length, and holds the model
/// of each token at the same position.
pub broadcast proof fn lemma_token_model_seq(s: Seq<Token>)
    ensures
        (#[trigger] token_model_seq(s)).len() == s.len(),
        forall|i: int| 0 <= i < s.len() ==> token_model_seq(s)[i] == s[i]@,
    decreases s.len(),
{
    if s.len() > 0 {
        lemma_token_model_seq(s.drop_last());
    }
}

} // verus!

verus! {

/// Relies on str::len: the byte length of UTF-8 text, which is the summed
/// encoded width of its characters; at most `isize::MAX` as for every Rust
/// allocation.
#[verifier::external_body]
pub(crate) fn str_byte_len(s: &str) -> (r: usize)
    ensures
        r as int == byte_of(s@, s@.len() as int),
        r <= usize::MAX / 2,
{
    s.len()
}

/// Advances the byte, line and newline-base counters from character position
/// `from` to character position `to`.
fn advance_counters(
    input: &str,
    from: usize,
    to: usize,
    byte: usize,
    line: usize,
    nlb: usize,
) -> (r: (usize, usize, usize))
    requires
        from <= to <= input@.len(),
        byte as int == byte_of(input@, from as int),
        line as int == line_of(input@, from as int),
        nlb as int == nl_base_of(input@, from as int),
        byte_of(input@, input@.len() as int) <= usize::MAX / 2,
    ensures
        r.0 as int == byte_of(input@, to as int),
        r.1 as int == line_of(input@, to as int),
        r.2 as int == nl_base_of(input@, to as int),
{
    let ghost s = input@;
    let mut k: usize = from;
    let mut b: usize = byte;
    let mut l: usize = line;
    let mut nb: usize = nlb;
    while k < to
        invariant
            from <= k <= to <= s.len(),
            s == input@,
            b as int == byte_of(s, k as int),
            l as int == line_of(s, k as int),
            nb as int == nl_base_of(s, k as int),
            byte_of(s, s.len() as int) <= usize::MAX / 2,
        decreases to - k,
    {
        let c = input.get_char(k);
        proof {
            broadcast use lemma_pos_bounds;

            lemma_byte_of_monotone(s, k as int + 1, s.len() as int);
        }
        b = b + char_utf8_len(c);
        if c == '\n' {
            l = l + 1;
            nb = b;
        }
        k = k + 1;
    }
    (b, l, nb)
}

/// Scans the identifier run starting at or before `from`: returns the first
/// character index at or after `from` that holds no word character.
pub fn parse_identifier(input: &str, from: usize) -> (end: usize)
    requires
        from <= input@.len(),
    ensures
        end as int == ident_end(input@, from as int),
        from <= end <= input@.len(),
{
    let ghost s = input@;
    let n = input.unicode_len();
    let mut j: usize = from;
    loop
        invariant
            from <= j <= n,
            n == s.len(),
            s == input@,
            ident_end(s, from as int) == ident_end(s, j as int),
        decreases n - j,
    {
        if j >= n {
            return j;
        }
        let c = input.get_char(j);
        if !(c == '_' || char_is_alphanumeric(c)) {
            return j;
        }
        j = j + 1;
    }
}

/// Scans a string literal whose content starts at `from`, consuming `\`
/// together with the character after it: returns the index of the closing
/// quote, or `None` if a newline or the end of the input comes first.
pub fn parse_string(input: &str, from: usize, quote: char) -> (r: Option<usize>)
    requires
        from <= input@.len(),
    ensures
        match r {
            Some(j) => literal_end(input@, from as int, quote) == Some(j as int) && from <= j
                < input@.len(),
            None => literal_end(input@, from as int, quote) is None,
        },
{
    let ghost s = input@;
    let n = input.unicode_len();
    let mut j: usize = from;
    loop
        invariant
            from <= j <= n,
            n == s.len(),
            s == input@,
            literal_end(s, from as int, quote) == literal_end(s, j as int, quote),
        decreases n - j,
    {
        if j >= n {
            return None;
        }
        let c = input.get_char(j);
        if c == '\n' {
            return None;
        }
        if c == quote {
            return Some(j);
        }
        if c == '\\' {
            if j + 1 < n {
                j = j + 2;
            } else {
                return None;
            }
        } else {
            j = j + 1;
        }
    }
}

/// Scans a regex whose content starts at `from`, with no escape processing:
/// returns the index of the closing quote, or `None` if a newline or the end
/// of the input comes first.
pub fn parse_regex(input: &str, from: usize, quote: char) -> (r: Option<usize>)
    requires
        from <= input@.len(),
    ensures
        match r {
            Some(j) => regex_end(input@, from as int, quote) == Some(j as int) && from <= j
                < input@.len(),
            None => regex_end(input@, from as int, quote) is None,
        },
{
    let ghost s = input@;
    let n = input.unicode_len();
    let mut j: usize = from;
    loop
        invariant
            from <= j <= n,
            n == s.len(),
            s == input@,
            regex_end(s, from as int, quote) == regex_end(s, j as int, quote),
        decreases n - j,
    {
        if j >= n {
            return None;
        }
        let c = input.get_char(j);
        if c == '\n' {
            return None;
        }
        if c == quote {
            return Some(j);
        }
        j = j + 1;
    }
}

/// Scans a `//` comment whose text starts at `from`: returns the index of the
/// next newline, or the end of the input.
fn parse_comment(input: &str, from: usize) -> (end: usize)
    requires
        from <= input@.len(),
    ensures
        end as int == comment_end(input@, from as int),
        from <= end <= input@.len(),
{
    let ghost s = input@;
    let n = input.unicode_len();
    let mut j: usize = from;
    loop
        invariant
            from <= j <= n,
            n == s.len(),
            s == input@,
            comment_end(s, from as int) == comment_end(s, j as int),
        decreases n - j,
    {
        if j >= n {
            return j;
        }
        let c = input.get_char(j);
        if c == '\n' {
            return j;
        }
        j = j + 1;
    }
}

/// Prepends already-produced tokens to the outcome of lexing the rest.
pub open spec fn lex_prepend(
    done: Seq<TokenModel>,
    rest: Result<Seq<TokenModel>, usize>,
) -> Result<Seq<TokenModel>, usize> {
    match rest {
        Ok(ts) => Ok(done + ts),
        Err(o) => Err(o),
    }
}

} // verus!

verus! {

/// Maps source text to its sequence of spanned tokens, skipping whitespace,
/// commas and line comments; fails with a lex error carrying the input and
/// the byte offset of the first position where no rule matches.
pub fn tokenize(input: &str) -> (r: Result<Vec<Token>, EbnfError>)
    ensures
        match r {
            Ok(tokens) => lex_spec(input@) == Ok::<Seq<TokenModel>, usize>(
                token_model_seq(tokens@),
            ),
            Err(e) => lex_spec(input@) is Err && e@ == (EbnfErrorModel::LexError {
                input: input@,
                offset: lex_spec(input@)->Err_0,
            }),
        },
{
    let ghost s = input@;
    let n = input.unicode_len();
    let total_bytes = str_byte_len(input);
    let mut i: usize = 0;
    let mut byte: usize = 0;
    let mut line: usize = 1;
    let mut nlb: usize = 0;
    let mut tokens: Vec<Token> = Vec::new();
    proof {
        broadcast use lemma_token_model_seq;

        assert(lex_prepend(token_model_seq(tokens@), lex_from(s, 0)) =~= lex_spec(s)) by {
            match lex_from(s, 0) {
                Ok(rest) => {
                    assert(token_model_seq(tokens@) + rest =~= rest);
                },
                Err(_) => {},
            }
        }
    }
    while i < n
        invariant
            i <= n,
            n == s.len(),
            s == input@,
            byte as int == byte_of(s, i as int),
            line as int == line_of(s, i as int),
            nlb as int == nl_base_of(s, i as int),
            total_bytes as int == byte_of(s, s.len() as int),
            total_bytes <= usize::MAX / 2,
            lex_prepend(token_model_seq(tokens@), lex_from(s, i as int)) == lex_spec(s),
        decreases n - i,
    {
        proof {
            broadcast use lemma_pos_bounds, lemma_token_model_seq;

            lemma_byte_of_monotone(s, i as int, s.len() as int);
            lemma_lex_step_bounds(s, i as int);
        }
        let ghost toks_before = tokens@;
        let c = input.get_char(i);
        let start_lc = LineCol { line, col: byte - nlb };
        // Where this step produces a token, these hold its payload and its
        // end position; a skip or a failure returns or continues directly.
        let payload: TokenPayload;
        let end: usize;
        if c == '\'' || c == '"' {
            match parse_string(input, i + 1, c) {
                Some(j) => {
                    payload = TokenPayload::Literal(input.substring_char(i + 1, j).to_owned());
                    end = j + 1;
                },
                None => {
                    return Err(EbnfError::LexError { input: input.to_owned(), offset: byte });
                },
            }
        } else if c == '#' {
            let mut quote: char = ' ';
            if i + 1 < n {
                quote = input.get_char(i + 1);
            }
            if i + 1 < n && (quote == '\'' || quote == '"') {
                match parse_regex(input, i + 2, quote) {
                    Some(j) => {
                        payload = TokenPayload::Regex(input.substring_char(i + 2, j).to_owned());
                        end = j + 1;
                    },
                    None => {
                        proof {
                            assert(byte_of(s, i as int + 1) == byte + 1);
                        }
                        return Err(
                            EbnfError::LexError { input: input.to_owned(), offset: byte + 1 },
                        );
                    },
                }
            } else {
                return Err(EbnfError::LexError { input: input.to_owned(), offset: byte });
            }
        } else if c == '/' {
            let mut second: char = ' ';
            if i + 1 < n {
                second = input.get_char(i + 1);
            }
            if i + 1 < n && second == '/' {
                let j = parse_comment(input, i + 2);
                let counters = advance_counters(input, i, j, byte, line, nlb);
                byte = counters.0;
                line = counters.1;
                nlb = counters.2;
                i = j;
                proof {
                    assert(lex_prepend(token_model_seq(tokens@), lex_from(s, i as int))
                        == lex_spec(s));
                }
                continue ;
            } else {
                payload = TokenPayload::Alternation;
                end = i + 1;
            }
        } else if c == ':' {
            let two_more = i + 1 < n && i + 2 < n;
            let mut c1: char = ' ';
            let mut c2: char = ' ';
            if two_more {
                c1 = input.get_char(i + 1);
                c2 = input.get_char(i + 2);
            }
            if two_more && c1 == ':' && c2 == '=' {
                payload = TokenPayload::Equals;
                end = i + 3;
            } else {
                return Err(EbnfError::LexError { input: input.to_owned(), offset: byte });
            }
        } else if c == '=' {
            payload = TokenPayload::Equals;
            end = i + 1;
        } else if c == ';' {
            payload = TokenPayload::Termination;
            end = i + 1;
        } else if c == '|' {
            payload = TokenPayload::Alternation;
            end = i + 1;
        } else if c == '?' {
            payload = TokenPayload::Optional;
            end = i + 1;
        } else if c == '*' {
            payload = TokenPayload::Kleene;
            end = i + 1;
        } else if c == '+' {
            payload = TokenPayload::Repeat;
            end = i + 1;
        } else if c == '(' {
            payload = TokenPayload::OpeningGroup;
            end = i + 1;
        } else if c == ')' {
            payload = TokenPayload::ClosingGroup;
            end = i + 1;
        } else if c == '[' {
            payload = TokenPayload::OpeningSquare;
            end = i + 1;
        } else if c == ']' {
            payload = TokenPayload::ClosingSquare;
            end = i + 1;
        } else if c == '{' {
            payload = TokenPayload::OpeningBrace;
            end = i + 1;
        } else if c == '}' {
            payload = TokenPayload::ClosingBrace;
            end = i + 1;
        } else if char_is_whitespace(c) || c == ',' {
            let counters = advance_counters(input, i, i + 1, byte, line, nlb);
            byte = counters.0;
            line = counters.1;
            nlb = counters.2;
            i = i + 1;
            continue ;
        } else if c == '_' || char_is_alphanumeric(c) {
            let j = parse_identifier(input, i + 1);
            payload = TokenPayload::Identifier(input.substring_char(i, j).to_owned());
            end = j;
        } else {
            return Err(EbnfError::LexError { input: input.to_owned(), offset: byte });
        }
        let counters = advance_counters(input, i, end, byte, line, nlb);
        let span = Span {
            start: byte,
            end: counters.0,
            line_offset_start: start_lc,
            line_offset_end: LineCol { line: counters.1, col: counters.0 - counters.2 },
        };
        proof {
            assert(span == span_at(s, i as int, end as int));
            assert(lex_step(s, i as int) matches LexStep::Tok { payload: p, end: e }
                && p == payload@ && e == end as int);
        }
        tokens.push(Token { span, payload });
        byte = counters.0;
        line = counters.1;
        nlb = counters.2;
        i = end;
        proof {
            assert(tokens@ == toks_before.push(tokens@.last()));
            match lex_from(s, i as int) {
                Ok(rest) => {
                    assert(token_model_seq(tokens@) + rest =~= token_model_seq(toks_before) + (
                    Seq::empty().push(tokens@.last()@) + rest));
                },
                Err(_) => {},
            }
            assert(lex_prepend(token_model_seq(tokens@), lex_from(s, i as int)) == lex_spec(s));
        }
    }
    proof {
        broadcast use lemma_token_model_seq;

        assert(lex_from(s, n as int) == Ok::<Seq<TokenModel>, usize>(Seq::empty()));
        assert(token_model_seq(tokens@) + Seq::<TokenModel>::empty() =~= token_model_seq(
            tokens@,
        ));
    }
    Ok(tokens)
}

} // verus!

verus! {

/// The spans of the tokens of a successful lex are ordered and disjoint: each
/// token starts no earlier than the position scanning resumed from, ends no
/// later than the end of the input, runs forwards, and ends before the next
/// token starts. The concatenation of the tokens' source slices therefore
/// re-occurs in the input in order: what the lexer drops between tokens is
/// only skipped text.
pub proof fn lemma_lex_spans_ordered(s: Seq<char>, i: int)
    requires
        0 <= i <= s.len(),
        byte_of(s, s.len() as int) <= usize::MAX,
    ensures
        lex_from(s, i) matches Ok(ts) ==> {
            &&& forall|k: int|
                0 <= k < ts.len() ==> byte_of(s, i) <= (#[trigger] ts[k]).span.start <= ts[k].span.end
                    <= byte_of(s, s.len() as int)
            &&& forall|k: int, l: int|
                0 <= k < l < ts.len() ==> (#[trigger] ts[k]).span.end <= (#[trigger] ts[l]).span.start
        },
    decreases s.len() - i,
{
    lemma_byte_of_monotone(s, i, s.len() as int);
    broadcast use lemma_pos_bounds;

    if i < s.len() {
        lemma_lex_step_bounds(s, i);
        match lex_step(s, i) {
            LexStep::Skip { next } => {
                lemma_lex_spans_ordered(s, next);
                lemma_byte_of_monotone(s, i, next);
            },
            LexStep::Tok { payload, end } => {
                lemma_lex_spans_ordered(s, end);
                lemma_byte_of_monotone(s, i, end);
                lemma_byte_of_monotone(s, end, s.len() as int);
                match lex_from(s, end) {
                    Ok(rest) => {
                        let tm = TokenModel { span: span_at(s, i, end), payload };
                        let ts = Seq::empty().push(tm) + rest;
                        assert(ts[0] == tm);
                        assert forall|k: int|
                            0 <= k < ts.len() implies byte_of(s, i) <= (
                        #[trigger] ts[k]).span.start <= ts[k].span.end <= byte_of(
                            s,
                            s.len() as int,
                        ) by {
                            if k > 0 {
                                assert(ts[k] == rest[k - 1]);
                            }
                        }
                        assert forall|k: int, l: int|
                            0 <= k < l < ts.len() implies (#[trigger] ts[k]).span.end <= (
                        #[trigger] ts[l]).span.start by {
                            if k > 0 {
                                assert(ts[k] == rest[k - 1]);
                                assert(ts[l] == rest[l - 1]);
                            } else {
                                assert(ts[l] == rest[l - 1]);
                            }
                        }
                    },
                    Err(_) => {},
                }
            },
            LexStep::Fail { .. } => {},
        }
    }
}

} // verus!
