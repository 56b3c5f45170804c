//! Lexical tokens and the parser's error type.

use vstd::prelude::*;

verus! {

/// Mathematical model of a token: payloads are sequences of characters.
///
/// A number token records its digit run rather than a machine integer, so
/// that tokenization is total; the parser converts the digits and reports
/// an oversized run as [`ParseError::NumericOverflow`].
pub enum SpecToken {
    Null,
    Number(Seq<char>),
    String(Seq<char>),
    Boolean(bool),
    LeftBracket,
    RightBracket,
    LeftBrace,
    RightBrace,
    Colon,
    Comma,
}

/// A lexical token produced by [`crate::tokenize`].
///
/// `Number` carries the run of ASCII digits exactly as it appeared in the
/// source text; `String` carries the characters between the two quotes.
#[derive(Debug, PartialEq, Eq)]
pub enum Token {
    Null,
    Number(String),
    String(String),
    Boolean(bool),
    LeftBracket,
    RightBracket,
    LeftBrace,
    RightBrace,
    Colon,
    Comma,
}

impl View for Token {
    type V = SpecToken;

    open spec fn view(&self) -> SpecToken {
        match self {
            Token::Null => SpecToken::Null,
            Token::Number(d) => SpecToken::Number(d@),
            Token::String(s) => SpecToken::String(s@),
            Token::Boolean(b) => SpecToken::Boolean(*b),
            Token::LeftBracket => SpecToken::LeftBracket,
            Token::RightBracket => SpecToken::RightBracket,
            Token::LeftBrace => SpecToken::LeftBrace,
            Token::RightBrace => SpecToken::RightBrace,
            Token::Colon => SpecToken::Colon,
            Token::Comma => SpecToken::Comma,
        }
    }
}

/// The view of a token sequence, token by token.
pub open spec fn tokens_view(ts: Seq<Token>) -> Seq<SpecToken> {
    Seq::new(ts.len(), |i: int| ts[i]@)
}

/// Appending a token appends its view.
pub proof fn lemma_tokens_view_push(ts: Seq<Token>, t: Token)
    ensures
        tokens_view(ts.push(t)) == tokens_view(ts) + seq![t@],
{
    assert(tokens_view(ts.push(t)) =~= tokens_view(ts) + seq![t@]);
}

/// Why a parse failed.
#[derive(Debug, Clone, Copy, PartialEq, Eq, Structural)]
pub enum ParseError {
    /// A token (or the end of the token stream) appeared where the grammar
    /// does not allow it: a non-value token in value position, a non-string
    /// object key, or a missing colon or separator.
    UnexpectedToken,
    /// An array or object reached the end of the token stream before its
    /// closing bracket or brace.
    UnterminatedContainer,
    /// A digit run does not fit in a 64-bit signed integer.
    NumericOverflow,
    /// Tokens remain after a complete top-level value.
    TrailingContent,
}

} // verus!
