//! Tokens of the `.bsn` grammar.

use vstd::prelude::*;

use crate::span::Span;

verus! {

/// A single lexical token: a [`TokenKind`] plus the [`Span`] it covers.
#[derive(Clone, Copy, PartialEq, Eq, Structural, Debug)]
pub struct Token {
    /// What kind of token this is.
    pub kind: TokenKind,
    /// The byte range the token covers in the source text.
    pub span: Span,
}

/// The kind of a [`Token`].
///
/// This is a lower-level API than [`crate::parse`]; it exists for tooling such as syntax
/// highlighters and language servers. It is `#[non_exhaustive]` because new token kinds may
/// be added in a minor release.
#[derive(Clone, Copy, PartialEq, Eq, Structural, Debug)]
#[non_exhaustive]
pub enum TokenKind {
    /// An identifier or keyword-like word, such as `Transform`, `true`, `inf` or `use`.
    Ident,
    /// An integer literal: `12`, `0xFF`, `1_000`, `0b1010`, `0o17`.
    Int,
    /// A floating-point literal: `1.0`, `1.`, `1e5`, `2.5E-3`.
    Float,
    /// A string literal. The span **includes** the quotes and any raw-string delimiters.
    Str,
    /// `::`
    ColonColon,
    /// `:`
    Colon,
    /// `,`
    Comma,
    /// `#`
    Hash,
    /// `@`
    At,
    /// `~`
    Tilde,
    /// `-`
    Minus,
    /// `<`
    Lt,
    /// `>`
    Gt,
    /// `(`
    LParen,
    /// `)`
    RParen,
    /// `{`
    LBrace,
    /// `}`
    RBrace,
    /// `[`
    LBracket,
    /// `]`
    RBracket,
    /// The end of the source text. Its span is `(len, len)`.
    Eof,
    /// A lexical problem. The parser turns this into a parse error verbatim.
    Error(LexError),
}

/// A lexical problem, carried by [`TokenKind::Error`].
///
/// `#[non_exhaustive]` because new lexical diagnostics may be added in a minor release.
#[derive(Clone, Copy, PartialEq, Eq, Structural, Debug)]
#[non_exhaustive]
pub enum LexError {
    /// A string literal was not closed before the end of the file.
    UnterminatedString,
    /// A `/* … */` comment was not closed before the end of the file.
    UnterminatedBlockComment,
    /// A raw string literal was not closed before the end of the file.
    UnterminatedRawString,
    /// An unknown or malformed escape sequence inside a string literal.
    InvalidEscape,
    /// A numeric literal that cannot be interpreted, such as `0x` with no digits.
    InvalidNumber,
    /// A numeric literal with a type suffix, such as `1u8` or `1.0f32`.
    NumericSuffix,
    /// A raw identifier, such as `r#type`.
    RawIdentifier,
    /// A character literal, such as `'a'`.
    CharLiteral,
    /// A `|`, which can only start a closure.
    Closure,
    /// A `!`, which can only be a macro invocation.
    Macro,
    /// A character that has no meaning in BSN.
    Unknown,
}

} // verus!
