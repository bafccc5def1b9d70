//! The grammar: which tree a sequence of tokens stands for, or which error it is.
//!
//! Every production is a function of the tokens, the nesting depth and a position; it gives
//! the tree it recognises and the position after it, or the first error.

use vstd::prelude::*;

use crate::ast::{last_ident, BsnPatchPrefix};
use crate::chars::{spec_is_lower, spec_is_upper};
use crate::error::{plain_error, Error, ErrorKind, MAX_NESTING_DEPTH};
use crate::float::{infinity, lookup, nan, Floats};
use crate::lexer::span_of;
use crate::lexical::{lex, Lexed};
use crate::literal::{int_value, magnitude_value, string_value, without_separators};
use crate::model::{Head, Path, Segment};
use crate::span::Span;
use crate::token::{LexError, TokenKind};
use crate::unsupported;

verus! {

/// A token with its text.
pub ghost struct Lexeme {
    pub kind: TokenKind,
    pub text: Seq<char>,
    pub span: Span,
}

/// The lexeme for a range of character indices of `s`.
pub open spec fn lexeme_of(s: Seq<char>, t: Lexed) -> Lexeme {
    Lexeme { kind: t.kind, text: s.subrange(t.start, t.end), span: span_of(s, t.start, t.end) }
}

/// All tokens of a text, with their texts.
pub open spec fn lexemes(s: Seq<char>) -> Seq<Lexeme> {
    lex(s).map_values(|t: Lexed| lexeme_of(s, t))
}

/// What a production reads: the tokens and the values of the float literals.
pub ghost struct Input {
    pub toks: Seq<Lexeme>,
    pub floats: Floats,
}

/// A value with the values inside it. For a struct, `names` are the field names.
pub ghost struct Tree {
    pub span: Span,
    pub head: Head,
    pub names: Seq<Seq<char>>,
    pub children: Seq<Tree>,
}

/// What a node is, apart from the nodes inside it.
pub ghost enum NodeHead {
    Entity {
        name: Option<Seq<char>>,
        name_span: Option<Span>,
        base: Option<Seq<char>>,
        base_span: Option<Span>,
    },
    Patch { symbol: Path, prefix: BsnPatchPrefix, value: Tree },
    Relation { target: Path },
}

/// A node with the nodes inside it: the entries of an entity, in source order, or the entities
/// of a relation.
pub ghost struct NodeTree {
    pub span: Span,
    pub head: NodeHead,
    pub children: Seq<NodeTree>,
}

/// A recognised `T` and the position after it, or an error.
pub type Parsed<T> = Result<(T, int), Error>;

/// A description of a token for "unexpected …" messages.
pub open spec fn token_text(kind: TokenKind) -> Seq<char> {
    match kind {
        TokenKind::Ident => "identifier"@,
        TokenKind::Int => "number"@,
        TokenKind::Float => "number"@,
        TokenKind::Str => "string literal"@,
        TokenKind::ColonColon => "`::`"@,
        TokenKind::Colon => "`:`"@,
        TokenKind::Comma => "`,`"@,
        TokenKind::Hash => "`#`"@,
        TokenKind::At => "`@`"@,
        TokenKind::Tilde => "`~`"@,
        TokenKind::Minus => "`-`"@,
        TokenKind::Lt => "`<`"@,
        TokenKind::Gt => "`>`"@,
        TokenKind::LParen => "`(`"@,
        TokenKind::RParen => "`)`"@,
        TokenKind::LBrace => "`{`"@,
        TokenKind::RBrace => "`}`"@,
        TokenKind::LBracket => "`[`"@,
        TokenKind::RBracket => "`]`"@,
        TokenKind::Eof => "end of file"@,
        TokenKind::Error(_) => "invalid token"@,
    }
}

/// The parse error that a lexical problem stands for.
pub open spec fn lex_error_kind(error: LexError, text: Seq<char>) -> ErrorKind {
    match error {
        LexError::UnterminatedString => ErrorKind::UnterminatedString,
        LexError::UnterminatedRawString => ErrorKind::UnterminatedString,
        LexError::UnterminatedBlockComment => ErrorKind::UnterminatedBlockComment,
        LexError::InvalidEscape => ErrorKind::InvalidEscape,
        LexError::InvalidNumber => ErrorKind::InvalidNumber,
        LexError::NumericSuffix => ErrorKind::Unsupported(unsupported::SUFFIX@),
        LexError::RawIdentifier => ErrorKind::Unsupported(unsupported::RAW_IDENT@),
        LexError::CharLiteral => ErrorKind::Unsupported(unsupported::CHAR@),
        LexError::Closure => ErrorKind::Unsupported(unsupported::CLOSURE@),
        LexError::Macro => ErrorKind::Unsupported(unsupported::MACRO@),
        LexError::Unknown => ErrorKind::UnknownCharacter(
            if text.len() > 0 {
                text[0]
            } else {
                '\u{FFFD}'
            },
        ),
    }
}

/// The error for a token that the grammar does not allow.
pub open spec fn unexpected(t: Lexeme, expected: Seq<Seq<char>>) -> Error {
    Error {
        span: t.span,
        kind: if t.kind == TokenKind::Eof {
            ErrorKind::UnexpectedEof
        } else {
            ErrorKind::UnexpectedToken(token_text(t.kind))
        },
        expected,
    }
}

/// The error for a construct that cannot exist in an asset.
pub open spec fn unsupported_error(message: Seq<char>, span: Span) -> Error {
    plain_error(span, ErrorKind::Unsupported(message))
}

/// The error of a production that consumes nothing where it must; no input leads to it.
pub open spec fn stuck() -> Error {
    plain_error(Span::spec_none(), ErrorKind::Internal(Seq::empty()))
}

/// Whether an identifier is written like a constant: it has more than one character, and no
/// lowercase letter among them.
pub open spec fn is_const_ident(ident: Seq<char>) -> bool {
    ident.len() > 1 && forall|i: int| 0 <= i < ident.len() ==> !spec_is_lower(#[trigger] ident[i])
}

/// What is wrong with a path that names a Rust item an asset cannot reach: a function, a
/// constructor or a constant. `lowercase` is the diagnostic for a lowercase path that is no
/// constructor.
pub open spec fn path_problem(path: Path, lowercase: Seq<char>) -> Option<Error> {
    let last = last_ident(path);
    if last.len() == 0 {
        None
    } else if spec_is_upper(last[0]) {
        if is_const_ident(last) {
            Some(unsupported_error(unsupported::CONST@, path.span))
        } else {
            None
        }
    } else if path.segments.len() >= 2 && path.segments[path.segments.len() - 2].ident.len() > 0
        && spec_is_upper(path.segments[path.segments.len() - 2].ident[0]) {
        Some(unsupported_error(unsupported::CTOR@, path.span))
    } else {
        Some(unsupported_error(lowercase, path.span))
    }
}

/// Whether the name at `i` already appears before `i`.
pub open spec fn is_repeat(names: Seq<Seq<char>>, i: int) -> bool {
    exists|j: int| 0 <= j < i && #[trigger] names[j] == names[i]
}

/// The first index at or after `i` that repeats an earlier name.
pub open spec fn first_repeat_from(names: Seq<Seq<char>>, i: int) -> Option<int>
    decreases names.len() - i,
{
    if i < 0 || i >= names.len() {
        None
    } else if is_repeat(names, i) {
        Some(i)
    } else {
        first_repeat_from(names, i + 1)
    }
}

/// Whether an entity body ends at a token of this kind.
pub open spec fn is_stop(kind: TokenKind, parenthesized: bool) -> bool {
    ||| kind == TokenKind::Eof || kind == TokenKind::RParen
    ||| !parenthesized && (kind == TokenKind::Comma || kind == TokenKind::RBracket)
}

/// The error for the identifier of a repeated field.
pub open spec fn duplicate_error(names: Seq<Seq<char>>, spans: Seq<Span>, i: int) -> Error {
    plain_error(spans[i], ErrorKind::DuplicateField(names[i]))
}

/// A value without values inside it.
pub open spec fn leaf(span: Span, head: Head) -> Tree {
    Tree { span, head, names: Seq::empty(), children: Seq::empty() }
}

/// The span from the start of one token to the end of another.
pub open spec fn cover(first: Span, last: Span) -> Span {
    Span { start: first.start, end: last.end }
}

/// The parts of an entity collected while its entries are parsed.
pub ghost struct Parts {
    pub name: Option<Seq<char>>,
    pub name_span: Option<Span>,
    pub base: Option<Seq<char>>,
    pub base_span: Option<Span>,
    pub entries: Seq<NodeTree>,
}

pub open spec fn no_parts() -> Parts {
    Parts { name: None, name_span: None, base: None, base_span: None, entries: Seq::empty() }
}

impl Input {
    /// The token at `pos`; past the end, the last token.
    pub open spec fn tok(self, pos: int) -> Lexeme {
        if 0 <= pos < self.toks.len() {
            self.toks[pos]
        } else {
            self.toks.last()
        }
    }

    pub open spec fn kind(self, pos: int) -> TokenKind {
        self.tok(pos).kind
    }

    /// The error of an invalid token at `pos`.
    pub open spec fn bad(self, pos: int) -> Option<Error> {
        match self.kind(pos) {
            TokenKind::Error(e) => Some(
                plain_error(self.tok(pos).span, lex_error_kind(e, self.tok(pos).text)),
            ),
            _ => None,
        }
    }

    /// A token of the given kind.
    pub open spec fn token(self, pos: int, kind: TokenKind, expected: Seq<Seq<char>>) -> Result<
        Lexeme,
        Error,
    > {
        match self.bad(pos) {
            Some(e) => Err(e),
            None => if self.kind(pos) == kind {
                Ok(self.tok(pos))
            } else {
                Err(unexpected(self.tok(pos), expected))
            },
        }
    }

    /// The error of nesting one level deeper than `depth`, if that is too deep.
    pub open spec fn too_deep(self, depth: nat, pos: int) -> Option<Error> {
        if depth + 1 > MAX_NESTING_DEPTH {
            Some(plain_error(self.tok(pos).span, ErrorKind::NestingTooDeep))
        } else {
            None
        }
    }

    // -- paths ----------------------------------------------------------------------------

    /// `path`
    pub open spec fn path(self, depth: nat, pos: int) -> Parsed<Path>
        decreases MAX_NESTING_DEPTH - depth, self.toks.len() - pos, 0nat,
    {
        match self.too_deep(depth, pos) {
            Some(e) => Err(e),
            None => self.path_inner(depth + 1, pos),
        }
    }

    /// `path = path_segment { "::" path_segment }`
    pub open spec fn path_inner(self, depth: nat, pos: int) -> Parsed<Path>
        decreases MAX_NESTING_DEPTH - depth, self.toks.len() - pos, 3nat,
    {
        match self.bad(pos) {
            Some(e) => Err(e),
            None => if self.kind(pos) == TokenKind::ColonColon {
                Err(plain_error(self.tok(pos).span, ErrorKind::LeadingPathSeparator))
            } else {
                match self.segment(depth, pos) {
                    Err(e) => Err(e),
                    Ok((segment, q)) => if q <= pos || q >= self.toks.len() {
                        Err(stuck())
                    } else {
                        self.more_segments(depth, q, seq![segment])
                    },
                }
            },
        }
    }

    /// The rest of a path whose segments so far are `segments`.
    pub open spec fn more_segments(self, depth: nat, pos: int, segments: Seq<Segment>) -> Parsed<
        Path,
    >
        decreases MAX_NESTING_DEPTH - depth, self.toks.len() - pos, 3nat,
    {
        if self.kind(pos) != TokenKind::ColonColon {
            Ok(
                (
                    Path { segments, span: segments[0].span.spec_join(segments.last().span) },
                    pos,
                ),
            )
        } else if pos + 1 >= self.toks.len() {
            Err(stuck())
        } else {
            match self.segment(depth, pos + 1) {
                Err(e) => Err(e),
                Ok((segment, q)) => if q <= pos || q >= self.toks.len() {
                    Err(stuck())
                } else {
                    self.more_segments(depth, q, segments.push(segment))
                },
            }
        }
    }

    /// `path_segment = IDENT [ "<" path { "," path } [ "," ] ">" ]`
    pub open spec fn segment(self, depth: nat, pos: int) -> Parsed<Segment>
        decreases MAX_NESTING_DEPTH - depth, self.toks.len() - pos, 2nat,
    {
        match self.token(pos, TokenKind::Ident, seq!["identifier"@]) {
            Err(e) => Err(e),
            Ok(ident) => if self.kind(pos + 1) != TokenKind::Lt {
                Ok(
                    (
                        Segment {
                            ident: ident.text,
                            generics: Seq::empty(),
                            span: cover(ident.span, ident.span),
                        },
                        pos + 1,
                    ),
                )
            } else if pos + 2 >= self.toks.len() {
                Err(stuck())
            } else {
                match self.path_list(depth, pos + 2, Seq::empty()) {
                    Err(e) => Err(e),
                    Ok((generics, q)) => match self.token(
                        q,
                        TokenKind::Gt,
                        seq!["`,`"@, "`>`"@],
                    ) {
                        Err(e) => Err(e),
                        Ok(close) => Ok(
                            (
                                Segment {
                                    ident: ident.text,
                                    generics,
                                    span: cover(ident.span, close.span),
                                },
                                q + 1,
                            ),
                        ),
                    },
                }
            },
        }
    }

    /// Comma-separated generic arguments, with an optional trailing comma, up to a `>`.
    pub open spec fn path_list(self, depth: nat, pos: int, items: Seq<Path>) -> Parsed<Seq<Path>>
        decreases MAX_NESTING_DEPTH - depth, self.toks.len() - pos, 1nat,
    {
        match self.bad(pos) {
            Some(e) => Err(e),
            None => if self.kind(pos) == TokenKind::Gt {
                Ok((items, pos))
            } else {
                match self.path(depth, pos) {
                    Err(e) => Err(e),
                    Ok((item, q)) => if self.kind(q) != TokenKind::Comma {
                        Ok((items.push(item), q))
                    } else if q <= pos || q + 1 >= self.toks.len() {
                        Err(stuck())
                    } else {
                        self.path_list(depth, q + 1, items.push(item))
                    },
                }
            },
        }
    }

    // -- values ---------------------------------------------------------------------------

    /// `value`
    pub open spec fn value(self, depth: nat, pos: int) -> Parsed<Tree>
        decreases MAX_NESTING_DEPTH - depth, self.toks.len() - pos, 0nat,
    {
        match self.too_deep(depth, pos) {
            Some(e) => Err(e),
            None => self.value_inner(depth + 1, pos),
        }
    }

    /// A number, `inf` or `NaN` after a `-` whose token is `minus`.
    pub open spec fn negative(self, minus: Lexeme, pos: int) -> Parsed<Tree> {
        let next = self.tok(pos);
        let span = minus.span.spec_join(next.span);
        match self.bad(pos) {
            Some(e) => Err(e),
            None => match next.kind {
                TokenKind::Int => match magnitude_value(next.text) {
                    Err(kind) => Err(plain_error(next.span, kind)),
                    Ok(v) => if v <= -(i128::MIN as int) {
                        Ok((leaf(span, Head::Int(-v)), pos + 1))
                    } else {
                        Err(plain_error(span, ErrorKind::NumberOutOfRange))
                    },
                },
                TokenKind::Float => match lookup(self.floats, without_separators(next.text)) {
                    None => Err(plain_error(next.span, ErrorKind::InvalidNumber)),
                    Some(f) => Ok((leaf(span, Head::Float(f.negated())), pos + 1)),
                },
                TokenKind::Ident => if next.text == "inf"@ {
                    Ok((leaf(span, Head::Float(infinity().negated())), pos + 1))
                } else if next.text == "NaN"@ || next.text == "nan"@ {
                    Ok((leaf(span, Head::Float(nan().negated())), pos + 1))
                } else {
                    Err(plain_error(next.span, ErrorKind::NegOperand))
                },
                _ => Err(plain_error(next.span, ErrorKind::NegOperand)),
            },
        }
    }

    /// Any value but a nesting level above it.
    pub open spec fn value_inner(self, depth: nat, pos: int) -> Parsed<Tree>
        decreases MAX_NESTING_DEPTH - depth, self.toks.len() - pos, 9nat,
    {
        let t = self.tok(pos);
        match self.bad(pos) {
            Some(e) => Err(e),
            None => match t.kind {
                TokenKind::Int => match int_value(t.text) {
                    Err(kind) => Err(plain_error(t.span, kind)),
                    Ok(v) => Ok((leaf(t.span, Head::Int(v)), pos + 1)),
                },
                TokenKind::Float => match lookup(self.floats, without_separators(t.text)) {
                    None => Err(plain_error(t.span, ErrorKind::InvalidNumber)),
                    Some(f) => Ok((leaf(t.span, Head::Float(f)), pos + 1)),
                },
                TokenKind::Str => match string_value(t.text) {
                    None => Err(plain_error(t.span, ErrorKind::InvalidEscape)),
                    Some(s) => Ok((leaf(t.span, Head::Str(s)), pos + 1)),
                },
                TokenKind::Minus => self.negative(t, pos + 1),
                TokenKind::Hash => match self.token(
                    pos + 1,
                    TokenKind::Ident,
                    seq!["identifier"@],
                ) {
                    Err(e) => Err(e),
                    Ok(ident) => Ok(
                        (leaf(t.span.spec_join(ident.span), Head::EntityRef(ident.text)), pos + 2),
                    ),
                },
                TokenKind::LBracket => self.bracketed(
                    depth,
                    pos,
                    TokenKind::RBracket,
                    seq!["`,`"@, "`]`"@],
                    t.span,
                    Head::List,
                ),
                TokenKind::LParen => self.paren_value(depth, pos),
                TokenKind::LBrace => Err(unsupported_error(unsupported::EXPR@, t.span)),
                TokenKind::ColonColon => Err(
                    plain_error(t.span, ErrorKind::LeadingPathSeparator),
                ),
                TokenKind::Ident => if t.text == "true"@ {
                    Ok((leaf(t.span, Head::Bool(true)), pos + 1))
                } else if t.text == "false"@ {
                    Ok((leaf(t.span, Head::Bool(false)), pos + 1))
                } else if t.text == "inf"@ {
                    Ok((leaf(t.span, Head::Float(infinity())), pos + 1))
                } else if t.text == "NaN"@ || t.text == "nan"@ {
                    Ok((leaf(t.span, Head::Float(nan())), pos + 1))
                } else if (t.text == "const"@ || t.text == "unsafe"@) && self.kind(pos + 1)
                    == TokenKind::LBrace {
                    Err(unsupported_error(unsupported::EXPR@, t.span))
                } else {
                    self.path_value(depth, pos)
                },
                _ => Err(
                    unexpected(
                        t,
                        seq![
                            "a value"@,
                            "number"@,
                            "string literal"@,
                            "`true`"@,
                            "`false`"@,
                            "type path"@,
                            "`#`"@,
                            "`[`"@,
                            "`(`"@,
                        ],
                    ),
                ),
            },
        }
    }

    /// A bracketed list of values whose opening token is at `pos`.
    pub open spec fn bracketed(
        self,
        depth: nat,
        pos: int,
        close: TokenKind,
        expected: Seq<Seq<char>>,
        first: Span,
        head: Head,
    ) -> Parsed<Tree>
        decreases MAX_NESTING_DEPTH - depth, self.toks.len() - pos, 5nat,
    {
        if pos + 1 >= self.toks.len() || pos < 0 {
            Err(stuck())
        } else {
            match self.value_list(depth, pos + 1, close, Seq::empty()) {
                Err(e) => Err(e),
                Ok((items, q)) => match self.token(q, close, expected) {
                    Err(e) => Err(e),
                    Ok(last) => Ok(
                        (
                            Tree {
                                span: cover(first, last.span),
                                head,
                                names: Seq::empty(),
                                children: items,
                            },
                            q + 1,
                        ),
                    ),
                },
            }
        }
    }

    /// `paren_value` — unit, grouping or tuple.
    pub open spec fn paren_value(self, depth: nat, pos: int) -> Parsed<Tree>
        decreases MAX_NESTING_DEPTH - depth, self.toks.len() - pos, 8nat,
    {
        let open = self.tok(pos);
        if pos + 1 >= self.toks.len() || pos < 0 {
            Err(stuck())
        } else if self.kind(pos + 1) == TokenKind::RParen {
            Ok((leaf(open.span.spec_join(self.tok(pos + 1).span), Head::Unit), pos + 2))
        } else if !self.comma_ahead(pos + 1, 0, 0) {
            match self.value(depth, pos + 1) {
                Err(e) => Err(e),
                Ok((tree, q)) => match self.token(q, TokenKind::RParen, seq!["`)`"@, "`,`"@]) {
                    Err(e) => Err(e),
                    Ok(_) => Ok((tree, q + 1)),
                },
            }
        } else {
            self.bracketed(
                depth,
                pos,
                TokenKind::RParen,
                seq!["`,`"@, "`)`"@],
                open.span,
                Head::Tuple,
            )
        }
    }

    /// Whether a comma follows at the top level of the parenthesized group that `pos` is in,
    /// `depth` brackets and `angles` angle brackets further in. A `>` closes an angle bracket
    /// only when one is open.
    pub open spec fn comma_ahead(self, pos: int, depth: nat, angles: nat) -> bool
        decreases self.toks.len() - pos,
    {
        if pos < 0 || pos >= self.toks.len() {
            false
        } else {
            match self.toks[pos].kind {
                TokenKind::LParen => self.comma_ahead(pos + 1, depth + 1, angles),
                TokenKind::LBracket => self.comma_ahead(pos + 1, depth + 1, angles),
                TokenKind::LBrace => self.comma_ahead(pos + 1, depth + 1, angles),
                TokenKind::RParen => depth > 0 && self.comma_ahead(
                    pos + 1,
                    (depth - 1) as nat,
                    angles,
                ),
                TokenKind::RBracket => depth > 0 && self.comma_ahead(
                    pos + 1,
                    (depth - 1) as nat,
                    angles,
                ),
                TokenKind::RBrace => depth > 0 && self.comma_ahead(
                    pos + 1,
                    (depth - 1) as nat,
                    angles,
                ),
                TokenKind::Lt => self.comma_ahead(pos + 1, depth, angles + 1),
                TokenKind::Gt => self.comma_ahead(
                    pos + 1,
                    depth,
                    if angles > 0 {
                        (angles - 1) as nat
                    } else {
                        0
                    },
                ),
                TokenKind::Comma => depth == 0 && angles == 0 || self.comma_ahead(
                    pos + 1,
                    depth,
                    angles,
                ),
                TokenKind::Eof => false,
                _ => self.comma_ahead(pos + 1, depth, angles),
            }
        }
    }

    /// Comma-separated values, with an optional trailing comma, up to a `close` token.
    pub open spec fn value_list(
        self,
        depth: nat,
        pos: int,
        close: TokenKind,
        items: Seq<Tree>,
    ) -> Parsed<Seq<Tree>>
        decreases MAX_NESTING_DEPTH - depth, self.toks.len() - pos, 4nat,
    {
        match self.bad(pos) {
            Some(e) => Err(e),
            None => if self.kind(pos) == close {
                Ok((items, pos))
            } else {
                match self.value(depth, pos) {
                    Err(e) => Err(e),
                    Ok((item, q)) => if self.kind(q) != TokenKind::Comma {
                        Ok((items.push(item), q))
                    } else if q <= pos || q + 1 >= self.toks.len() {
                        Err(stuck())
                    } else {
                        self.value_list(depth, q + 1, close, items.push(item))
                    },
                }
            },
        }
    }

    /// `path_value = path [ struct_body | tuple_body ]`
    pub open spec fn path_value(self, depth: nat, pos: int) -> Parsed<Tree>
        decreases MAX_NESTING_DEPTH - depth, self.toks.len() - pos, 8nat,
    {
        match self.path(depth, pos) {
            Err(e) => Err(e),
            Ok((path, q)) => if q <= pos || q >= self.toks.len() {
                Err(stuck())
            } else {
                match self.bad(q) {
                    Some(e) => Err(e),
                    None => match path_problem(path, unsupported::PATH_CASE@) {
                        Some(e) => Err(e),
                        None => self.path_body(depth, q, path),
                    },
                }
            },
        }
    }

    /// What follows a path in patch or value position: nothing, a struct body or a tuple body.
    pub open spec fn path_body(self, depth: nat, pos: int, path: Path) -> Parsed<Tree>
        decreases MAX_NESTING_DEPTH - depth, self.toks.len() - pos, 7nat,
    {
        if self.kind(pos) == TokenKind::LBrace {
            if pos + 1 >= self.toks.len() || pos < 0 {
                Err(stuck())
            } else {
                self.fields(depth, pos + 1, path, Seq::empty(), Seq::empty(), Seq::empty())
            }
        } else if self.kind(pos) == TokenKind::LParen {
            self.bracketed(
                depth,
                pos,
                TokenKind::RParen,
                seq!["`,`"@, "`)`"@],
                path.span,
                Head::NamedTuple(path),
            )
        } else {
            Ok((leaf(path.span, Head::Path(path)), pos))
        }
    }

    /// The fields of a struct body, up to its `}`.
    pub open spec fn fields(
        self,
        depth: nat,
        pos: int,
        path: Path,
        names: Seq<Seq<char>>,
        spans: Seq<Span>,
        values: Seq<Tree>,
    ) -> Parsed<Tree>
        decreases MAX_NESTING_DEPTH - depth, self.toks.len() - pos, 6nat,
    {
        match self.bad(pos) {
            Some(e) => Err(e),
            None => if self.kind(pos) == TokenKind::RBrace {
                self.fields_end(pos, path, names, spans, values)
            } else if self.kind(pos) == TokenKind::At {
                Err(unsupported_error(unsupported::PROP@, self.tok(pos).span))
            } else {
                match self.token(pos, TokenKind::Ident, seq!["identifier"@, "`}`"@]) {
                    Err(e) => Err(e),
                    Ok(ident) => if self.kind(pos + 1) != TokenKind::Colon {
                        Err(unsupported_error(unsupported::SHORTHAND@, ident.span))
                    } else if pos + 2 >= self.toks.len() {
                        Err(stuck())
                    } else {
                        match self.value(depth, pos + 2) {
                            Err(e) => Err(e),
                            Ok((value, q)) => if self.kind(q) != TokenKind::Comma {
                                self.fields_end(
                                    q,
                                    path,
                                    names.push(ident.text),
                                    spans.push(ident.span),
                                    values.push(value),
                                )
                            } else if q <= pos || q + 1 >= self.toks.len() {
                                Err(stuck())
                            } else {
                                self.fields(
                                    depth,
                                    q + 1,
                                    path,
                                    names.push(ident.text),
                                    spans.push(ident.span),
                                    values.push(value),
                                )
                            },
                        }
                    },
                }
            },
        }
    }

    /// The end of a struct body: no field may repeat, and a `}` must follow.
    pub open spec fn fields_end(
        self,
        pos: int,
        path: Path,
        names: Seq<Seq<char>>,
        spans: Seq<Span>,
        values: Seq<Tree>,
    ) -> Parsed<Tree> {
        match first_repeat_from(names, 0) {
            Some(i) => Err(duplicate_error(names, spans, i)),
            None => match self.token(pos, TokenKind::RBrace, seq!["`,`"@, "`}`"@]) {
                Err(e) => Err(e),
                Ok(close) => Ok(
                    (
                        Tree {
                            span: cover(path.span, close.span),
                            head: Head::Struct(path),
                            names,
                            children: values,
                        },
                        pos + 1,
                    ),
                ),
            },
        }
    }

    // -- entities -------------------------------------------------------------------------

    /// `entity = "(" entity_body ")" | entity_body`
    pub open spec fn entity(self, depth: nat, pos: int) -> Parsed<NodeTree>
        decreases MAX_NESTING_DEPTH - depth, self.toks.len() - pos, 0nat,
    {
        match self.too_deep(depth, pos) {
            Some(e) => Err(e),
            None => self.entity_inner(depth + 1, pos),
        }
    }

    pub open spec fn entity_inner(self, depth: nat, pos: int) -> Parsed<NodeTree>
        decreases MAX_NESTING_DEPTH - depth, self.toks.len() - pos, 13nat,
    {
        let t = self.tok(pos);
        let parenthesized = t.kind == TokenKind::LParen;
        let body = if parenthesized {
            pos + 1
        } else {
            pos
        };
        match self.bad(pos) {
            Some(e) => Err(e),
            None => match self.base(body) {
                Err(e) => Err(e),
                Ok((parts, q)) => if q < pos || q >= self.toks.len() {
                    Err(stuck())
                } else {
                    match self.entries(depth, q, parenthesized, parts) {
                        Err(e) => Err(e),
                        Ok((parts, q)) => self.entity_end(pos, q, parenthesized, parts),
                    }
                },
            },
        }
    }

    /// The end of an entity that starts at `pos` and whose entries end at `q`.
    pub open spec fn entity_end(
        self,
        pos: int,
        q: int,
        parenthesized: bool,
        parts: Parts,
    ) -> Parsed<NodeTree> {
        let first = self.tok(pos).span;
        if parenthesized {
            match self.token(q, TokenKind::RParen, seq!["`)`"@, "type path"@]) {
                Err(e) => Err(e),
                Ok(close) => Ok((entity_tree(parts, cover(first, close.span)), q + 1)),
            }
        } else if q == pos {
            Err(
                unexpected(
                    self.tok(q),
                    seq!["type path"@, "`#`"@, "`~`"@, "`@`"@, "`(`"@, "`:`"@],
                ),
            )
        } else {
            Ok((entity_tree(parts, cover(first, self.tok(q - 1).span)), q))
        }
    }

    /// `[ ":" STRING ]`
    pub open spec fn base(self, pos: int) -> Parsed<Parts> {
        if self.kind(pos) != TokenKind::Colon {
            Ok((no_parts(), pos))
        } else {
            let t = self.tok(pos + 1);
            match self.bad(pos + 1) {
                Some(e) => Err(e),
                None => if t.kind != TokenKind::Str {
                    Err(plain_error(t.span, ErrorKind::BaseNotString))
                } else {
                    match string_value(t.text) {
                        None => Err(plain_error(t.span, ErrorKind::InvalidEscape)),
                        Some(s) => Ok(
                            (
                                Parts {
                                    base: Some(s),
                                    base_span: Some(self.tok(pos).span.spec_join(t.span)),
                                    ..no_parts()
                                },
                                pos + 2,
                            ),
                        ),
                    }
                },
            }
        }
    }

    /// `{ entry }`, up to the end of the entity body.
    pub open spec fn entries(
        self,
        depth: nat,
        pos: int,
        parenthesized: bool,
        parts: Parts,
    ) -> Parsed<Parts>
        decreases MAX_NESTING_DEPTH - depth, self.toks.len() - pos, 12nat,
    {
        if is_stop(self.kind(pos), parenthesized) {
            Ok((parts, pos))
        } else {
            match self.entry(depth, pos, parts) {
                Err(e) => Err(e),
                Ok((parts, q)) => if q <= pos || q >= self.toks.len() {
                    Err(stuck())
                } else {
                    self.entries(depth, q, parenthesized, parts)
                },
            }
        }
    }

    /// `entry = name_entry | relation_entry | patch_entry`
    pub open spec fn entry(self, depth: nat, pos: int, parts: Parts) -> Parsed<Parts>
        decreases MAX_NESTING_DEPTH - depth, self.toks.len() - pos, 11nat,
    {
        let t = self.tok(pos);
        match self.bad(pos) {
            Some(e) => Err(e),
            None => match t.kind {
                TokenKind::Colon => Err(plain_error(t.span, ErrorKind::BaseNotFirst)),
                TokenKind::ColonColon => Err(
                    plain_error(t.span, ErrorKind::LeadingPathSeparator),
                ),
                TokenKind::LBrace => Err(unsupported_error(unsupported::EXPR@, t.span)),
                TokenKind::Hash => match self.token(
                    pos + 1,
                    TokenKind::Ident,
                    seq!["identifier"@],
                ) {
                    Err(e) => Err(e),
                    Ok(ident) => if parts.name is Some {
                        Err(plain_error(ident.span, ErrorKind::DuplicateName))
                    } else {
                        Ok(
                            (
                                Parts {
                                    name: Some(ident.text),
                                    name_span: Some(t.span.spec_join(ident.span)),
                                    ..parts
                                },
                                pos + 2,
                            ),
                        )
                    },
                },
                TokenKind::Tilde => if pos + 1 >= self.toks.len() || pos < 0 {
                    Err(stuck())
                } else {
                    self.patch(depth, pos + 1, BsnPatchPrefix::Template, t.span, parts)
                },
                TokenKind::At => if pos + 1 >= self.toks.len() || pos < 0 {
                    Err(stuck())
                } else {
                    self.patch(depth, pos + 1, BsnPatchPrefix::SceneComponent, t.span, parts)
                },
                TokenKind::Ident => if t.text == "use"@ {
                    Err(unsupported_error(unsupported::USE@, t.span))
                } else if t.text == "on"@ && self.kind(pos + 1) == TokenKind::LParen {
                    Err(unsupported_error(unsupported::OBSERVER@, t.span))
                } else {
                    self.patch(depth, pos, BsnPatchPrefix::FromTemplate, t.span, parts)
                },
                _ => Err(
                    unexpected(t, seq!["type path"@, "`#`"@, "`~`"@, "`@`"@]),
                ),
            },
        }
    }

    /// `patch_entry` and `relation_entry`, which share a leading path; `first` is the span of
    /// the first token of the entry.
    pub open spec fn patch(
        self,
        depth: nat,
        pos: int,
        prefix: BsnPatchPrefix,
        first: Span,
        parts: Parts,
    ) -> Parsed<Parts>
        decreases MAX_NESTING_DEPTH - depth, self.toks.len() - pos, 10nat,
    {
        match self.path(depth, pos) {
            Err(e) => Err(e),
            Ok((path, q)) => if q <= pos || q >= self.toks.len() {
                Err(stuck())
            } else {
                match self.bad(q) {
                    Some(e) => Err(e),
                    None => match path_problem(path, unsupported::FN@) {
                        Some(e) => Err(e),
                        None => if self.kind(q) == TokenKind::LBracket {
                            if prefix != BsnPatchPrefix::FromTemplate {
                                Err(
                                    unexpected(
                                        self.tok(q),
                                        seq![
                                            "a patch body (relationships cannot be prefixed with `~` or `@`)"@,
                                        ],
                                    ),
                                )
                            } else if q + 1 >= self.toks.len() {
                                Err(stuck())
                            } else {
                                match self.entity_list(
                                    depth,
                                    q + 1,
                                    TokenKind::RBracket,
                                    Seq::empty(),
                                ) {
                                    Err(e) => Err(e),
                                    Ok((entities, r)) => match self.token(
                                        r,
                                        TokenKind::RBracket,
                                        seq!["`,`"@, "`]`"@],
                                    ) {
                                        Err(e) => Err(e),
                                        Ok(close) => Ok(
                                            (
                                                with_entry(
                                                    parts,
                                                    NodeTree {
                                                        span: cover(first, close.span),
                                                        head: NodeHead::Relation { target: path },
                                                        children: entities,
                                                    },
                                                ),
                                                r + 1,
                                            ),
                                        ),
                                    },
                                }
                            }
                        } else {
                            match self.path_body(depth, q, path) {
                                Err(e) => Err(e),
                                Ok((value, r)) => Ok(
                                    (
                                        with_entry(
                                            parts,
                                            NodeTree {
                                                span: cover(first, self.tok(r - 1).span),
                                                head: NodeHead::Patch {
                                                    symbol: path,
                                                    prefix,
                                                    value,
                                                },
                                                children: Seq::empty(),
                                            },
                                        ),
                                        r,
                                    ),
                                ),
                            }
                        },
                    },
                }
            },
        }
    }

    /// Comma-separated entities, with an optional trailing comma, up to a `close` token.
    pub open spec fn entity_list(
        self,
        depth: nat,
        pos: int,
        close: TokenKind,
        items: Seq<NodeTree>,
    ) -> Parsed<Seq<NodeTree>>
        decreases MAX_NESTING_DEPTH - depth, self.toks.len() - pos, 1nat,
    {
        match self.bad(pos) {
            Some(e) => Err(e),
            None => if self.kind(pos) == close {
                Ok((items, pos))
            } else {
                match self.entity(depth, pos) {
                    Err(e) => Err(e),
                    Ok((item, q)) => if self.kind(q) != TokenKind::Comma {
                        Ok((items.push(item), q))
                    } else if q <= pos || q + 1 >= self.toks.len() {
                        Err(stuck())
                    } else {
                        self.entity_list(depth, q + 1, close, items.push(item))
                    },
                }
            },
        }
    }

    /// `document = [ entity_list ] EOF`
    pub open spec fn document(self) -> Result<Seq<NodeTree>, Error> {
        match self.entity_list(0, 0, TokenKind::Eof, Seq::empty()) {
            Err(e) => Err(e),
            Ok((roots, q)) => match self.token(q, TokenKind::Eof, seq!["`,`"@, "end of file"@]) {
                Err(e) => Err(e),
                Ok(_) => Ok(roots),
            },
        }
    }
}

pub open spec fn entity_tree(parts: Parts, span: Span) -> NodeTree {
    NodeTree {
        span,
        head: NodeHead::Entity {
            name: parts.name,
            name_span: parts.name_span,
            base: parts.base,
            base_span: parts.base_span,
        },
        children: parts.entries,
    }
}

pub open spec fn with_entry(parts: Parts, entry: NodeTree) -> Parts {
    Parts { entries: parts.entries.push(entry), ..parts }
}

} // verus!
