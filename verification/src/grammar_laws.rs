//! What separates, ends and begins the parts of a text, and what is refused.

use vstd::prelude::*;

use crate::ast::{last_ident, BsnPatchPrefix};
use crate::chars::{spec_is_lower, spec_is_upper};
use crate::error::{Error, ErrorKind, MAX_NESTING_DEPTH};
use crate::grammar::{path_problem, Input, Lexeme, NodeTree, Parsed, Parts, Tree};
use crate::literal::{magnitude_value, string_value};
use crate::model::{Head, Path};
use crate::span::Span;
use crate::token::{LexError, TokenKind};
use crate::unsupported;

verus! {

/// Whether a parse stops with an error of the kind at the span.
pub open spec fn stops_at<T>(parsed: Parsed<T>, kind: ErrorKind, span: Span) -> bool {
    parsed matches Err(e) && e.kind == kind && e.span == span
}

/// Whether a token of that kind stands at `pos`, and another token behind it.
pub open spec fn goes_on(input: Input, pos: int, kind: TokenKind) -> bool {
    0 <= pos < input.toks.len() - 1 && input.kind(pos) == kind
}

// -- lists --------------------------------------------------------------------------------------

/// A list of values goes on after a comma, and only there: behind a value it continues with what
/// follows the comma, and ends otherwise. Where the closing bracket stands in place of a value, as
/// behind a trailing comma, it ends, too.
pub proof fn law_commas_separate_values(
    input: Input,
    depth: nat,
    pos: int,
    close: TokenKind,
    items: Seq<Tree>,
)
    requires
        !(close is Error),
    ensures
        input.kind(pos) == close ==> input.value_list(depth, pos, close, items) == Ok::<
            (Seq<Tree>, int),
            Error,
        >((items, pos)),
        input.kind(pos) != close && !(input.kind(pos) is Error) ==> match input.value(depth, pos) {
            Err(e) => input.value_list(depth, pos, close, items) == Err::<(Seq<Tree>, int), Error>(
                e,
            ),
            Ok((item, q)) => {
                &&& input.kind(q) != TokenKind::Comma ==> input.value_list(depth, pos, close, items)
                    == Ok::<(Seq<Tree>, int), Error>((items.push(item), q))
                &&& goes_on(input, q, TokenKind::Comma) && q > pos ==> input.value_list(
                    depth,
                    pos,
                    close,
                    items,
                ) == input.value_list(depth, q + 1, close, items.push(item))
            },
        },
{
}

/// A list of entities goes on after a comma, and only there, as a list of values does.
pub proof fn law_commas_separate_entities(
    input: Input,
    depth: nat,
    pos: int,
    close: TokenKind,
    items: Seq<NodeTree>,
)
    requires
        !(close is Error),
    ensures
        input.kind(pos) == close ==> input.entity_list(depth, pos, close, items) == Ok::<
            (Seq<NodeTree>, int),
            Error,
        >((items, pos)),
        input.kind(pos) != close && !(input.kind(pos) is Error) ==> match input.entity(depth, pos) {
            Err(e) => input.entity_list(depth, pos, close, items) == Err::<
                (Seq<NodeTree>, int),
                Error,
            >(e),
            Ok((item, q)) => {
                &&& input.kind(q) != TokenKind::Comma ==> input.entity_list(
                    depth,
                    pos,
                    close,
                    items,
                ) == Ok::<(Seq<NodeTree>, int), Error>((items.push(item), q))
                &&& goes_on(input, q, TokenKind::Comma) && q > pos ==> input.entity_list(
                    depth,
                    pos,
                    close,
                    items,
                ) == input.entity_list(depth, q + 1, close, items.push(item))
            },
        },
{
}

/// Generic arguments go on after a comma, and only there, as a list of values does; `>` ends them.
pub proof fn law_commas_separate_generics(
    input: Input,
    depth: nat,
    pos: int,
    items: Seq<Path>,
)
    ensures
        input.kind(pos) == TokenKind::Gt ==> input.path_list(depth, pos, items) == Ok::<
            (Seq<Path>, int),
            Error,
        >((items, pos)),
        input.kind(pos) != TokenKind::Gt && !(input.kind(pos) is Error) ==> match input.path(
            depth,
            pos,
        ) {
            Err(e) => input.path_list(depth, pos, items) == Err::<(Seq<Path>, int), Error>(e),
            Ok((item, q)) => {
                &&& input.kind(q) != TokenKind::Comma ==> input.path_list(depth, pos, items)
                    == Ok::<(Seq<Path>, int), Error>((items.push(item), q))
                &&& goes_on(input, q, TokenKind::Comma) && q > pos ==> input.path_list(
                    depth,
                    pos,
                    items,
                ) == input.path_list(depth, q + 1, items.push(item))
            },
        },
{
}

/// A document ends where the text does, and a body in brackets with its closing bracket.
pub proof fn law_brackets_are_closed(
    input: Input,
    depth: nat,
    pos: int,
    close: TokenKind,
    expected: Seq<Seq<char>>,
    first: Span,
    head: Head,
)
    ensures
        input.document() is Ok ==> (input.entity_list(
            0,
            0,
            TokenKind::Eof,
            Seq::empty(),
        ) matches Ok((roots, q)) && input.kind(q) == TokenKind::Eof && input.document() == Ok::<
            Seq<NodeTree>,
            Error,
        >(roots)),
        input.bracketed(depth, pos, close, expected, first, head) matches Ok((tree, q)) ==> {
            &&& input.kind(q - 1) == close
            &&& tree.head == head
            &&& input.value_list(depth, pos + 1, close, Seq::empty()) == Ok::<
                (Seq<Tree>, int),
                Error,
            >((tree.children, q - 1))
        },
{
}

/// A field is a name, a colon and a value. A name without a colon is refused, and so is `@`.
pub proof fn law_fields_have_a_colon(
    input: Input,
    depth: nat,
    pos: int,
    path: Path,
    names: Seq<Seq<char>>,
    spans: Seq<Span>,
    values: Seq<Tree>,
)
    ensures
        ({
            let parsed = input.fields(depth, pos, path, names, spans, values);
            let t = input.tok(pos);
            &&& t.kind == TokenKind::At ==> stops_at(
                parsed,
                ErrorKind::Unsupported(unsupported::PROP@),
                t.span,
            )
            &&& t.kind == TokenKind::Ident && input.kind(pos + 1) != TokenKind::Colon ==> stops_at(
                parsed,
                ErrorKind::Unsupported(unsupported::SHORTHAND@),
                t.span,
            )
            &&& t.kind == TokenKind::Ident && goes_on(input, pos + 1, TokenKind::Colon)
                ==> match input.value(depth, pos + 2) {
                Err(e) => parsed == Err::<(Tree, int), Error>(e),
                Ok((value, q)) => {
                    &&& goes_on(input, q, TokenKind::Comma) && q > pos ==> parsed == input.fields(
                        depth,
                        q + 1,
                        path,
                        names.push(t.text),
                        spans.push(t.span),
                        values.push(value),
                    )
                    &&& input.kind(q) != TokenKind::Comma ==> (parsed matches Ok((tree, r)) ==> {
                        &&& r == q + 1
                        &&& input.kind(q) == TokenKind::RBrace
                        &&& tree.head == Head::Struct(path)
                        &&& tree.names == names.push(t.text)
                        &&& tree.children == values.push(value)
                    })
                },
            }
            &&& t.kind == TokenKind::RBrace ==> (parsed matches Ok((tree, r)) ==> r == pos + 1
                && tree.head == Head::Struct(path) && tree.names == names && tree.children
                == values)
        }),
{
}

// -- entities -----------------------------------------------------------------------------------

/// What is refused in the body of an entity: a base that is not first, a second name, a path that
/// starts with `::`, an expression, a `use` and an observer.
pub proof fn law_entries_that_are_refused(input: Input, depth: nat, pos: int, parts: Parts)
    ensures
        ({
            let parsed = input.entry(depth, pos, parts);
            let t = input.tok(pos);
            let next = input.tok(pos + 1);
            &&& t.kind == TokenKind::Colon ==> stops_at(parsed, ErrorKind::BaseNotFirst, t.span)
            &&& t.kind == TokenKind::ColonColon ==> stops_at(
                parsed,
                ErrorKind::LeadingPathSeparator,
                t.span,
            )
            &&& t.kind == TokenKind::LBrace ==> stops_at(
                parsed,
                ErrorKind::Unsupported(unsupported::EXPR@),
                t.span,
            )
            &&& t.kind == TokenKind::Hash && next.kind == TokenKind::Ident && parts.name is Some
                ==> stops_at(parsed, ErrorKind::DuplicateName, next.span)
            &&& t.kind == TokenKind::Hash && next.kind == TokenKind::Ident && parts.name is None
                ==> (parsed matches Ok((named, q)) && q == pos + 2 && named.name == Some(next.text)
                && named.base == parts.base && named.entries == parts.entries)
            &&& t.kind == TokenKind::Ident && t.text == "use"@ ==> stops_at(
                parsed,
                ErrorKind::Unsupported(unsupported::USE@),
                t.span,
            )
            &&& t.kind == TokenKind::Ident && t.text != "use"@ && t.text == "on"@ && next.kind
                == TokenKind::LParen ==> stops_at(
                parsed,
                ErrorKind::Unsupported(unsupported::OBSERVER@),
                t.span,
            )
        }),
{
}

/// A base is a colon and a string literal. Anything else behind the colon is refused; without a
/// colon there is no base.
pub proof fn law_bases_are_strings(input: Input, pos: int)
    ensures
        ({
            let parsed = input.base(pos);
            let next = input.tok(pos + 1);
            if input.kind(pos) != TokenKind::Colon {
                parsed matches Ok((parts, q)) && q == pos && parts.base is None
                    && parts.name is None && parts.entries.len() == 0
            } else if next.kind is Error {
                parsed is Err
            } else if next.kind != TokenKind::Str {
                stops_at(parsed, ErrorKind::BaseNotString, next.span)
            } else if string_value(next.text) is None {
                stops_at(parsed, ErrorKind::InvalidEscape, next.span)
            } else {
                parsed matches Ok((parts, q)) && q == pos + 2 && parts.base == string_value(
                    next.text,
                ) && parts.name is None && parts.entries.len() == 0
            }
        }),
{
}

/// An entity without anything in it is refused, unless it stands in parentheses, which have to
/// be closed.
pub proof fn law_entities_are_not_empty(
    input: Input,
    pos: int,
    q: int,
    parenthesized: bool,
    parts: Parts,
)
    ensures
        ({
            let parsed = input.entity_end(pos, q, parenthesized, parts);
            &&& !parenthesized && q == pos ==> parsed is Err
            &&& !parenthesized && q != pos ==> (parsed matches Ok((tree, r)) && r == q
                && tree.children == parts.entries)
            &&& parenthesized && input.kind(q) != TokenKind::RParen ==> parsed is Err
            &&& parenthesized && input.kind(q) == TokenKind::RParen ==> (parsed matches Ok((
                tree,
                r,
            )) && r == q + 1 && tree.children == parts.entries)
        }),
{
}

/// A relation has no prefix: brackets behind a path that has one are refused.
pub proof fn law_relations_have_no_prefix(
    input: Input,
    depth: nat,
    pos: int,
    prefix: BsnPatchPrefix,
    first: Span,
    parts: Parts,
)
    requires
        input.path(depth, pos) matches Ok((path, q)) && pos < q < input.toks.len() && input.kind(q)
            == TokenKind::LBracket,
        prefix != BsnPatchPrefix::FromTemplate,
    ensures
        input.patch(depth, pos, prefix, first, parts) is Err,
{
}

/// What patches and paths in values name are types: the last identifier starts with an uppercase
/// letter and, unless it is a single letter, has a lowercase one. A path that ends otherwise is
/// refused, whatever it is: with an uppercase start as a constant, behind a type as a constructor.
pub proof fn law_paths_name_types(path: Path, lowercase: Seq<char>)
    requires
        last_ident(path).len() > 0,
    ensures
        ({
            let last = last_ident(path);
            let n = path.segments.len();
            let behind_type = n >= 2 && path.segments[n - 2].ident.len() > 0 && spec_is_upper(
                path.segments[n - 2].ident[0],
            );
            match path_problem(path, lowercase) {
                None => spec_is_upper(last[0]) && (last.len() == 1 || exists|i: int|
                    0 <= i < last.len() && spec_is_lower(#[trigger] last[i])),
                Some(e) => e.span == path.span && e.kind == ErrorKind::Unsupported(
                    if spec_is_upper(last[0]) {
                        unsupported::CONST@
                    } else if behind_type {
                        unsupported::CTOR@
                    } else {
                        lowercase
                    },
                ) && (spec_is_upper(last[0]) ==> last.len() > 1 && forall|i: int|
                    0 <= i < last.len() ==> !spec_is_lower(#[trigger] last[i])),
            }
        }),
{
}

// -- values -------------------------------------------------------------------------------------

/// `-` negates an integer; what is below the least integer of 128 bits is out of range. It is
/// refused before anything but a number, `inf` and `NaN`.
pub proof fn law_minus_negates(input: Input, minus: Lexeme, pos: int)
    ensures
        ({
            let parsed = input.negative(minus, pos);
            let t = input.tok(pos);
            match t.kind {
                TokenKind::Int => match magnitude_value(t.text) {
                    Err(kind) => stops_at(parsed, kind, t.span),
                    Ok(v) => if v <= 0x8000_0000_0000_0000_0000_0000_0000_0000 {
                        parsed matches Ok((tree, q)) && q == pos + 1 && tree.head == Head::Int(-v)
                    } else {
                        parsed matches Err(e) && e.kind is NumberOutOfRange
                    },
                },
                TokenKind::Float => true,
                TokenKind::Error(_) => parsed is Err,
                TokenKind::Ident => if t.text == "inf"@ || t.text == "NaN"@ || t.text == "nan"@ {
                    parsed matches Ok((tree, q)) && q == pos + 1 && tree.head is Float
                } else {
                    stops_at(parsed, ErrorKind::NegOperand, t.span)
                },
                _ => stops_at(parsed, ErrorKind::NegOperand, t.span),
            }
        }),
{
}

/// Nothing nests deeper than the limit: at the limit, another value, path or entity is refused.
pub proof fn law_the_limit_holds(input: Input, depth: nat, pos: int)
    requires
        depth >= MAX_NESTING_DEPTH,
    ensures
        stops_at(input.value(depth, pos), ErrorKind::NestingTooDeep, input.tok(pos).span),
        stops_at(input.path(depth, pos), ErrorKind::NestingTooDeep, input.tok(pos).span),
        stops_at(input.entity(depth, pos), ErrorKind::NestingTooDeep, input.tok(pos).span),
{
}

/// An invalid token is refused for what is wrong with it, at its place: each problem has an error
/// of its own, but for the two kinds of strings. An unknown character is named.
pub proof fn law_invalid_tokens_tell_their_problem(input: Input, pos: int)
    ensures
        match (input.kind(pos), input.bad(pos)) {
            (TokenKind::Error(problem), Some(e)) => {
                &&& e.span == input.tok(pos).span
                &&& e.expected.len() == 0
                &&& match problem {
                    LexError::UnterminatedString => e.kind is UnterminatedString,
                    LexError::UnterminatedRawString => e.kind is UnterminatedString,
                    LexError::UnterminatedBlockComment => e.kind is UnterminatedBlockComment,
                    LexError::InvalidEscape => e.kind is InvalidEscape,
                    LexError::InvalidNumber => e.kind is InvalidNumber,
                    LexError::Unknown => input.tok(pos).text.len() > 0 ==> e.kind
                        == ErrorKind::UnknownCharacter(input.tok(pos).text[0]),
                    LexError::NumericSuffix => e.kind == ErrorKind::Unsupported(
                        unsupported::SUFFIX@,
                    ),
                    LexError::RawIdentifier => e.kind == ErrorKind::Unsupported(
                        unsupported::RAW_IDENT@,
                    ),
                    LexError::CharLiteral => e.kind == ErrorKind::Unsupported(unsupported::CHAR@),
                    LexError::Closure => e.kind == ErrorKind::Unsupported(unsupported::CLOSURE@),
                    LexError::Macro => e.kind == ErrorKind::Unsupported(unsupported::MACRO@),
                }
            },
            (TokenKind::Error(_), None) => false,
            (_, problem) => problem is None,
        },
{
}

} // verus!
