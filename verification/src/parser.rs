//! The recursive-descent parser.
//!
//! [`parse`] turns BSN source text into a [`BsnDocument`]. Parsing is fail-fast: the first
//! problem aborts and is returned as a [`BsnParseError`].

use vstd::prelude::*;

use crate::ast::{
    field_ids, field_names, last_ident, lemma_segments_view, paths_view, segment_view,
    segments_view, value_ids, values_view, BsnDocument, BsnNode, BsnPath, BsnPathSegment, BsnValue,
    BsnValueId, BsnValueNode,
};
use crate::chars::{is_lower, is_upper, spec_is_lower};
use crate::error::{plain_error, texts, BsnParseError, BsnParseErrorKind, Error, MAX_NESTING_DEPTH};
use crate::float::{BsnFloat, FloatTable};
use crate::grammar::{
    cover, first_repeat_from, is_const_ident, is_repeat, is_stop, leaf, lex_error_kind,
    path_problem, token_text, unexpected, unsupported_error, Input, Lexeme, Parsed, Tree,
};
use crate::layout::{ids_from, layout, layouts, lemma_layouts_len, sizes};
use crate::literal::{
    decode_float, decode_int, decode_int_magnitude, decode_string, negated_int,
};
use crate::model::{Head, Path, Value};
use crate::name_set::{new_set, set_insert, set_names};
use crate::progress::{
    lemma_path_advances, lemma_path_list_stays, lemma_segment_advances, lemma_value_advances,
};
use crate::span::Span;
use crate::text::{byte_len, chars_of, copy_str, same_text};
use crate::token::{LexError, Token, TokenKind};
use crate::unsupported;

verus! {

/// The lexeme of a token of `source`.
pub open spec fn lexeme(source: Seq<char>, t: Token) -> Lexeme {
    Lexeme { kind: t.kind, text: t.span.spec_text(source), span: t.span }
}

/// The parser's state: a position in the tokens, the nesting depth, and the arenas so far.
pub(crate) struct Parser<'a> {
    pub(crate) source: &'a str,
    pub(crate) floats: &'a FloatTable,
    pub(crate) tokens: Vec<Token>,
    pub(crate) pos: usize,
    pub(crate) depth: u32,
    pub(crate) nodes: Vec<BsnNode>,
    pub(crate) values: Vec<BsnValueNode>,
}

impl<'a> Parser<'a> {
    #[verifier::opaque]
    pub(crate) open spec fn input(&self) -> Input {
        Input {
            toks: self.tokens@.map_values(|t: Token| lexeme(self.source@, t)),
            floats: self.floats@,
        }
    }

    /// The position is inside the tokens, and no more values were allocated than tokens were
    /// consumed, so that every id fits.
    pub(crate) open spec fn wf(&self) -> bool {
        &&& self.input().wf()
        &&& self.input().toks.len() == self.tokens@.len()
        &&& self.input().floats == self.floats@
        &&& self.pos < self.tokens@.len()
        &&& self.tokens@.len() <= u32::MAX + 1
        &&& self.tokens@.len() <= usize::MAX
        &&& byte_len(self.source@) <= u32::MAX
        &&& self.depth <= MAX_NESTING_DEPTH
        &&& self.values@.len() <= self.pos
    }

    /// Both parsers read the same tokens.
    pub(crate) open spec fn same_input(&self, other: &Self) -> bool {
        &&& self.source == other.source
        &&& self.floats == other.floats
        &&& self.tokens == other.tokens
        &&& self.input() == other.input()
    }

    /// A production left the parser at `q`, at the depth where it started.
    pub(crate) open spec fn reached(&self, before: &Self, q: int) -> bool {
        &&& self.wf()
        &&& self.same_input(before)
        &&& self.depth == before.depth
        &&& self.pos == q
    }

    /// Only the position may differ.
    pub(crate) open spec fn same_arenas(&self, before: &Self) -> bool {
        &&& self.nodes == before.nodes
        &&& self.values == before.values
    }

    /// What parsing one value does.
    pub(crate) open spec fn value_parsed(
        &self,
        before: &Self,
        outcome: Parsed<Tree>,
        r: Result<BsnValueId, BsnParseError>,
    ) -> bool {
        match outcome {
            Ok((tree, q)) => {
                &&& r matches Ok(id) && id.0 == before.values@.len()
                &&& self.reached(before, q)
                &&& self.nodes == before.nodes
                &&& values_view(self.values@) == values_view(before.values@) + layout(
                    tree,
                    before.values@.len() as int,
                )
            },
            Err(e) => r matches Err(x) && x@ == e,
        }
    }

    // -- token primitives -----------------------------------------------------------------

    pub(crate) fn peek_token(&self) -> (t: Token)
        requires
            self.wf(),
        ensures
            lexeme(self.source@, t) == self.input().tok(self.pos as int),
            t == self.tokens@[self.pos as int],
            t.kind == self.input().kind(self.pos as int),
            t.span == self.input().tok(self.pos as int).span,
    {
        proof {
            reveal(Parser::input);
        }
        self.tokens[self.pos]
    }

    pub(crate) fn peek(&self) -> (kind: TokenKind)
        requires
            self.wf(),
        ensures
            kind == self.input().kind(self.pos as int),
            kind != TokenKind::Eof ==> self.pos + 1 < self.tokens@.len(),
    {
        proof {
            reveal(Parser::input);
        }
        self.tokens[self.pos].kind
    }

    /// The kind of the token after the next one.
    pub(crate) fn peek_second(&self) -> (kind: TokenKind)
        requires
            self.wf(),
        ensures
            kind == self.input().kind(self.pos + 1),
    {
        proof {
            reveal(Parser::input);
        }
        if self.pos + 1 < self.tokens.len() {
            self.tokens[self.pos + 1].kind
        } else {
            TokenKind::Eof
        }
    }

    /// Consumes a token that is not the last one.
    pub(crate) fn bump(&mut self) -> (t: Token)
        requires
            old(self).wf(),
            old(self).input().kind(old(self).pos as int) != TokenKind::Eof,
        ensures
            final(self).reached(old(self), old(self).pos + 1),
            final(self).same_arenas(old(self)),
            lexeme(old(self).source@, t) == old(self).input().tok(old(self).pos as int),
            t.span == old(self).input().tok(old(self).pos as int).span,
            t.kind == old(self).input().tok(old(self).pos as int).kind,
    {
        proof {
            reveal(Parser::input);
        }
        let t = self.tokens[self.pos];
        self.pos = self.pos + 1;
        t
    }

    /// Consumes a token of the given kind, if it is next.
    pub(crate) fn eat(&mut self, kind: TokenKind) -> (eaten: bool)
        requires
            old(self).wf(),
            kind != TokenKind::Eof,
        ensures
            eaten == (old(self).input().kind(old(self).pos as int) == kind),
            eaten ==> final(self).reached(old(self), old(self).pos + 1),
            !eaten ==> *final(self) == *old(self),
            final(self).same_arenas(old(self)),
    {
        if self.peek() == kind {
            self.bump();
            true
        } else {
            false
        }
    }

    /// Consumes a token of the given kind, or reports what is there instead.
    pub(crate) fn expect(&mut self, kind: TokenKind, expected: &[&'static str]) -> (r: Result<
        Token,
        BsnParseError,
    >)
        requires
            old(self).wf(),
            kind != TokenKind::Eof,
        ensures
            match old(self).input().token(old(self).pos as int, kind, texts(expected@)) {
                Ok(t) => {
                    &&& r matches Ok(x) && lexeme(old(self).source@, x) == t && x.span == t.span
                    &&& final(self).reached(old(self), old(self).pos + 1)
                    &&& final(self).same_arenas(old(self))
                },
                Err(e) => r matches Err(x) && x@ == e,
            },
    {
        match self.check_error_token() {
            Err(e) => {
                return Err(e);
            },
            Ok(()) => {},
        }
        let token = self.peek_token();
        if token.kind == kind {
            self.bump();
            return Ok(token);
        }
        Err(self.unexpected(token, expected))
    }

    /// The span from `first` to the end of the most recently consumed token.
    pub(crate) fn span_from(&self, first: Span) -> (r: Span)
        requires
            self.wf(),
            self.pos > 0,
        ensures
            r == cover(first, self.input().tok(self.pos - 1).span),
    {
        proof {
            reveal(Parser::input);
        }
        Span::new(first.start, self.tokens[self.pos - 1].span.end)
    }

    /// The span from the start of the token at `first` to the end of the most recently consumed
    /// token.
    pub(crate) fn span_between(&self, first: usize) -> (r: Span)
        requires
            self.wf(),
            first < self.pos,
        ensures
            r == cover(
                self.input().tok(first as int).span,
                self.input().tok(self.pos - 1).span,
            ),
    {
        proof {
            reveal(Parser::input);
        }
        self.span_from(self.tokens[first].span)
    }

    /// Builds the error for a token that the grammar does not allow here.
    pub(crate) fn unexpected(&self, token: Token, expected: &[&'static str]) -> (r: BsnParseError)
        ensures
            r@ == unexpected(lexeme(self.source@, token), texts(expected@)),
    {
        let kind = if token.kind == TokenKind::Eof {
            BsnParseErrorKind::UnexpectedEof
        } else {
            BsnParseErrorKind::UnexpectedToken { found: token_desc(token.kind) }
        };
        BsnParseError::expected(token.span, kind, expected)
    }

    /// Turns a [`TokenKind::Error`] at the cursor into the parse error it stands for.
    pub(crate) fn check_error_token(&self) -> (r: Result<(), BsnParseError>)
        requires
            self.wf(),
        ensures
            match self.input().bad(self.pos as int) {
                Some(e) => r matches Err(x) && x@ == e,
                None => r is Ok,
            },
    {
        let token = self.peek_token();
        if let TokenKind::Error(error) = token.kind {
            return Err(lex_error_to_parse_error(error, token.span, self.source));
        }
        Ok(())
    }

    pub(crate) fn unsupported(&self, message: &'static str, span: Span) -> (r: BsnParseError)
        ensures
            r@ == unsupported_error(message@, span),
    {
        BsnParseError::new(span, BsnParseErrorKind::Unsupported(message))
    }

    /// Descends one nesting level, enforcing [`MAX_NESTING_DEPTH`].
    pub(crate) fn enter(&mut self) -> (r: Result<(), BsnParseError>)
        requires
            old(self).wf(),
        ensures
            match old(self).input().too_deep(old(self).depth as nat, old(self).pos as int) {
                Some(e) => r matches Err(x) && x@ == e,
                None => {
                    &&& r is Ok
                    &&& final(self).wf()
                    &&& final(self).same_input(old(self))
                    &&& final(self).same_arenas(old(self))
                    &&& final(self).pos == old(self).pos
                    &&& final(self).depth == old(self).depth + 1
                },
            },
    {
        proof {
            reveal(Parser::input);
        }
        if self.depth >= MAX_NESTING_DEPTH {
            return Err(
                BsnParseError::new(self.peek_token().span, BsnParseErrorKind::NestingTooDeep),
            );
        }
        self.depth = self.depth + 1;
        Ok(())
    }

    /// Comes back up one nesting level.
    pub(crate) fn leave(&mut self)
        requires
            old(self).wf(),
            old(self).depth > 0,
        ensures
            final(self).wf(),
            final(self).same_input(old(self)),
            final(self).same_arenas(old(self)),
            final(self).pos == old(self).pos,
            final(self).depth == old(self).depth - 1,
    {
        proof {
            reveal(Parser::input);
        }
        self.depth = self.depth - 1;
    }

    // -- arenas ---------------------------------------------------------------------------

    /// Reserves the next value id.
    pub(crate) fn alloc_value(&mut self) -> (id: BsnValueId)
        requires
            old(self).wf(),
            old(self).values@.len() < old(self).pos,
        ensures
            id.0 == old(self).values@.len(),
            final(self).values@.len() == old(self).values@.len() + 1,
            final(self).values@.take(old(self).values@.len() as int) == old(self).values@,
            final(self).nodes == old(self).nodes,
            final(self).reached(old(self), old(self).pos as int),
    {
        proof {
            reveal(Parser::input);
        }
        let id = BsnValueId(self.values.len() as u32);
        self.values.push(BsnValueNode { id, span: Span::none(), value: BsnValue::Unit });
        assert(self.values@.take(old(self).values@.len() as int) =~= old(self).values@);
        id
    }

    /// Fills in a reserved value.
    pub(crate) fn finish_value(&mut self, id: BsnValueId, span: Span, value: BsnValue)
        requires
            old(self).wf(),
            (id.0 as int) < old(self).values@.len(),
        ensures
            final(self).values@ == old(self).values@.update(
                id.0 as int,
                BsnValueNode { id, span, value },
            ),
            final(self).nodes == old(self).nodes,
            final(self).reached(old(self), old(self).pos as int),
    {
        proof {
            reveal(Parser::input);
        }
        self.values.set(id.0 as usize, BsnValueNode { id, span, value });
    }

    /// Allocates and finishes a leaf value in one step.
    pub(crate) fn push_value(&mut self, span: Span, value: BsnValue) -> (id: BsnValueId)
        requires
            old(self).wf(),
            old(self).values@.len() < old(self).pos,
            value.names() == Seq::<Seq<char>>::empty(),
            value.children() == Seq::<int>::empty(),
        ensures
            id.0 == old(self).values@.len(),
            final(self).reached(old(self), old(self).pos as int),
            final(self).nodes == old(self).nodes,
            values_view(final(self).values@) == values_view(old(self).values@) + layout(
                leaf(span, value.head()),
                old(self).values@.len() as int,
            ),
    {
        proof {
            reveal(Parser::input);
        }
        let id = BsnValueId(self.values.len() as u32);
        self.values.push(BsnValueNode { id, span, value });
        proof {
            let t = leaf(span, value.head());
            assert(layouts(t.children, id.0 + 1) =~= Seq::<Value>::empty());
            assert(ids_from(t.children, id.0 + 1) =~= Seq::<int>::empty());
            assert(values_view(self.values@) =~= values_view(old(self).values@) + layout(
                t,
                id.0 as int,
            ));
        }
        id
    }

    // -- paths ----------------------------------------------------------------------------

    /// `path`
    pub(crate) fn parse_path(&mut self) -> (r: Result<BsnPath, BsnParseError>)
        requires
            old(self).wf(),
        ensures
            match old(self).input().path(old(self).depth as nat, old(self).pos as int) {
                Ok((path, q)) => {
                    &&& r matches Ok(x) && x@ == path
                    &&& final(self).reached(old(self), q)
                    &&& final(self).same_arenas(old(self))
                },
                Err(e) => r matches Err(x) && x@ == e,
            },
        decreases MAX_NESTING_DEPTH - old(self).depth, old(self).tokens@.len() - old(self).pos, 0nat,
    {
        match self.enter() {
            Err(e) => {
                return Err(e);
            },
            Ok(()) => {},
        }
        let result = self.parse_path_inner();
        if result.is_ok() {
            self.leave();
        }
        result
    }

    /// `path = path_segment { "::" path_segment }`
    #[verifier::loop_isolation(false)]
    pub(crate) fn parse_path_inner(&mut self) -> (r: Result<BsnPath, BsnParseError>)
        requires
            old(self).wf(),
        ensures
            match old(self).input().path_inner(old(self).depth as nat, old(self).pos as int) {
                Ok((path, q)) => {
                    &&& r matches Ok(x) && x@ == path
                    &&& final(self).reached(old(self), q)
                    &&& final(self).same_arenas(old(self))
                },
                Err(e) => r matches Err(x) && x@ == e,
            },
        decreases MAX_NESTING_DEPTH - old(self).depth, old(self).tokens@.len() - old(self).pos, 3nat,
    {
        let ghost input = self.input();
        let ghost depth = self.depth as nat;
        let ghost start = self.pos as int;
        match self.check_error_token() {
            Err(e) => {
                return Err(e);
            },
            Ok(()) => {},
        }
        if self.peek() == TokenKind::ColonColon {
            return Err(
                BsnParseError::new(
                    self.peek_token().span,
                    BsnParseErrorKind::LeadingPathSeparator,
                ),
            );
        }
        proof {
            lemma_segment_advances(input, depth, start);
        }
        let first = match self.parse_path_segment() {
            Err(e) => {
                return Err(e);
            },
            Ok(segment) => segment,
        };
        let mut segments: Vec<BsnPathSegment> = Vec::new();
        segments.push(first);
        proof {
            assert(segments@.drop_last() =~= Seq::<BsnPathSegment>::empty());
            assert(segments_view(segments@) =~= seq![segment_view(first)]) by {
                reveal_with_fuel(segments_view, 2);
            }
        }
        while self.peek() == TokenKind::ColonColon
            invariant
                self.reached(old(self), self.pos as int),
                self.same_arenas(old(self)),
                segments@.len() > 0,
                start < self.pos,
                input.path_inner(depth, start) == input.more_segments(
                    depth,
                    self.pos as int,
                    segments_view(segments@),
                ),
            decreases self.tokens@.len() - self.pos,
        {
            let ghost at = self.pos as int;
            let ghost so_far = segments@;
            self.bump();
            proof {
                lemma_segment_advances(input, depth, at + 1);
            }
            match self.parse_path_segment() {
                Err(e) => {
                    return Err(e);
                },
                Ok(segment) => {
                    segments.push(segment);
                    assert(segments@.drop_last() =~= so_far);
                },
            }
        }
        proof {
            lemma_segments_view(segments@);
        }
        let span = segments[0].span.join(segments[segments.len() - 1].span);
        Ok(BsnPath { segments, span })
    }

    /// `path_segment = IDENT [ "<" path { "," path } [ "," ] ">" ]`
    pub(crate) fn parse_path_segment(&mut self) -> (r: Result<BsnPathSegment, BsnParseError>)
        requires
            old(self).wf(),
        ensures
            match old(self).input().segment(old(self).depth as nat, old(self).pos as int) {
                Ok((segment, q)) => {
                    &&& r matches Ok(x) && segment_view(x) == segment
                    &&& final(self).reached(old(self), q)
                    &&& final(self).same_arenas(old(self))
                },
                Err(e) => r matches Err(x) && x@ == e,
            },
        decreases MAX_NESTING_DEPTH - old(self).depth, old(self).tokens@.len() - old(self).pos, 2nat,
    {
        let ghost input = self.input();
        let ghost depth = self.depth as nat;
        let ghost start = self.pos as int;
        let expected: [&'static str; 1] = ["identifier"];
        assert(texts(expected@) =~= seq!["identifier"@]);
        let ident = match self.expect(TokenKind::Ident, &expected) {
            Err(e) => {
                return Err(e);
            },
            Ok(token) => token,
        };
        let mut generics: Vec<BsnPath> = Vec::new();
        assert(paths_view(generics@) =~= Seq::<Path>::empty());
        if self.eat(TokenKind::Lt) {
            proof {
                lemma_path_list_stays(input, depth, start + 2, Seq::empty());
            }
            generics = match self.parse_path_list() {
                Err(e) => {
                    return Err(e);
                },
                Ok(list) => list,
            };
            let expected: [&'static str; 2] = ["`,`", "`>`"];
            assert(texts(expected@) =~= seq!["`,`"@, "`>`"@]);
            match self.expect(TokenKind::Gt, &expected) {
                Err(e) => {
                    return Err(e);
                },
                Ok(_) => {},
            }
        }
        let span = self.span_from(ident.span);
        let text = ident.span.text(self.source);
        Ok(BsnPathSegment { ident: copy_str(text), generics, span })
    }

    /// Comma-separated generic arguments, up to (not including) a `>`.
    #[verifier::loop_isolation(false)]
    pub(crate) fn parse_path_list(&mut self) -> (r: Result<Vec<BsnPath>, BsnParseError>)
        requires
            old(self).wf(),
        ensures
            match old(self).input().path_list(
                old(self).depth as nat,
                old(self).pos as int,
                Seq::empty(),
            ) {
                Ok((paths, q)) => {
                    &&& r matches Ok(x) && paths_view(x@) == paths
                    &&& final(self).reached(old(self), q)
                    &&& final(self).same_arenas(old(self))
                },
                Err(e) => r matches Err(x) && x@ == e,
            },
        decreases MAX_NESTING_DEPTH - old(self).depth, old(self).tokens@.len() - old(self).pos, 1nat,
    {
        let ghost input = self.input();
        let ghost depth = self.depth as nat;
        let ghost start = self.pos as int;
        let mut items: Vec<BsnPath> = Vec::new();
        assert(paths_view(items@) =~= Seq::<Path>::empty());
        loop
            invariant
                self.reached(old(self), self.pos as int),
                self.same_arenas(old(self)),
                start <= self.pos,
                input.path_list(depth, start, Seq::empty()) == input.path_list(
                    depth,
                    self.pos as int,
                    paths_view(items@),
                ),
            decreases self.tokens@.len() - self.pos,
        {
            let ghost at = self.pos as int;
            let ghost so_far = items@;
            match self.check_error_token() {
                Err(e) => {
                    return Err(e);
                },
                Ok(()) => {},
            }
            if self.peek() == TokenKind::Gt {
                return Ok(items);
            }
            proof {
                lemma_path_advances(input, depth, at);
            }
            match self.parse_path() {
                Err(e) => {
                    return Err(e);
                },
                Ok(path) => {
                    items.push(path);
                    assert(items@.drop_last() =~= so_far);
                },
            }
            if !self.eat(TokenKind::Comma) {
                return Ok(items);
            }
        }
    }

    /// Rejects paths that name Rust items an asset cannot reach: functions, constructors and
    /// constants. Casing is the same signal the `bsn!` macro uses.
    ///
    /// `lowercase` is the diagnostic for a lowercase-initial path that is not a constructor:
    /// [`unsupported::FN`] in entry position, [`unsupported::PATH_CASE`] in value position.
    pub(crate) fn classify_path(&self, path: &BsnPath, lowercase: &'static str) -> (r: Result<
        (),
        BsnParseError,
    >)
        ensures
            match path_problem(path@, lowercase@) {
                Some(e) => r matches Err(x) && x@ == e,
                None => r is Ok,
            },
    {
        proof {
            lemma_segments_view(path.segments@);
        }
        let last = chars_of(path.last_ident());
        if last.len() == 0 {
            return Ok(());
        }
        if is_upper(last[0]) {
            if is_const(&last) {
                return Err(self.unsupported(unsupported::CONST, path.span));
            }
            return Ok(());
        }
        if path.segments.len() >= 2 {
            let previous = chars_of(path.segments[path.segments.len() - 2].ident.as_str());
            if previous.len() > 0 && is_upper(previous[0]) {
                return Err(self.unsupported(unsupported::CTOR, path.span));
            }
        }
        Err(self.unsupported(lowercase, path.span))
    }

    // -- values ---------------------------------------------------------------------------

    /// `value`
    pub(crate) fn parse_value(&mut self) -> (r: Result<BsnValueId, BsnParseError>)
        requires
            old(self).wf(),
        ensures
            final(self).value_parsed(
                old(self),
                old(self).input().value(old(self).depth as nat, old(self).pos as int),
                r,
            ),
        decreases MAX_NESTING_DEPTH - old(self).depth, old(self).tokens@.len() - old(self).pos, 0nat,
    {
        match self.enter() {
            Err(e) => {
                return Err(e);
            },
            Ok(()) => {},
        }
        let result = self.parse_value_inner();
        if result.is_ok() {
            self.leave();
        }
        result
    }

    pub(crate) fn parse_value_inner(&mut self) -> (r: Result<BsnValueId, BsnParseError>)
        requires
            old(self).wf(),
        ensures
            final(self).value_parsed(
                old(self),
                old(self).input().value_inner(old(self).depth as nat, old(self).pos as int),
                r,
            ),
        decreases MAX_NESTING_DEPTH - old(self).depth, old(self).tokens@.len() - old(self).pos, 9nat,
    {
        match self.check_error_token() {
            Err(e) => {
                return Err(e);
            },
            Ok(()) => {},
        }
        let token = self.peek_token();
        match token.kind {
            TokenKind::Int => {
                self.bump();
                match decode_int(self.source, token.span) {
                    Err(e) => Err(e),
                    Ok(value) => Ok(self.push_value(token.span, BsnValue::Int(value))),
                }
            },
            TokenKind::Float => {
                self.bump();
                match decode_float(self.source, token.span, self.floats) {
                    Err(e) => Err(e),
                    Ok(value) => Ok(self.push_value(token.span, BsnValue::Float(value))),
                }
            },
            TokenKind::Str => {
                self.bump();
                match decode_string(self.source, token.span) {
                    Err(e) => Err(e),
                    Ok(value) => Ok(self.push_value(token.span, BsnValue::String(value))),
                }
            },
            TokenKind::Minus => {
                self.bump();
                self.parse_negative(token)
            },
            TokenKind::Hash => {
                self.bump();
                let expected: [&'static str; 1] = ["identifier"];
                assert(texts(expected@) =~= seq!["identifier"@]);
                match self.expect(TokenKind::Ident, &expected) {
                    Err(e) => Err(e),
                    Ok(ident) => {
                        let name = copy_str(ident.span.text(self.source));
                        Ok(self.push_value(token.span.join(ident.span), BsnValue::EntityRef(name)))
                    },
                }
            },
            TokenKind::LBracket => self.parse_list_value(),
            TokenKind::LParen => self.parse_paren_value(),
            TokenKind::LBrace => Err(self.unsupported(unsupported::EXPR, token.span)),
            TokenKind::ColonColon => Err(
                BsnParseError::new(token.span, BsnParseErrorKind::LeadingPathSeparator),
            ),
            TokenKind::Ident => {
                let text = token.span.text(self.source);
                if same_text(text, "true") {
                    self.bump();
                    Ok(self.push_value(token.span, BsnValue::Bool(true)))
                } else if same_text(text, "false") {
                    self.bump();
                    Ok(self.push_value(token.span, BsnValue::Bool(false)))
                } else if same_text(text, "inf") {
                    self.bump();
                    Ok(self.push_value(token.span, BsnValue::Float(BsnFloat::infinite())))
                } else if same_text(text, "NaN") || same_text(text, "nan") {
                    self.bump();
                    Ok(self.push_value(token.span, BsnValue::Float(BsnFloat::quiet_nan())))
                } else if (same_text(text, "const") || same_text(text, "unsafe"))
                    && self.peek_second() == TokenKind::LBrace {
                    Err(self.unsupported(unsupported::EXPR, token.span))
                } else {
                    self.parse_path_value()
                }
            },
            _ => {
                let expected: [&'static str; 9] = [
                    "a value",
                    "number",
                    "string literal",
                    "`true`",
                    "`false`",
                    "type path",
                    "`#`",
                    "`[`",
                    "`(`",
                ];
                assert(texts(expected@) =~= seq![
                    "a value"@,
                    "number"@,
                    "string literal"@,
                    "`true`"@,
                    "`false`"@,
                    "type path"@,
                    "`#`"@,
                    "`[`"@,
                    "`(`"@,
                ]);
                Err(self.unexpected(token, &expected))
            },
        }
    }

    /// `list_value = "[" [ value { "," value } [ "," ] ] "]"`
    pub(crate) fn parse_list_value(&mut self) -> (r: Result<BsnValueId, BsnParseError>)
        requires
            old(self).wf(),
            old(self).input().kind(old(self).pos as int) == TokenKind::LBracket,
        ensures
            final(self).value_parsed(
                old(self),
                old(self).input().bracketed(
                    old(self).depth as nat,
                    old(self).pos as int,
                    TokenKind::RBracket,
                    seq!["`,`"@, "`]`"@],
                    old(self).input().tok(old(self).pos as int).span,
                    Head::List,
                ),
                r,
            ),
        decreases MAX_NESTING_DEPTH - old(self).depth, old(self).tokens@.len() - old(self).pos, 6nat,
    {
        let ghost input = self.input();
        let ghost depth = self.depth as nat;
        let ghost start = self.pos as int;
        let open = self.bump();
        let ghost v0 = self.values@;
        let id = self.alloc_value();
        let ghost v1 = self.values@;
        let expected: [&'static str; 2] = ["`,`", "`]`"];
        assert(texts(expected@) =~= seq!["`,`"@, "`]`"@]);
        let items = match self.parse_items(TokenKind::RBracket, &expected) {
            Err(e) => {
                return Err(e);
            },
            Ok(items) => items,
        };
        let ghost v2 = self.values@;
        let span = self.span_from(open.span);
        self.finish_value(id, span, BsnValue::List(items));
        proof {
            let children = input.value_list(
                depth,
                start + 1,
                TokenKind::RBracket,
                Seq::empty(),
            )->Ok_0.0;
            lemma_finished(
                v0,
                v1,
                v2,
                self.values@,
                Tree { span, head: Head::List, names: Seq::empty(), children },
            );
        }
        Ok(id)
    }

    /// A number, `inf` or `NaN` after the `-` token `minus`.
    pub(crate) fn parse_negative(&mut self, minus: Token) -> (r: Result<BsnValueId, BsnParseError>)
        requires
            old(self).wf(),
            old(self).values@.len() < old(self).pos,
        ensures
            final(self).value_parsed(
                old(self),
                old(self).input().negative(
                    lexeme(old(self).source@, minus),
                    old(self).pos as int,
                ),
                r,
            ),
    {
        match self.check_error_token() {
            Err(e) => {
                return Err(e);
            },
            Ok(()) => {},
        }
        let next = self.peek_token();
        let span = minus.span.join(next.span);
        match next.kind {
            TokenKind::Int => {
                self.bump();
                // The magnitude of `i128::MIN` is one past `i128::MAX`, so the literal only
                // fits while it is still unsigned.
                match decode_int_magnitude(self.source, next.span) {
                    Err(e) => Err(e),
                    Ok(magnitude) => if magnitude
                        <= 0x8000_0000_0000_0000_0000_0000_0000_0000u128 {
                        Ok(self.push_value(span, BsnValue::Int(negated_int(magnitude))))
                    } else {
                        Err(BsnParseError::new(span, BsnParseErrorKind::NumberOutOfRange))
                    },
                }
            },
            TokenKind::Float => {
                self.bump();
                match decode_float(self.source, next.span, self.floats) {
                    Err(e) => Err(e),
                    Ok(value) => Ok(self.push_value(span, BsnValue::Float(value.negate()))),
                }
            },
            TokenKind::Ident => {
                let text = next.span.text(self.source);
                if same_text(text, "inf") {
                    self.bump();
                    Ok(self.push_value(span, BsnValue::Float(BsnFloat::infinite().negate())))
                } else if same_text(text, "NaN") || same_text(text, "nan") {
                    self.bump();
                    Ok(self.push_value(span, BsnValue::Float(BsnFloat::quiet_nan().negate())))
                } else {
                    Err(BsnParseError::new(next.span, BsnParseErrorKind::NegOperand))
                }
            },
            _ => Err(BsnParseError::new(next.span, BsnParseErrorKind::NegOperand)),
        }
    }

    /// The values of a bracketed list and its closing token.
    pub(crate) fn parse_items(&mut self, close: TokenKind, expected: &[&'static str]) -> (r: Result<
        Vec<BsnValueId>,
        BsnParseError,
    >)
        requires
            old(self).wf(),
            close != TokenKind::Eof,
        ensures
            match old(self).input().value_list(
                old(self).depth as nat,
                old(self).pos as int,
                close,
                Seq::empty(),
            ) {
                Err(e) => r matches Err(x) && x@ == e,
                Ok((items, q)) => match old(self).input().token(q, close, texts(expected@)) {
                    Err(e) => r matches Err(x) && x@ == e,
                    Ok(_) => {
                        &&& r matches Ok(ids) && value_ids(ids@) == ids_from(
                            items,
                            old(self).values@.len() as int,
                        )
                        &&& final(self).reached(old(self), q + 1)
                        &&& final(self).nodes == old(self).nodes
                        &&& final(self).values@.len() >= old(self).values@.len()
                        &&& values_view(final(self).values@) == values_view(old(self).values@)
                            + layouts(items, old(self).values@.len() as int)
                    },
                },
            },
        decreases MAX_NESTING_DEPTH - old(self).depth, old(self).tokens@.len() - old(self).pos, 5nat,
    {
        let items = match self.parse_value_list(close) {
            Err(e) => {
                return Err(e);
            },
            Ok(items) => items,
        };
        match self.expect(close, expected) {
            Err(e) => Err(e),
            Ok(_) => Ok(items),
        }
    }

    /// Comma-separated values, up to (not including) a `close` token.
    #[verifier::loop_isolation(false)]
    pub(crate) fn parse_value_list(&mut self, close: TokenKind) -> (r: Result<
        Vec<BsnValueId>,
        BsnParseError,
    >)
        requires
            old(self).wf(),
        ensures
            match old(self).input().value_list(
                old(self).depth as nat,
                old(self).pos as int,
                close,
                Seq::empty(),
            ) {
                Err(e) => r matches Err(x) && x@ == e,
                Ok((items, q)) => {
                    &&& r matches Ok(ids) && value_ids(ids@) == ids_from(
                        items,
                        old(self).values@.len() as int,
                    )
                    &&& final(self).reached(old(self), q)
                    &&& final(self).nodes == old(self).nodes
                    &&& final(self).values@.len() >= old(self).values@.len()
                    &&& values_view(final(self).values@) == values_view(old(self).values@)
                        + layouts(items, old(self).values@.len() as int)
                },
            },
        decreases MAX_NESTING_DEPTH - old(self).depth, old(self).tokens@.len() - old(self).pos, 4nat,
    {
        let ghost input = self.input();
        let ghost depth = self.depth as nat;
        let ghost start = self.pos as int;
        let ghost base = self.values@.len() as int;
        let ghost v0 = values_view(self.values@);
        let ghost mut trees = Seq::<Tree>::empty();
        let mut items: Vec<BsnValueId> = Vec::new();
        assert(value_ids(items@) =~= ids_from(trees, base));
        assert(v0 + layouts(trees, base) =~= v0);
        loop
            invariant
                self.reached(old(self), self.pos as int),
                self.nodes == old(self).nodes,
                start <= self.pos,
                input.value_list(depth, start, close, Seq::empty()) == input.value_list(
                    depth,
                    self.pos as int,
                    close,
                    trees,
                ),
                value_ids(items@) == ids_from(trees, base),
                values_view(self.values@) == v0 + layouts(trees, base),
            decreases self.tokens@.len() - self.pos,
        {
            let ghost at = self.pos as int;
            let ghost ids = items@;
            let ghost now = values_view(self.values@);
            match self.check_error_token() {
                Err(e) => {
                    return Err(e);
                },
                Ok(()) => {},
            }
            if self.peek() == close {
                return Ok(items);
            }
            proof {
                lemma_value_advances(input, depth, at);
                lemma_layouts_len(trees, base);
                assert(now.len() == self.values@.len());
            }
            match self.parse_value() {
                Err(e) => {
                    return Err(e);
                },
                Ok(id) => {
                    items.push(id);
                    proof {
                        let tree = input.value(depth, at)->Ok_0.0;
                        let longer = trees.push(tree);
                        assert(longer.drop_last() =~= trees);
                        assert(value_ids(items@) =~= ids_from(longer, base));
                        assert(v0 + layouts(longer, base) =~= now + layout(
                            tree,
                            base + sizes(trees),
                        ));
                        trees = longer;
                    }
                },
            }
            if !self.eat(TokenKind::Comma) {
                return Ok(items);
            }
        }
    }

    /// `paren_value` — unit, grouping or tuple.
    pub(crate) fn parse_paren_value(&mut self) -> (r: Result<BsnValueId, BsnParseError>)
        requires
            old(self).wf(),
            old(self).input().kind(old(self).pos as int) == TokenKind::LParen,
        ensures
            final(self).value_parsed(
                old(self),
                old(self).input().paren_value(old(self).depth as nat, old(self).pos as int),
                r,
            ),
        decreases MAX_NESTING_DEPTH - old(self).depth, old(self).tokens@.len() - old(self).pos, 8nat,
    {
        let ghost input = self.input();
        let ghost depth = self.depth as nat;
        let ghost start = self.pos as int;
        let open = self.bump();
        if self.peek() == TokenKind::RParen {
            let close = self.bump();
            return Ok(self.push_value(open.span.join(close.span), BsnValue::Unit));
        }
        if !self.paren_has_top_level_comma() {
            proof {
                lemma_value_advances(input, depth, start + 1);
            }
            let value = match self.parse_value() {
                Err(e) => {
                    return Err(e);
                },
                Ok(value) => value,
            };
            let expected: [&'static str; 2] = ["`)`", "`,`"];
            assert(texts(expected@) =~= seq!["`)`"@, "`,`"@]);
            return match self.expect(TokenKind::RParen, &expected) {
                Err(e) => Err(e),
                Ok(_) => Ok(value),
            };
        }
        let ghost v0 = self.values@;
        let id = self.alloc_value();
        let ghost v1 = self.values@;
        let expected: [&'static str; 2] = ["`,`", "`)`"];
        assert(texts(expected@) =~= seq!["`,`"@, "`)`"@]);
        let items = match self.parse_items(TokenKind::RParen, &expected) {
            Err(e) => {
                return Err(e);
            },
            Ok(items) => items,
        };
        let ghost v2 = self.values@;
        let span = self.span_from(open.span);
        self.finish_value(id, span, BsnValue::Tuple(items));
        proof {
            let children = input.value_list(
                depth,
                start + 1,
                TokenKind::RParen,
                Seq::empty(),
            )->Ok_0.0;
            lemma_finished(
                v0,
                v1,
                v2,
                self.values@,
                Tree { span, head: Head::Tuple, names: Seq::empty(), children },
            );
        }
        Ok(id)
    }

    /// Looks ahead for a comma at the top level of the parenthesized group the cursor is
    /// currently inside, which distinguishes `(v)` (grouping) from `(v,)` (a 1-tuple).
    ///
    /// Generic argument lists count as nesting too, so the separator in `(Pair<f32, f32>)`
    /// does not make the group look like a tuple. A `>` only closes an angle group when one
    /// is open, so a stray `>` cannot drive the depth negative and hide a real comma.
    pub(crate) fn paren_has_top_level_comma(&self) -> (r: bool)
        requires
            self.wf(),
        ensures
            r == self.input().comma_ahead(self.pos as int, 0, 0),
    {
        proof {
            reveal(Parser::input);
        }
        let ghost input = self.input();
        let mut depth: usize = 0;
        let mut angle_depth: usize = 0;
        let mut index: usize = self.pos;
        while index < self.tokens.len()
            invariant
                self.wf(),
                input == self.input(),
                self.pos <= index <= self.tokens@.len(),
                depth + angle_depth <= index - self.pos,
                input.comma_ahead(self.pos as int, 0, 0) == input.comma_ahead(
                    index as int,
                    depth as nat,
                    angle_depth as nat,
                ),
            decreases self.tokens@.len() - index,
        {
            proof {
                reveal(Parser::input);
            }
            match self.tokens[index].kind {
                TokenKind::LParen | TokenKind::LBracket | TokenKind::LBrace => {
                    depth = depth + 1;
                },
                TokenKind::RParen | TokenKind::RBracket | TokenKind::RBrace => {
                    if depth == 0 {
                        return false;
                    }
                    depth = depth - 1;
                },
                TokenKind::Lt => {
                    angle_depth = angle_depth + 1;
                },
                TokenKind::Gt => {
                    if angle_depth > 0 {
                        angle_depth = angle_depth - 1;
                    }
                },
                TokenKind::Comma => {
                    if depth == 0 && angle_depth == 0 {
                        return true;
                    }
                },
                TokenKind::Eof => {
                    return false;
                },
                _ => {},
            }
            index = index + 1;
        }
        false
    }

    /// `path_value = path [ struct_body | tuple_body ]`
    pub(crate) fn parse_path_value(&mut self) -> (r: Result<BsnValueId, BsnParseError>)
        requires
            old(self).wf(),
        ensures
            final(self).value_parsed(
                old(self),
                old(self).input().path_value(old(self).depth as nat, old(self).pos as int),
                r,
            ),
        decreases MAX_NESTING_DEPTH - old(self).depth, old(self).tokens@.len() - old(self).pos, 8nat,
    {
        proof {
            lemma_path_advances(self.input(), self.depth as nat, self.pos as int);
        }
        let path = match self.parse_path() {
            Err(e) => {
                return Err(e);
            },
            Ok(path) => path,
        };
        match self.check_error_token() {
            Err(e) => {
                return Err(e);
            },
            Ok(()) => {},
        }
        match self.classify_path(&path, unsupported::PATH_CASE) {
            Err(e) => {
                return Err(e);
            },
            Ok(()) => {},
        }
        self.parse_path_body(path)
    }

    /// What follows a path in patch or value position: nothing, a struct body or a tuple body.
    pub(crate) fn parse_path_body(&mut self, path: BsnPath) -> (r: Result<BsnValueId, BsnParseError>)
        requires
            old(self).wf(),
            old(self).values@.len() < old(self).pos,
        ensures
            final(self).value_parsed(
                old(self),
                old(self).input().path_body(
                    old(self).depth as nat,
                    old(self).pos as int,
                    path@,
                ),
                r,
            ),
        decreases MAX_NESTING_DEPTH - old(self).depth, old(self).tokens@.len() - old(self).pos, 7nat,
    {
        let ghost input = self.input();
        let ghost depth = self.depth as nat;
        let ghost start = self.pos as int;
        match self.peek() {
            TokenKind::LBrace => self.parse_struct_body(path),
            TokenKind::LParen => self.parse_tuple_body(path),
            _ => {
                let span = path.span;
                Ok(self.push_value(span, BsnValue::Path(path)))
            },
        }
    }

    /// `tuple_body = "(" [ value { "," value } [ "," ] ] ")"`
    pub(crate) fn parse_tuple_body(&mut self, path: BsnPath) -> (r: Result<BsnValueId, BsnParseError>)
        requires
            old(self).wf(),
            old(self).values@.len() < old(self).pos,
            old(self).input().kind(old(self).pos as int) == TokenKind::LParen,
        ensures
            final(self).value_parsed(
                old(self),
                old(self).input().bracketed(
                    old(self).depth as nat,
                    old(self).pos as int,
                    TokenKind::RParen,
                    seq!["`,`"@, "`)`"@],
                    path.span,
                    Head::NamedTuple(path@),
                ),
                r,
            ),
        decreases MAX_NESTING_DEPTH - old(self).depth, old(self).tokens@.len() - old(self).pos, 6nat,
    {
        let ghost input = self.input();
        let ghost depth = self.depth as nat;
        let ghost start = self.pos as int;
        let ghost model = path@;
        self.bump();
        let ghost v0 = self.values@;
        let id = self.alloc_value();
        let ghost v1 = self.values@;
        let expected: [&'static str; 2] = ["`,`", "`)`"];
        assert(texts(expected@) =~= seq!["`,`"@, "`)`"@]);
        let items = match self.parse_items(TokenKind::RParen, &expected) {
            Err(e) => {
                return Err(e);
            },
            Ok(items) => items,
        };
        let ghost v2 = self.values@;
        let span = self.span_from(path.span);
        self.finish_value(id, span, BsnValue::NamedTuple(path, items));
        proof {
            let children = input.value_list(
                depth,
                start + 1,
                TokenKind::RParen,
                Seq::empty(),
            )->Ok_0.0;
            lemma_finished(
                v0,
                v1,
                v2,
                self.values@,
                Tree { span, head: Head::NamedTuple(model), names: Seq::empty(), children },
            );
        }
        Ok(id)
    }

    /// `struct_body = "{" [ field { "," field } [ "," ] ] "}"`
    pub(crate) fn parse_struct_body(&mut self, path: BsnPath) -> (r: Result<BsnValueId, BsnParseError>)
        requires
            old(self).wf(),
            old(self).values@.len() < old(self).pos,
            old(self).input().kind(old(self).pos as int) == TokenKind::LBrace,
        ensures
            final(self).value_parsed(
                old(self),
                old(self).input().fields(
                    old(self).depth as nat,
                    old(self).pos + 1,
                    path@,
                    Seq::empty(),
                    Seq::empty(),
                    Seq::empty(),
                ),
                r,
            ),
        decreases MAX_NESTING_DEPTH - old(self).depth, old(self).tokens@.len() - old(self).pos, 6nat,
    {
        let ghost model = path@;
        self.bump();
        let ghost v0 = self.values@;
        let id = self.alloc_value();
        let ghost v1 = self.values@;
        let (fields, name_spans, Ghost(trees)) = match self.parse_fields(Ghost(model)) {
            Err(e) => {
                return Err(e);
            },
            Ok(parsed) => parsed,
        };
        if let Some(duplicate) = first_duplicate_field(&fields) {
            return Err(
                BsnParseError::new(
                    name_spans[duplicate],
                    BsnParseErrorKind::DuplicateField(copy_str(fields[duplicate].0.as_str())),
                ),
            );
        }
        let expected: [&'static str; 2] = ["`,`", "`}`"];
        assert(texts(expected@) =~= seq!["`,`"@, "`}`"@]);
        match self.expect(TokenKind::RBrace, &expected) {
            Err(e) => {
                return Err(e);
            },
            Ok(_) => {},
        }
        let ghost v2 = self.values@;
        let ghost names = field_names(fields@);
        let span = self.span_from(path.span);
        self.finish_value(id, span, BsnValue::Struct(path, fields));
        proof {
            lemma_finished(
                v0,
                v1,
                v2,
                self.values@,
                Tree { span, head: Head::Struct(model), names, children: trees },
            );
        }
        Ok(id)
    }

    /// The fields of a struct body, up to (not including) its `}`, with the spans of their
    /// names.
    #[verifier::loop_isolation(false)]
    pub(crate) fn parse_fields(&mut self, Ghost(path): Ghost<Path>) -> (r: Result<
        (Vec<(String, BsnValueId)>, Vec<Span>, Ghost<Seq<Tree>>),
        BsnParseError,
    >)
        requires
            old(self).wf(),
        ensures
            ({
                let outcome = old(self).input().fields(
                    old(self).depth as nat,
                    old(self).pos as int,
                    path,
                    Seq::empty(),
                    Seq::empty(),
                    Seq::empty(),
                );
                match r {
                    Err(x) => outcome == Err::<(Tree, int), Error>(x@),
                    Ok((fields, spans, trees)) => {
                        &&& outcome == old(self).input().fields_end(
                            final(self).pos as int,
                            path,
                            field_names(fields@),
                            spans@,
                            trees@,
                        )
                        &&& final(self).reached(old(self), final(self).pos as int)
                        &&& final(self).nodes == old(self).nodes
                        &&& spans@.len() == fields@.len()
                        &&& field_ids(fields@) == ids_from(trees@, old(self).values@.len() as int)
                        &&& final(self).values@.len() >= old(self).values@.len()
                        &&& values_view(final(self).values@) == values_view(old(self).values@)
                            + layouts(trees@, old(self).values@.len() as int)
                    },
                }
            }),
        decreases MAX_NESTING_DEPTH - old(self).depth, old(self).tokens@.len() - old(self).pos, 5nat,
    {
        let ghost input = self.input();
        let ghost depth = self.depth as nat;
        let ghost v1 = values_view(self.values@);
        let ghost base = self.values@.len() as int;
        let ghost start = self.pos as int;
        let mut fields: Vec<(String, BsnValueId)> = Vec::new();
        let mut name_spans: Vec<Span> = Vec::new();
        let ghost mut trees = Seq::<Tree>::empty();
        assert(field_names(fields@) =~= Seq::<Seq<char>>::empty());
        assert(field_ids(fields@) =~= ids_from(trees, base));
        assert(v1 + layouts(trees, base) =~= v1);
        assert(name_spans@ =~= Seq::<Span>::empty());
        loop
            invariant
                self.reached(old(self), self.pos as int),
                self.nodes == old(self).nodes,
                start <= self.pos,
                input.fields(depth, start, path, Seq::empty(), Seq::empty(), Seq::empty())
                    == input.fields(
                    depth,
                    self.pos as int,
                    path,
                    field_names(fields@),
                    name_spans@,
                    trees,
                ),
                field_ids(fields@) == ids_from(trees, base),
                name_spans@.len() == fields@.len(),
                values_view(self.values@) == v1 + layouts(trees, base),
            decreases self.tokens@.len() - self.pos,
        {
            let ghost at = self.pos as int;
            let ghost fields_before = fields@;
            let ghost now = values_view(self.values@);
            assert(now.len() == self.values@.len());
            match self.check_error_token() {
                Err(e) => {
                    return Err(e);
                },
                Ok(()) => {},
            }
            if self.peek() == TokenKind::RBrace {
                return Ok((fields, name_spans, Ghost(trees)));
            }
            if self.peek() == TokenKind::At {
                let token = self.peek_token();
                return Err(self.unsupported(unsupported::PROP, token.span));
            }
            let expected: [&'static str; 2] = ["identifier", "`}`"];
            assert(texts(expected@) =~= seq!["identifier"@, "`}`"@]);
            let ident = match self.expect(TokenKind::Ident, &expected) {
                Err(e) => {
                    return Err(e);
                },
                Ok(token) => token,
            };
            if self.peek() != TokenKind::Colon {
                return Err(self.unsupported(unsupported::SHORTHAND, ident.span));
            }
            self.bump();
            let name = copy_str(ident.span.text(self.source));
            proof {
                lemma_value_advances(input, depth, at + 2);
                lemma_layouts_len(trees, base);
            }
            let value = match self.parse_value() {
                Err(e) => {
                    return Err(e);
                },
                Ok(value) => value,
            };
            fields.push((name, value));
            name_spans.push(ident.span);
            proof {
                let tree = input.value(depth, at + 2)->Ok_0.0;
                let longer = trees.push(tree);
                assert(longer.drop_last() =~= trees);
                assert(field_ids(fields@) =~= ids_from(longer, base));
                assert(field_names(fields@) =~= field_names(fields_before).push(name@));
                assert(v1 + layouts(longer, base) =~= now + layout(tree, base + sizes(trees)));
                trees = longer;
            }
            if !self.eat(TokenKind::Comma) {
                proof {
                    assert(values_view(self.values@).len() == self.values@.len());
                }
                return Ok((fields, name_spans, Ghost(trees)));
            }
        }
    }
}

/// Filling in the value that was reserved before its children were parsed completes the layout
/// of the whole tree.
proof fn lemma_finished(
    v0: Seq<BsnValueNode>,
    v1: Seq<BsnValueNode>,
    v2: Seq<BsnValueNode>,
    v3: Seq<BsnValueNode>,
    tree: Tree,
)
    requires
        v1.len() == v0.len() + 1,
        v1.take(v0.len() as int) == v0,
        values_view(v2) == values_view(v1) + layouts(tree.children, v1.len() as int),
        v3.len() == v2.len(),
        forall|i: int| 0 <= i < v2.len() && i != v0.len() ==> #[trigger] v3[i] == v2[i],
        v3[v0.len() as int]@ == (Value {
            id: v0.len() as int,
            span: tree.span,
            head: tree.head,
            names: tree.names,
            children: ids_from(tree.children, v1.len() as int),
        }),
    ensures
        values_view(v3) == values_view(v0) + layout(tree, v0.len() as int),
{
    let n = v0.len() as int;
    let rest = layouts(tree.children, n + 1);
    assert(values_view(v2).len() == v2.len());
    assert forall|i: int| 0 <= i < v3.len() implies #[trigger] values_view(v3)[i] == (values_view(
        v0,
    ) + layout(tree, n))[i] by {
        if i < n {
            assert(v1.take(n)[i] == v0[i]);
            assert(values_view(v2)[i] == values_view(v1)[i]);
        } else if i > n {
            assert(values_view(v2)[i] == rest[i - (n + 1)]);
        }
    }
    assert(values_view(v3) =~= values_view(v0) + layout(tree, n));
}

/// Maps a [`LexError`] to the parse error it produces at `span`.
pub(crate) fn lex_error_to_parse_error(error: LexError, span: Span, source: &str) -> (r:
    BsnParseError)
    ensures
        r@ == plain_error(span, lex_error_kind(error, span.spec_text(source@))),
{
    let kind = match error {
        LexError::UnterminatedString => BsnParseErrorKind::UnterminatedString,
        LexError::UnterminatedRawString => BsnParseErrorKind::UnterminatedString,
        LexError::UnterminatedBlockComment => BsnParseErrorKind::UnterminatedBlockComment,
        LexError::InvalidEscape => BsnParseErrorKind::InvalidEscape,
        LexError::InvalidNumber => BsnParseErrorKind::InvalidNumber,
        LexError::NumericSuffix => BsnParseErrorKind::Unsupported(unsupported::SUFFIX),
        LexError::RawIdentifier => BsnParseErrorKind::Unsupported(unsupported::RAW_IDENT),
        LexError::CharLiteral => BsnParseErrorKind::Unsupported(unsupported::CHAR),
        LexError::Closure => BsnParseErrorKind::Unsupported(unsupported::CLOSURE),
        LexError::Macro => BsnParseErrorKind::Unsupported(unsupported::MACRO),
        LexError::Unknown => {
            let chars = chars_of(span.text(source));
            let ch = if chars.len() > 0 {
                chars[0]
            } else {
                '\u{FFFD}'
            };
            BsnParseErrorKind::UnknownCharacter(ch)
        },
    };
    BsnParseError::new(span, kind)
}

/// Finds the earliest *repeat* of a field name in `fields`, as an index into `fields`: the
/// first position whose name already appeared earlier.
fn first_duplicate_field(fields: &Vec<(String, BsnValueId)>) -> (r: Option<usize>)
    ensures
        match r {
            Some(i) => first_repeat_from(field_names(fields@), 0) == Some(i as int) && i
                < fields.len(),
            None => first_repeat_from(field_names(fields@), 0) is None,
        },
{
    let ghost names = field_names(fields@);
    let mut seen = new_set();
    let mut i: usize = 0;
    while i < fields.len()
        invariant
            i <= fields.len(),
            names == field_names(fields@),
            forall|name: Seq<char>| #[trigger]
                set_names(seen).contains(name) <==> exists|k: int|
                    0 <= k < i && #[trigger] names[k] == name,
            first_repeat_from(names, 0) == first_repeat_from(names, i as int),
        decreases fields.len() - i,
    {
        let ghost before = set_names(seen);
        let fresh = set_insert(&mut seen, fields[i].0.as_str());
        assert(names[i as int] == fields@[i as int].0@);
        assert(fresh == !is_repeat(names, i as int));
        if !fresh {
            return Some(i);
        }
        proof {
            assert forall|name: Seq<char>| #[trigger]
                set_names(seen).contains(name) <==> exists|k: int|
                    0 <= k < i + 1 && #[trigger] names[k] == name by {
                if name == names[i as int] {
                    assert(set_names(seen).contains(name));
                } else {
                    assert(set_names(seen).contains(name) == before.contains(name));
                }
            }
        }
        i = i + 1;
    }
    None
}

/// The `bsn!` macro's constant heuristic: at least two characters and no lowercase letter.
fn is_const(ident: &Vec<char>) -> (r: bool)
    ensures
        r == is_const_ident(ident@),
{
    if ident.len() <= 1 {
        return false;
    }
    let mut i: usize = 0;
    while i < ident.len()
        invariant
            i <= ident.len(),
            forall|k: int| 0 <= k < i ==> !spec_is_lower(#[trigger] ident@[k]),
        decreases ident.len() - i,
    {
        if is_lower(ident[i]) {
            assert(spec_is_lower(ident@[i as int]));
            return false;
        }
        i = i + 1;
    }
    true
}

/// Returns `true` if a flat entity body ends at `kind`.
pub(crate) fn is_entity_stop(kind: TokenKind, parenthesized: bool) -> (r: bool)
    ensures
        r == is_stop(kind, parenthesized),
{
    match kind {
        TokenKind::Eof => true,
        TokenKind::RParen => true,
        TokenKind::Comma => !parenthesized,
        TokenKind::RBracket => !parenthesized,
        _ => false,
    }
}

/// A human-readable description of a token, used in "unexpected …" messages.
fn token_desc(kind: TokenKind) -> (r: &'static str)
    ensures
        r@ == token_text(kind),
{
    match kind {
        TokenKind::Ident => "identifier",
        TokenKind::Int => "number",
        TokenKind::Float => "number",
        TokenKind::Str => "string literal",
        TokenKind::ColonColon => "`::`",
        TokenKind::Colon => "`:`",
        TokenKind::Comma => "`,`",
        TokenKind::Hash => "`#`",
        TokenKind::At => "`@`",
        TokenKind::Tilde => "`~`",
        TokenKind::Minus => "`-`",
        TokenKind::Lt => "`<`",
        TokenKind::Gt => "`>`",
        TokenKind::LParen => "`(`",
        TokenKind::RParen => "`)`",
        TokenKind::LBrace => "`{`",
        TokenKind::RBrace => "`}`",
        TokenKind::LBracket => "`[`",
        TokenKind::RBracket => "`]`",
        TokenKind::Eof => "end of file",
        TokenKind::Error(_) => "invalid token",
    }
}

} // verus!
