//! Parsing of entities, their entries, and whole documents.

use vstd::prelude::*;

use crate::ast::{
    node_ids, nodes_view, text_view, values_view, BsnDocument, BsnNode, BsnNodeId, BsnNodeKind,
    BsnPatchPrefix, BsnPath, BsnValueNode,
};
use crate::error::{texts, BsnParseError, BsnParseErrorKind, Error, MAX_NESTING_DEPTH};
use crate::float::{FloatTable, Floats};
use crate::grammar::{
    cover, entity_tree, lexemes, no_parts, with_entry, Input, NodeHead, NodeTree, Parsed, Parts,
};
use crate::layout::{
    document_of, kind_of, layout, lemma_node_layouts_len, lemma_value_layouts_len, node_ids_from,
    node_layout, node_layouts, node_sizes, patch_ids_from, relation_ids_from, value_layout,
    value_layouts, value_sizes,
};
use crate::lexer::{tokens_of, Lexer};
use crate::lexical::{law_tokens_in_order, lex, lex_start};
use crate::literal::decode_string;
use crate::model::{Document, Node, Path, Value};
use crate::parser::{is_entity_stop, lexeme, Parser};
use crate::progress::{
    lemma_entity_advances, lemma_entity_list_stays, lemma_entries_stays, lemma_entry_advances,
    lemma_path_advances, lemma_path_body_stays,
};
use crate::span::Span;
use crate::text::{byte_len, copy_str, lemma_byte_at_mono, lemma_byte_slice, same_text};
use crate::token::{Token, TokenKind};
use crate::unsupported;

verus! {

/// The parts of an entity collected while its entries are parsed.
struct EntityBuilder {
    name: Option<String>,
    name_span: Option<Span>,
    base: Option<String>,
    base_span: Option<Span>,
    patches: Vec<BsnNodeId>,
    relations: Vec<BsnNodeId>,
}

impl EntityBuilder {
    fn new() -> (r: Self)
        ensures
            r.name is None,
            r.name_span is None,
            r.base is None,
            r.base_span is None,
            r.patches@.len() == 0,
            r.relations@.len() == 0,
    {
        EntityBuilder {
            name: None,
            name_span: None,
            base: None,
            base_span: None,
            patches: Vec::new(),
            relations: Vec::new(),
        }
    }

    /// The collected parts are `parts`, whose entries are laid out from node `base` on.
    #[verifier::opaque]
    spec fn holds(&self, parts: Parts, base: int) -> bool {
        &&& text_view(self.name) == parts.name
        &&& self.name_span == parts.name_span
        &&& text_view(self.base) == parts.base
        &&& self.base_span == parts.base_span
        &&& node_ids(self.patches@) == patch_ids_from(parts.entries, base)
        &&& node_ids(self.relations@) == relation_ids_from(parts.entries, base)
    }
}

/// The arenas hold `nodes` and `values`, followed by the layout of the entries of `parts`.
#[verifier::opaque]
spec fn holds_entries(
    node_arena: Seq<BsnNode>,
    value_arena: Seq<BsnValueNode>,
    nodes: Seq<Node>,
    values: Seq<Value>,
    parts: Parts,
) -> bool {
    &&& nodes_view(node_arena) == nodes + node_layouts(
        parts.entries,
        nodes.len() as int,
        values.len() as int,
    )
    &&& values_view(value_arena) == values + value_layouts(parts.entries, values.len() as int)
}

impl<'a> Parser<'a> {
    /// What parsing one entity does.
    spec fn node_parsed(
        &self,
        before: &Self,
        outcome: Parsed<NodeTree>,
        r: Result<BsnNodeId, BsnParseError>,
    ) -> bool {
        match outcome {
            Ok((tree, q)) => {
                &&& r matches Ok(id) && id.0 == before.nodes@.len()
                &&& self.reached(before, q)
                &&& self.nodes@.len() <= self.pos + 1
                &&& nodes_view(self.nodes@) == nodes_view(before.nodes@) + node_layout(
                    tree,
                    before.nodes@.len() as int,
                    before.values@.len() as int,
                )
                &&& values_view(self.values@) == values_view(before.values@) + value_layout(
                    tree,
                    before.values@.len() as int,
                )
            },
            Err(e) => r matches Err(x) && x@ == e,
        }
    }

    /// Reserves the next node id.
    fn alloc_node(&mut self) -> (id: BsnNodeId)
        requires
            old(self).wf(),
            old(self).nodes@.len() <= u32::MAX,
        ensures
            id.0 == old(self).nodes@.len(),
            final(self).nodes@.len() == old(self).nodes@.len() + 1,
            final(self).nodes@.take(old(self).nodes@.len() as int) == old(self).nodes@,
            final(self).values == old(self).values,
            final(self).reached(old(self), old(self).pos as int),
    {
        proof {
            reveal(Parser::input);
        }
        let id = BsnNodeId(self.nodes.len() as u32);
        let kind = BsnNodeKind::Entity {
            name: None,
            name_span: None,
            base: None,
            base_span: None,
            patches: Vec::new(),
            relations: Vec::new(),
        };
        self.nodes.push(BsnNode { id, span: Span::none(), kind });
        assert(self.nodes@.take(old(self).nodes@.len() as int) =~= old(self).nodes@);
        id
    }

    /// Fills in a reserved node.
    fn finish_node(&mut self, id: BsnNodeId, span: Span, kind: BsnNodeKind)
        requires
            old(self).wf(),
            (id.0 as int) < old(self).nodes@.len(),
        ensures
            final(self).nodes@ == old(self).nodes@.update(
                id.0 as int,
                BsnNode { id, span, kind },
            ),
            final(self).values == old(self).values,
            final(self).reached(old(self), old(self).pos as int),
    {
        proof {
            reveal(Parser::input);
        }
        self.nodes.set(id.0 as usize, BsnNode { id, span, kind });
    }

    /// `entity = "(" entity_body ")" | entity_body`
    fn parse_entity(&mut self) -> (r: Result<BsnNodeId, BsnParseError>)
        requires
            old(self).wf(),
            old(self).nodes@.len() <= old(self).pos,
        ensures
            final(self).node_parsed(
                old(self),
                old(self).input().entity(old(self).depth as nat, old(self).pos as int),
                r,
            ),
        decreases MAX_NESTING_DEPTH - old(self).depth, old(self).tokens@.len() - old(self).pos, 0nat,
    {
        match self.enter() {
            Err(e) => {
                return Err(e);
            },
            Ok(()) => {},
        }
        let result = self.parse_entity_inner();
        if result.is_ok() {
            self.leave();
        }
        result
    }

    #[verifier::rlimit(20)]
    fn parse_entity_inner(&mut self) -> (r: Result<BsnNodeId, BsnParseError>)
        requires
            old(self).wf(),
            old(self).nodes@.len() <= old(self).pos,
        ensures
            final(self).node_parsed(
                old(self),
                old(self).input().entity_inner(old(self).depth as nat, old(self).pos as int),
                r,
            ),
        decreases MAX_NESTING_DEPTH - old(self).depth, old(self).tokens@.len() - old(self).pos, 14nat,
    {
        let ghost input = self.input();
        let ghost depth = self.depth as nat;
        match self.check_error_token() {
            Err(e) => {
                return Err(e);
            },
            Ok(()) => {},
        }
        let ghost n0 = self.nodes@;
        let id = self.alloc_node();
        let ghost n1 = self.nodes@;
        let ghost v0 = values_view(self.values@);
        let start_pos: usize = self.pos;
        let parenthesized = self.eat(TokenKind::LParen);
        let mut builder = EntityBuilder::new();
        let ghost body = self.pos as int;
        proof {
            assert(nodes_view(n1).len() == n1.len());
            lemma_no_parts(builder, n1.len() as int);
        }
        match self.parse_entity_body(
            &mut builder,
            parenthesized,
            Ghost(nodes_view(n1)),
            Ghost(v0),
        ) {
            Err(e) => {
                return Err(e);
            },
            Ok(()) => {},
        }
        let ghost parts = input.entries(
            depth,
            input.base(body)->Ok_0.1,
            parenthesized,
            input.base(body)->Ok_0.0,
        )->Ok_0.0;
        self.finish_entity(
            id,
            builder,
            parenthesized,
            start_pos,
            Ghost(n0),
            Ghost(n1),
            Ghost(v0),
            Ghost(parts),
        )
    }

    /// Closes an entity whose first token is at `start_pos`, and fills in its node.
    fn finish_entity(
        &mut self,
        id: BsnNodeId,
        builder: EntityBuilder,
        parenthesized: bool,
        start_pos: usize,
        Ghost(n0): Ghost<Seq<BsnNode>>,
        Ghost(n1): Ghost<Seq<BsnNode>>,
        Ghost(v0): Ghost<Seq<Value>>,
        Ghost(parts): Ghost<Parts>,
    ) -> (r: Result<BsnNodeId, BsnParseError>)
        requires
            old(self).wf(),
            old(self).nodes@.len() <= old(self).pos + 1,
            start_pos <= old(self).pos,
            parenthesized ==> start_pos < old(self).pos,
            id.0 == n0.len(),
            n1.len() == n0.len() + 1,
            n1.take(n0.len() as int) == n0,
            holds_entries(old(self).nodes@, old(self).values@, nodes_view(n1), v0, parts),
            builder.holds(parts, n1.len() as int),
        ensures
            match old(self).input().entity_end(
                start_pos as int,
                old(self).pos as int,
                parenthesized,
                parts,
            ) {
                Ok((tree, q)) => {
                    &&& r matches Ok(x) && x == id
                    &&& final(self).reached(old(self), q)
                    &&& final(self).nodes@.len() <= final(self).pos + 1
                    &&& nodes_view(final(self).nodes@) == nodes_view(n0) + node_layout(
                        tree,
                        n0.len() as int,
                        v0.len() as int,
                    )
                    &&& values_view(final(self).values@) == v0 + value_layout(
                        tree,
                        v0.len() as int,
                    )
                },
                Err(e) => r matches Err(x) && x@ == e,
            },
    {
        if parenthesized {
            let expected: [&'static str; 2] = ["`)`", "type path"];
            assert(texts(expected@) =~= seq!["`)`"@, "type path"@]);
            match self.expect(TokenKind::RParen, &expected) {
                Err(e) => {
                    return Err(e);
                },
                Ok(_) => {},
            }
        } else if self.pos == start_pos {
            let token = self.peek_token();
            let expected: [&'static str; 6] = ["type path", "`#`", "`~`", "`@`", "`(`", "`:`"];
            assert(texts(expected@) =~= seq![
                "type path"@,
                "`#`"@,
                "`~`"@,
                "`@`"@,
                "`(`"@,
                "`:`"@,
            ]);
            return Err(self.unexpected(token, &expected));
        }
        let span = self.span_between(start_pos);
        let ghost n2 = self.nodes@;
        proof {
            reveal(EntityBuilder::holds);
            reveal(holds_entries);
            assert(nodes_view(n1).len() == n1.len());
            assert(nodes_view(n2).len() == n2.len());
        }
        self.finish_node(
            id,
            span,
            BsnNodeKind::Entity {
                name: builder.name,
                name_span: builder.name_span,
                base: builder.base,
                base_span: builder.base_span,
                patches: builder.patches,
                relations: builder.relations,
            },
        );
        proof {
            lemma_node_finished(
                n0,
                n1,
                n2,
                self.nodes@,
                entity_tree(parts, span),
                v0.len() as int,
            );
        }
        Ok(id)
    }

    /// `entity_body = [ base ] { entry }`
    fn parse_entity_body(
        &mut self,
        builder: &mut EntityBuilder,
        parenthesized: bool,
        Ghost(nodes): Ghost<Seq<Node>>,
        Ghost(values): Ghost<Seq<Value>>,
    ) -> (r: Result<(), BsnParseError>)
        requires
            old(self).wf(),
            old(self).nodes@.len() <= old(self).pos + 1,
            nodes_view(old(self).nodes@) == nodes,
            values_view(old(self).values@) == values,
            old(builder).holds(no_parts(), nodes.len() as int),
        ensures
            match old(self).input().base(old(self).pos as int) {
                Err(e) => r matches Err(x) && x@ == e,
                Ok((parts, p)) => {
                    &&& old(self).pos <= p < old(self).input().toks.len()
                    &&& match old(self).input().entries(
                        old(self).depth as nat,
                        p,
                        parenthesized,
                        parts,
                    ) {
                        Err(e) => r matches Err(x) && x@ == e,
                        Ok((all, q)) => {
                            &&& r is Ok
                            &&& p <= q
                            &&& final(self).reached(old(self), q)
                            &&& final(self).nodes@.len() <= final(self).pos + 1
                            &&& holds_entries(
                                final(self).nodes@,
                                final(self).values@,
                                nodes,
                                values,
                                all,
                            )
                            &&& final(builder).holds(all, nodes.len() as int)
                        },
                    }
                },
            },
        decreases MAX_NESTING_DEPTH - old(self).depth, old(self).tokens@.len() - old(self).pos, 13nat,
    {
        let ghost input = self.input();
        let ghost depth = self.depth as nat;
        let ghost start = self.pos as int;
        match self.parse_base(builder, Ghost(nodes.len() as int)) {
            Err(e) => {
                return Err(e);
            },
            Ok(()) => {},
        }
        let ghost parts = input.base(start)->Ok_0.0;
        proof {
            lemma_entries_stays(input, depth, self.pos as int, parenthesized, parts);
            reveal(holds_entries);
            assert(nodes_view(self.nodes@) =~= nodes + node_layouts(
                parts.entries,
                nodes.len() as int,
                values.len() as int,
            ));
            assert(values_view(self.values@) =~= values + value_layouts(
                parts.entries,
                values.len() as int,
            ));
        }
        self.parse_entries(builder, parenthesized, Ghost(nodes), Ghost(values), Ghost(parts))
    }

    /// `[ ":" STRING ]`
    fn parse_base(&mut self, builder: &mut EntityBuilder, Ghost(base): Ghost<int>) -> (r: Result<
        (),
        BsnParseError,
    >)
        requires
            old(self).wf(),
            old(builder).holds(no_parts(), base),
        ensures
            match old(self).input().base(old(self).pos as int) {
                Ok((parts, q)) => {
                    &&& r is Ok
                    &&& final(self).reached(old(self), q)
                    &&& final(self).same_arenas(old(self))
                    &&& final(builder).holds(parts, base)
                    &&& parts.entries.len() == 0
                },
                Err(e) => r matches Err(x) && x@ == e,
            },
    {
        proof {
            reveal(EntityBuilder::holds);
        }
        if self.peek() == TokenKind::Colon {
            let colon = self.bump();
            match self.check_error_token() {
                Err(e) => {
                    return Err(e);
                },
                Ok(()) => {},
            }
            let token = self.peek_token();
            if token.kind != TokenKind::Str {
                return Err(BsnParseError::new(token.span, BsnParseErrorKind::BaseNotString));
            }
            self.bump();
            match decode_string(self.source, token.span) {
                Err(e) => {
                    return Err(e);
                },
                Ok(text) => {
                    builder.base = Some(text);
                },
            }
            builder.base_span = Some(colon.span.join(token.span));
        }
        Ok(())
    }

    /// `{ entry }`, up to the end of the entity body.
    #[verifier::loop_isolation(false)]
    fn parse_entries(
        &mut self,
        builder: &mut EntityBuilder,
        parenthesized: bool,
        Ghost(nodes): Ghost<Seq<Node>>,
        Ghost(values): Ghost<Seq<Value>>,
        Ghost(parts): Ghost<Parts>,
    ) -> (r: Result<(), BsnParseError>)
        requires
            old(self).wf(),
            old(self).nodes@.len() <= old(self).pos + 1,
            holds_entries(old(self).nodes@, old(self).values@, nodes, values, parts),
            old(builder).holds(parts, nodes.len() as int),
        ensures
            match old(self).input().entries(
                old(self).depth as nat,
                old(self).pos as int,
                parenthesized,
                parts,
            ) {
                Ok((all, q)) => {
                    &&& r is Ok
                    &&& final(self).reached(old(self), q)
                    &&& final(self).nodes@.len() <= final(self).pos + 1
                    &&& holds_entries(final(self).nodes@, final(self).values@, nodes, values, all)
                    &&& final(builder).holds(all, nodes.len() as int)
                },
                Err(e) => r matches Err(x) && x@ == e,
            },
        decreases MAX_NESTING_DEPTH - old(self).depth, old(self).tokens@.len() - old(self).pos, 12nat,
    {
        let ghost input = self.input();
        let ghost depth = self.depth as nat;
        let ghost start = self.pos as int;
        let ghost mut so_far = parts;
        loop
            invariant
                self.reached(old(self), self.pos as int),
                start <= self.pos,
                self.nodes@.len() <= self.pos + 1,
                holds_entries(self.nodes@, self.values@, nodes, values, so_far),
                builder.holds(so_far, nodes.len() as int),
                input.entries(depth, start, parenthesized, parts) == input.entries(
                    depth,
                    self.pos as int,
                    parenthesized,
                    so_far,
                ),
            decreases self.tokens@.len() - self.pos,
        {
            if is_entity_stop(self.peek(), parenthesized) {
                return Ok(());
            }
            proof {
                lemma_entry_advances(input, depth, self.pos as int, so_far);
            }
            let ghost at = self.pos as int;
            match self.parse_entry(builder, Ghost(nodes), Ghost(values), Ghost(so_far)) {
                Err(e) => {
                    return Err(e);
                },
                Ok(()) => {},
            }
            proof {
                so_far = input.entry(depth, at, so_far)->Ok_0.0;
            }
        }
    }

    /// `entry = name_entry | relation_entry | patch_entry`
    #[verifier::rlimit(20)]
    fn parse_entry(
        &mut self,
        builder: &mut EntityBuilder,
        Ghost(nodes): Ghost<Seq<Node>>,
        Ghost(values): Ghost<Seq<Value>>,
        Ghost(parts): Ghost<Parts>,
    ) -> (r: Result<(), BsnParseError>)
        requires
            old(self).wf(),
            old(self).nodes@.len() <= old(self).pos + 1,
            holds_entries(old(self).nodes@, old(self).values@, nodes, values, parts),
            old(builder).holds(parts, nodes.len() as int),
        ensures
            match old(self).input().entry(old(self).depth as nat, old(self).pos as int, parts) {
                Ok((all, q)) => {
                    &&& r is Ok
                    &&& final(self).reached(old(self), q)
                    &&& final(self).nodes@.len() <= final(self).pos + 1
                    &&& holds_entries(final(self).nodes@, final(self).values@, nodes, values, all)
                    &&& final(builder).holds(all, nodes.len() as int)
                },
                Err(e) => r matches Err(x) && x@ == e,
            },
        decreases MAX_NESTING_DEPTH - old(self).depth, old(self).tokens@.len() - old(self).pos, 11nat,
    {
        match self.check_error_token() {
            Err(e) => {
                return Err(e);
            },
            Ok(()) => {},
        }
        let token = self.peek_token();
        match token.kind {
            TokenKind::Colon => Err(
                BsnParseError::new(token.span, BsnParseErrorKind::BaseNotFirst),
            ),
            TokenKind::ColonColon => Err(
                BsnParseError::new(token.span, BsnParseErrorKind::LeadingPathSeparator),
            ),
            TokenKind::LBrace => Err(self.unsupported(unsupported::EXPR, token.span)),
            TokenKind::Hash => {
                self.bump();
                let expected: [&'static str; 1] = ["identifier"];
                assert(texts(expected@) =~= seq!["identifier"@]);
                let ident = match self.expect(TokenKind::Ident, &expected) {
                    Err(e) => {
                        return Err(e);
                    },
                    Ok(ident) => ident,
                };
                proof {
                    reveal(EntityBuilder::holds);
                    reveal(holds_entries);
                }
                if builder.name.is_some() {
                    return Err(BsnParseError::new(ident.span, BsnParseErrorKind::DuplicateName));
                }
                builder.name = Some(copy_str(ident.span.text(self.source)));
                builder.name_span = Some(token.span.join(ident.span));
                Ok(())
            },
            TokenKind::Tilde => {
                self.bump();
                self.parse_patch(
                    builder,
                    BsnPatchPrefix::Template,
                    token.span,
                    Ghost(nodes),
                    Ghost(values),
                    Ghost(parts),
                )
            },
            TokenKind::At => {
                self.bump();
                self.parse_patch(
                    builder,
                    BsnPatchPrefix::SceneComponent,
                    token.span,
                    Ghost(nodes),
                    Ghost(values),
                    Ghost(parts),
                )
            },
            TokenKind::Ident => {
                let text = token.span.text(self.source);
                if same_text(text, "use") {
                    return Err(self.unsupported(unsupported::USE, token.span));
                }
                if same_text(text, "on") && self.peek_second() == TokenKind::LParen {
                    return Err(self.unsupported(unsupported::OBSERVER, token.span));
                }
                self.parse_patch(
                    builder,
                    BsnPatchPrefix::FromTemplate,
                    token.span,
                    Ghost(nodes),
                    Ghost(values),
                    Ghost(parts),
                )
            },
            _ => {
                let expected: [&'static str; 4] = ["type path", "`#`", "`~`", "`@`"];
                assert(texts(expected@) =~= seq!["type path"@, "`#`"@, "`~`"@, "`@`"@]);
                Err(self.unexpected(token, &expected))
            },
        }
    }

    /// `patch_entry` and `relation_entry`, which share a leading path.
    #[verifier::rlimit(20)]
    fn parse_patch(
        &mut self,
        builder: &mut EntityBuilder,
        prefix: BsnPatchPrefix,
        first: Span,
        Ghost(nodes): Ghost<Seq<Node>>,
        Ghost(values): Ghost<Seq<Value>>,
        Ghost(parts): Ghost<Parts>,
    ) -> (r: Result<(), BsnParseError>)
        requires
            old(self).wf(),
            old(self).nodes@.len() <= old(self).pos + 1,
            holds_entries(old(self).nodes@, old(self).values@, nodes, values, parts),
            old(builder).holds(parts, nodes.len() as int),
        ensures
            match old(self).input().patch(
                old(self).depth as nat,
                old(self).pos as int,
                prefix,
                first,
                parts,
            ) {
                Ok((all, q)) => {
                    &&& r is Ok
                    &&& final(self).reached(old(self), q)
                    &&& final(self).nodes@.len() <= final(self).pos + 1
                    &&& holds_entries(final(self).nodes@, final(self).values@, nodes, values, all)
                    &&& final(builder).holds(all, nodes.len() as int)
                },
                Err(e) => r matches Err(x) && x@ == e,
            },
        decreases MAX_NESTING_DEPTH - old(self).depth, old(self).tokens@.len() - old(self).pos, 10nat,
    {
        let ghost input = self.input();
        let ghost depth = self.depth as nat;
        let ghost start = self.pos as int;
        proof {
            lemma_path_advances(input, depth, start);
        }
        let path = match self.parse_path() {
            Err(e) => {
                return Err(e);
            },
            Ok(path) => path,
        };
        match self.check_error_token() {
            Err(e) => {
                return Err(e);
            },
            Ok(()) => {},
        }
        match self.classify_path(&path, unsupported::FN) {
            Err(e) => {
                return Err(e);
            },
            Ok(()) => {},
        }
        if self.peek() == TokenKind::LBracket {
            if prefix != BsnPatchPrefix::FromTemplate {
                let token = self.peek_token();
                let expected: [&'static str; 1] = [
                    "a patch body (relationships cannot be prefixed with `~` or `@`)",
                ];
                assert(texts(expected@) =~= seq![
                    "a patch body (relationships cannot be prefixed with `~` or `@`)"@,
                ]);
                return Err(self.unexpected(token, &expected));
            }
            return self.parse_relation(
                builder,
                path,
                first,
                Ghost(nodes),
                Ghost(values),
                Ghost(parts),
            );
        }
        let ghost at = self.pos as int;
        proof {
            lemma_path_body_stays(input, depth, at, path@);
        }
        let ghost before_values = values_view(self.values@);
        let symbol = path.copy();
        let value = match self.parse_path_body(path) {
            Err(e) => {
                return Err(e);
            },
            Ok(value) => value,
        };
        let span = self.span_from(first);
        let id = self.alloc_node();
        let ghost n1 = self.nodes@;
        self.finish_node(id, span, BsnNodeKind::Patch { symbol, prefix, value });
        builder.patches.push(id);
        proof {
            let tree = NodeTree {
                span,
                head: NodeHead::Patch {
                    symbol: path@,
                    prefix,
                    value: input.path_body(depth, at, path@)->Ok_0.0,
                },
                children: Seq::empty(),
            };
            let n0 = old(self).nodes@;
            assert(nodes_view(n0).len() == n0.len());
            assert(before_values.len() == old(self).values@.len());
            lemma_patch_layout(tree, n0.len() as int, before_values.len() as int);
            assert(nodes_view(self.nodes@) =~= nodes_view(n0) + node_layout(
                tree,
                n0.len() as int,
                before_values.len() as int,
            )) by {
                assert forall|i: int| 0 <= i < n0.len() implies nodes_view(self.nodes@)[i]
                    == nodes_view(n0)[i] by {
                    assert(n1.take(n0.len() as int)[i] == n0[i]);
                }
            }
            lemma_entry_added(*old(self), *self, nodes, values, parts, tree);
            lemma_patch_pushed(*old(builder), *builder, nodes, values, parts, tree, id);
        }
        Ok(())
    }

    /// `relation_entry = path "[" [ entity { "," entity } [ "," ] ] "]"`, from its `[` on.
    fn parse_relation(
        &mut self,
        builder: &mut EntityBuilder,
        path: BsnPath,
        first: Span,
        Ghost(nodes): Ghost<Seq<Node>>,
        Ghost(values): Ghost<Seq<Value>>,
        Ghost(parts): Ghost<Parts>,
    ) -> (r: Result<(), BsnParseError>)
        requires
            old(self).wf(),
            old(self).nodes@.len() <= old(self).pos,
            holds_entries(old(self).nodes@, old(self).values@, nodes, values, parts),
            old(builder).holds(parts, nodes.len() as int),
            old(self).input().kind(old(self).pos as int) == TokenKind::LBracket,
        ensures
            match old(self).input().entity_list(
                old(self).depth as nat,
                old(self).pos + 1,
                TokenKind::RBracket,
                Seq::empty(),
            ) {
                Err(e) => r matches Err(x) && x@ == e,
                Ok((entities, q)) => match old(self).input().token(
                    q,
                    TokenKind::RBracket,
                    seq!["`,`"@, "`]`"@],
                ) {
                    Err(e) => r matches Err(x) && x@ == e,
                    Ok(close) => {
                        let all = with_entry(
                            parts,
                            NodeTree {
                                span: cover(first, close.span),
                                head: NodeHead::Relation { target: path@ },
                                children: entities,
                            },
                        );
                        &&& r is Ok
                        &&& final(self).reached(old(self), q + 1)
                        &&& final(self).nodes@.len() <= final(self).pos + 1
                        &&& holds_entries(final(self).nodes@, final(self).values@, nodes, values, all)
                        &&& final(builder).holds(all, nodes.len() as int)
                    },
                },
            },
        decreases MAX_NESTING_DEPTH - old(self).depth, old(self).tokens@.len() - old(self).pos, 9nat,
    {
        let ghost input = self.input();
        let ghost depth = self.depth as nat;
        let ghost start = self.pos as int;
        let ghost n0 = self.nodes@;
        let ghost vbase = self.values@.len() as int;
        self.bump();
        let id = self.alloc_node();
        let ghost n1 = self.nodes@;
        proof {
            lemma_entity_list_stays(input, depth, start + 1, TokenKind::RBracket, Seq::empty());
        }
        let entities = match self.parse_entity_list(TokenKind::RBracket) {
            Err(e) => {
                return Err(e);
            },
            Ok(entities) => entities,
        };
        let expected: [&'static str; 2] = ["`,`", "`]`"];
        assert(texts(expected@) =~= seq!["`,`"@, "`]`"@]);
        match self.expect(TokenKind::RBracket, &expected) {
            Err(e) => {
                return Err(e);
            },
            Ok(_) => {},
        }
        let span = self.span_from(first);
        let ghost n2 = self.nodes@;
        let ghost model = path@;
        self.finish_node(id, span, BsnNodeKind::Relation { target_symbol: path, entities });
        builder.relations.push(id);
        proof {
            let children = input.entity_list(
                depth,
                start + 1,
                TokenKind::RBracket,
                Seq::empty(),
            )->Ok_0.0;
            let tree = NodeTree { span, head: NodeHead::Relation { target: model }, children };
            lemma_node_finished(n0, n1, n2, self.nodes@, tree, vbase);
            lemma_entry_added(*old(self), *self, nodes, values, parts, tree);
            lemma_relation_pushed(*old(builder), *builder, nodes, values, parts, tree, id);
        }
        Ok(())
    }

    /// Comma-separated entities, up to (not including) a `close` token.
    #[verifier::loop_isolation(false)]
    fn parse_entity_list(&mut self, close: TokenKind) -> (r: Result<Vec<BsnNodeId>, BsnParseError>)
        requires
            old(self).wf(),
            old(self).nodes@.len() <= old(self).pos,
        ensures
            match old(self).input().entity_list(
                old(self).depth as nat,
                old(self).pos as int,
                close,
                Seq::empty(),
            ) {
                Err(e) => r matches Err(x) && x@ == e,
                Ok((items, q)) => {
                    let base = old(self).nodes@.len() as int;
                    let vbase = old(self).values@.len() as int;
                    &&& r matches Ok(ids) && node_ids(ids@) == node_ids_from(items, base)
                    &&& final(self).reached(old(self), q)
                    &&& final(self).nodes@.len() <= final(self).pos + 1
                    &&& final(self).nodes@.len() >= old(self).nodes@.len()
                    &&& nodes_view(final(self).nodes@) == nodes_view(old(self).nodes@)
                        + node_layouts(items, base, vbase)
                    &&& values_view(final(self).values@) == values_view(old(self).values@)
                        + value_layouts(items, vbase)
                },
            },
        decreases MAX_NESTING_DEPTH - old(self).depth, old(self).tokens@.len() - old(self).pos, 1nat,
    {
        let ghost input = self.input();
        let ghost depth = self.depth as nat;
        let ghost start = self.pos as int;
        let ghost base = self.nodes@.len() as int;
        let ghost vbase = self.values@.len() as int;
        let ghost n0 = nodes_view(self.nodes@);
        let ghost v0 = values_view(self.values@);
        let ghost mut trees = Seq::<NodeTree>::empty();
        let mut items: Vec<BsnNodeId> = Vec::new();
        assert(node_ids(items@) =~= node_ids_from(trees, base));
        assert(n0 + node_layouts(trees, base, vbase) =~= n0);
        assert(v0 + value_layouts(trees, vbase) =~= v0);
        loop
            invariant
                self.reached(old(self), self.pos as int),
                start <= self.pos,
                self.nodes@.len() <= self.pos,
                input.entity_list(depth, start, close, Seq::empty()) == input.entity_list(
                    depth,
                    self.pos as int,
                    close,
                    trees,
                ),
                node_ids(items@) == node_ids_from(trees, base),
                nodes_view(self.nodes@) == n0 + node_layouts(trees, base, vbase),
                values_view(self.values@) == v0 + value_layouts(trees, vbase),
            decreases self.tokens@.len() - self.pos,
        {
            let ghost at = self.pos as int;
            let ghost now_nodes = nodes_view(self.nodes@);
            let ghost now_values = values_view(self.values@);
            proof {
                assert(now_nodes.len() == self.nodes@.len());
                assert(now_values.len() == self.values@.len());
                lemma_node_layouts_len(trees, base, vbase);
                lemma_value_layouts_len(trees, vbase);
            }
            match self.check_error_token() {
                Err(e) => {
                    return Err(e);
                },
                Ok(()) => {},
            }
            if self.peek() == close {
                return Ok(items);
            }
            proof {
                lemma_entity_advances(input, depth, at);
            }
            match self.parse_entity() {
                Err(e) => {
                    return Err(e);
                },
                Ok(id) => {
                    items.push(id);
                    proof {
                        let tree = input.entity(depth, at)->Ok_0.0;
                        let longer = trees.push(tree);
                        assert(longer.drop_last() =~= trees);
                        assert(node_ids(items@) =~= node_ids_from(longer, base));
                        assert(n0 + node_layouts(longer, base, vbase) =~= now_nodes + node_layout(
                            tree,
                            base + node_sizes(trees),
                            vbase + value_sizes(trees),
                        ));
                        assert(v0 + value_layouts(longer, vbase) =~= now_values + value_layout(
                            tree,
                            vbase + value_sizes(trees),
                        ));
                        assert(nodes_view(self.nodes@).len() == self.nodes@.len());
                        trees = longer;
                    }
                },
            }
            if !self.eat(TokenKind::Comma) {
                return Ok(items);
            }
        }
    }
}

/// A new builder holds no parts.
proof fn lemma_no_parts(builder: EntityBuilder, base: int)
    requires
        builder.name is None,
        builder.name_span is None,
        builder.base is None,
        builder.base_span is None,
        builder.patches@.len() == 0,
        builder.relations@.len() == 0,
    ensures
        builder.holds(no_parts(), base),
{
    reveal(EntityBuilder::holds);
    assert(node_ids(builder.patches@) =~= Seq::<int>::empty());
    assert(node_ids(builder.relations@) =~= Seq::<int>::empty());
}

/// Filling in the node that was reserved before its children were parsed completes the layout
/// of the whole tree.
proof fn lemma_node_finished(
    n0: Seq<BsnNode>,
    n1: Seq<BsnNode>,
    n2: Seq<BsnNode>,
    n3: Seq<BsnNode>,
    tree: NodeTree,
    values: int,
)
    requires
        n1.len() == n0.len() + 1,
        n1.take(n0.len() as int) == n0,
        nodes_view(n2) == nodes_view(n1) + node_layouts(tree.children, n1.len() as int, values),
        n3.len() == n2.len(),
        forall|i: int| 0 <= i < n2.len() && i != n0.len() ==> #[trigger] n3[i] == n2[i],
        n3[n0.len() as int]@ == (Node {
            id: n0.len() as int,
            span: tree.span,
            kind: kind_of(tree, n1.len() as int, values),
        }),
    ensures
        nodes_view(n3) == nodes_view(n0) + node_layout(tree, n0.len() as int, values),
{
    let n = n0.len() as int;
    let rest = node_layouts(tree.children, n + 1, values);
    assert(nodes_view(n2).len() == n2.len());
    assert forall|i: int| 0 <= i < n3.len() implies #[trigger] nodes_view(n3)[i] == (nodes_view(n0)
        + node_layout(tree, n, values))[i] by {
        if i < n {
            assert(n1.take(n)[i] == n0[i]);
            assert(nodes_view(n2)[i] == nodes_view(n1)[i]);
        } else if i > n {
            assert(nodes_view(n2)[i] == rest[i - (n + 1)]);
        }
    }
    assert(nodes_view(n3) =~= nodes_view(n0) + node_layout(tree, n, values));
}

/// A patch is laid out as one node and the values of its value.
proof fn lemma_patch_layout(tree: NodeTree, base: int, values: int)
    requires
        tree.head is Patch,
        tree.children.len() == 0,
    ensures
        node_layout(tree, base, values) == seq![
            Node { id: base, span: tree.span, kind: kind_of(tree, base + 1, values) },
        ],
        value_layout(tree, values) == layout(tree.head->value, values),
{
    assert(node_layout(tree, base, values) =~= seq![
        Node { id: base, span: tree.span, kind: kind_of(tree, base + 1, values) },
    ]);
    assert(value_layout(tree, values) =~= layout(tree.head->value, values));
}

/// Appending the layout of one more entry to the arenas adds the entry.
proof fn lemma_entry_added(
    before: Parser,
    after: Parser,
    nodes: Seq<Node>,
    values: Seq<Value>,
    parts: Parts,
    tree: NodeTree,
)
    requires
        holds_entries(before.nodes@, before.values@, nodes, values, parts),
        nodes_view(after.nodes@) == nodes_view(before.nodes@) + node_layout(
            tree,
            before.nodes@.len() as int,
            before.values@.len() as int,
        ),
        values_view(after.values@) == values_view(before.values@) + value_layout(
            tree,
            before.values@.len() as int,
        ),
    ensures
        holds_entries(after.nodes@, after.values@, nodes, values, with_entry(parts, tree)),
        before.nodes@.len() == nodes.len() + node_sizes(parts.entries),
{
    reveal(holds_entries);
    let longer = with_entry(parts, tree).entries;
    assert(longer.drop_last() =~= parts.entries);
    assert(nodes_view(before.nodes@).len() == before.nodes@.len());
    assert(values_view(before.values@).len() == before.values@.len());
    lemma_node_layouts_len(parts.entries, nodes.len() as int, values.len() as int);
    lemma_value_layouts_len(parts.entries, values.len() as int);
    assert(nodes_view(after.nodes@) =~= nodes + node_layouts(
        longer,
        nodes.len() as int,
        values.len() as int,
    ));
    assert(values_view(after.values@) =~= values + value_layouts(longer, values.len() as int));
}

/// The builder collects the id of a patch.
proof fn lemma_patch_pushed(
    before: EntityBuilder,
    after: EntityBuilder,
    nodes: Seq<Node>,
    values: Seq<Value>,
    parts: Parts,
    tree: NodeTree,
    id: BsnNodeId,
)
    requires
        before.holds(parts, nodes.len() as int),
        tree.head is Patch,
        id.0 == nodes.len() + node_sizes(parts.entries),
        after.patches@ == before.patches@.push(id),
        after.name == before.name,
        after.name_span == before.name_span,
        after.base == before.base,
        after.base_span == before.base_span,
        after.relations == before.relations,
    ensures
        after.holds(with_entry(parts, tree), nodes.len() as int),
{
    reveal(EntityBuilder::holds);
    let longer = with_entry(parts, tree).entries;
    assert(longer.drop_last() =~= parts.entries);
    assert(node_ids(after.patches@) =~= patch_ids_from(longer, nodes.len() as int));
}

/// The builder collects the id of a relation.
proof fn lemma_relation_pushed(
    before: EntityBuilder,
    after: EntityBuilder,
    nodes: Seq<Node>,
    values: Seq<Value>,
    parts: Parts,
    tree: NodeTree,
    id: BsnNodeId,
)
    requires
        before.holds(parts, nodes.len() as int),
        tree.head is Relation,
        id.0 == nodes.len() + node_sizes(parts.entries),
        after.relations@ == before.relations@.push(id),
        after.name == before.name,
        after.name_span == before.name_span,
        after.base == before.base,
        after.base_span == before.base_span,
        after.patches == before.patches,
    ensures
        after.holds(with_entry(parts, tree), nodes.len() as int),
{
    reveal(EntityBuilder::holds);
    let longer = with_entry(parts, tree).entries;
    assert(longer.drop_last() =~= parts.entries);
    assert(node_ids(after.relations@) =~= relation_ids_from(longer, nodes.len() as int));
}

/// The tokens of a text, with the texts that their spans cover, are its lexemes; they are what
/// the grammar reads.
proof fn lemma_lexemes(source: Seq<char>)
    requires
        byte_len(source) <= u32::MAX,
    ensures
        tokens_of(source).map_values(|t: Token| lexeme(source, t)) == lexemes(source),
        tokens_of(source).len() <= u32::MAX + 1,
        (Input { toks: lexemes(source), floats: Seq::empty() }).wf(),
{
    let raw = lex(source);
    law_tokens_in_order(source, lex_start(source));
    lemma_byte_at_mono(source, 0, source.len() as int);
    let left = tokens_of(source).map_values(|t: Token| lexeme(source, t));
    assert forall|i: int| 0 <= i < raw.len() implies #[trigger] left[i] == lexemes(source)[i] by {
        let t = raw[i];
        assert(0 <= t.start <= t.end <= source.len());
        lemma_byte_at_mono(source, t.start, t.end);
        lemma_byte_at_mono(source, t.end, source.len() as int);
        lemma_byte_slice(source, t.start, t.end);
    }
    assert(left =~= lexemes(source));
    assert(source.take(0) =~= Seq::<char>::empty());
    assert(source.take(source.len() as int) =~= source);
    let input = Input { toks: lexemes(source), floats: Seq::empty() };
    assert forall|i: int| 0 <= i < input.toks.len() implies ((#[trigger] input.toks[i]).kind
        == TokenKind::Eof <==> i == input.toks.len() - 1) by {
        assert(input.toks[i].kind == raw[i].kind);
    }
}

impl<'a> Parser<'a> {
    /// A parser at the start of `source`.
    pub(crate) fn new(source: &'a str, floats: &'a FloatTable) -> (r: Self)
        requires
            byte_len(source@) <= u32::MAX,
        ensures
            r.wf(),
            r.input() == input_of(source@, floats@),
            r.pos == 0,
            r.depth == 0,
            r.nodes@.len() == 0,
            r.values@.len() == 0,
    {
        let tokens = Lexer::tokenize(source);
        proof {
            lemma_lexemes(source@);
            reveal(Parser::input);
            assert(tokens.len() == tokens@.len());
        }
        let r = Parser {
            source,
            floats,
            tokens,
            pos: 0,
            depth: 0,
            nodes: Vec::new(),
            values: Vec::new(),
        };
        proof {
            assert(r.input().toks == lexemes(source@));
            let plain = Input { toks: lexemes(source@), floats: Seq::empty() };
            assert forall|i: int| 0 <= i < r.input().toks.len() implies ((#[trigger] r.input().toks[i]).kind
                == TokenKind::Eof <==> i == r.input().toks.len() - 1) by {
                assert(plain.toks[i] == r.input().toks[i]);
            }
        }
        r
    }

    /// `document = [ entity_list ] EOF`
    fn parse_document(self) -> (r: Result<BsnDocument, BsnParseError>)
        requires
            self.wf(),
            self.pos == 0,
            self.depth == 0,
            self.nodes@.len() == 0,
            self.values@.len() == 0,
        ensures
            match self.input().document() {
                Ok(roots) => r matches Ok(document) && document@ == document_of(roots),
                Err(e) => r matches Err(x) && x@ == e,
            },
    {
        let mut parser = self;
        let ghost input = parser.input();
        proof {
            lemma_entity_list_stays(input, 0, 0, TokenKind::Eof, Seq::empty());
        }
        let roots = match parser.parse_entity_list(TokenKind::Eof) {
            Err(e) => {
                return Err(e);
            },
            Ok(roots) => roots,
        };
        match parser.check_error_token() {
            Err(e) => {
                return Err(e);
            },
            Ok(()) => {},
        }
        if parser.peek() != TokenKind::Eof {
            let token = parser.peek_token();
            let expected: [&'static str; 2] = ["`,`", "end of file"];
            assert(texts(expected@) =~= seq!["`,`"@, "end of file"@]);
            return Err(parser.unexpected(token, &expected));
        }
        let document = BsnDocument { roots, nodes: parser.nodes, values: parser.values };
        proof {
            let trees = input.entity_list(0, 0, TokenKind::Eof, Seq::empty())->Ok_0.0;
            assert(document@.nodes =~= document_of(trees).nodes);
            assert(document@.values =~= document_of(trees).values);
        }
        Ok(document)
    }
}

/// What the parser reads from a text and the values of its float literals.
pub open spec fn input_of(source: Seq<char>, floats: Floats) -> Input {
    Input { toks: lexemes(source), floats }
}

/// The document that a text stands for, or the first error in it.
pub open spec fn parse_model(source: Seq<char>, floats: Floats) -> Result<Document, Error> {
    match input_of(source, floats).document() {
        Ok(roots) => Ok(document_of(roots)),
        Err(e) => Err(e),
    }
}

/// The path that a whole text stands for, if it is one.
pub open spec fn path_model(source: Seq<char>) -> Option<Path> {
    let input = input_of(source, Seq::empty());
    match input.path(0, 0) {
        Ok((path, q)) => if input.kind(q) == TokenKind::Eof {
            Some(path)
        } else {
            None
        },
        Err(_) => None,
    }
}

/// Parses `source` into a [`BsnDocument`], with the values of its float literals from `floats`.
///
/// # Errors
///
/// Returns the first [`BsnParseError`] encountered. Use [`BsnParseError::render`] to render
/// it against `source`.
pub fn parse(source: &str, floats: &FloatTable) -> (r: Result<BsnDocument, BsnParseError>)
    requires
        byte_len(source@) <= u32::MAX,
    ensures
        match parse_model(source@, floats@) {
            Ok(document) => r matches Ok(x) && x@ == document,
            Err(e) => r matches Err(x) && x@ == e,
        },
{
    Parser::new(source, floats).parse_document()
}

/// Parses a bare type path, used by [`BsnPath::from_type_path`].
pub(crate) fn parse_path_str(source: &str) -> (r: Option<BsnPath>)
    requires
        byte_len(source@) <= u32::MAX,
    ensures
        match path_model(source@) {
            Some(path) => r matches Some(x) && x@ == path,
            None => r is None,
        },
{
    let floats = FloatTable::new();
    let mut parser = Parser::new(source, &floats);
    proof {
        lemma_path_advances(parser.input(), 0, 0);
    }
    match parser.parse_path() {
        Err(_) => None,
        Ok(path) => {
            if parser.peek() != TokenKind::Eof {
                return None;
            }
            Some(path)
        },
    }
}

impl BsnPath {
    /// Parses a canonical type-path string, the inverse of [`BsnPath::to_type_path`].
    ///
    /// Returns `None` if `s` is not a syntactically valid path. All spans in the result
    /// refer to `s`, not to any document.
    pub fn from_type_path(s: &str) -> (r: Option<BsnPath>)
        requires
            byte_len(s@) <= u32::MAX,
        ensures
            match path_model(s@) {
                Some(path) => r matches Some(x) && x@ == path,
                None => r is None,
            },
    {
        parse_path_str(s)
    }
}

impl BsnDocument {
    /// Parses `source` into a document. Identical to [`parse`].
    pub fn parse(source: &str, floats: &FloatTable) -> (r: Result<BsnDocument, BsnParseError>)
        requires
            byte_len(source@) <= u32::MAX,
        ensures
            match parse_model(source@, floats@) {
                Ok(document) => r matches Ok(x) && x@ == document,
                Err(e) => r matches Err(x) && x@ == e,
            },
    {
        parse(source, floats)
    }
}

} // verus!
