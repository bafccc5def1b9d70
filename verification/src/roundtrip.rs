//! What printing and parsing promise together.

use vstd::prelude::*;

use crate::chars::spec_ident_continue;
use crate::compare::same_document;
use crate::entities::{input_of, parse_model, path_model};
use crate::error::MAX_NESTING_DEPTH;
use crate::float::{canonical_floats, Floats};
use crate::grammar::{lexeme_of, NodeTree};
use crate::laid_out::{lemma_document_cost, lemma_document_unfolds};
use crate::layout::{lemma_value_layouts_len, value_sizes};
use crate::lexical::{
    law_tokens_in_order, lemma_next_lexed, lemma_run_end, lemma_trivia, lex, lex_from,
    lex_start, next_lexed, trivia, Class,
};
use crate::model::{path_text, same_path, Document, Path};
use crate::parsed_spans::{in_order, lemma_list_spans, node_spans};
use crate::parsed_trees::{are_entities, is_sound, lemma_list_parsed};
use crate::progress::lemma_entity_list_stays;
use crate::reading::{holds_at, stops, valid_ident};
use crate::render::{print_model, PrintOptions, Style, BUDGET_PER_VALUE};
use crate::reparse_paths::{lemma_reparse_path, lemma_segments_first};
use crate::reread_document::{lemma_input, lemma_text_ends, lemma_text_round_trip};
use crate::reread_values::lemma_reads_path;
use crate::shape::{entity_fits, path_fits, path_toks, segments_toks, twin_nodes};
use crate::text::{byte_at, byte_len, lemma_byte_at_mono};
use crate::token::TokenKind;
use crate::twin::{
    lemma_style_options, lemma_twin_documents, lemma_twin_node_refl, lemma_twin_roots,
    lemma_twin_value_sizes,
};
use crate::unfolding::{lemma_print, lemma_roots, node_costs, unfolds_to};

verus! {

// -- what the lexer hands to the grammar ------------------------------------------------------

/// Identifier tokens are identifiers.
proof fn lemma_lexed_idents(s: Seq<char>, i: int)
    requires
        0 <= i <= s.len(),
    ensures
        forall|k: int|
            0 <= k < lex_from(s, i).len() ==> ((#[trigger] lex_from(s, i)[k]).kind
                == TokenKind::Ident ==> valid_ident(
                s.subrange(lex_from(s, i)[k].start, lex_from(s, i)[k].end),
            )),
    decreases s.len() - i,
{
    let t = next_lexed(s, i);
    let all = lex_from(s, i);
    lemma_next_lexed(s, i);
    lemma_trivia(s, i);
    if t.kind == TokenKind::Ident {
        let j = trivia(s, i)->Done_0;
        lemma_run_end(s, j, Class::Ident);
        let text = s.subrange(t.start, t.end);
        assert forall|k: int| 0 <= k < text.len() implies spec_ident_continue(
            #[trigger] text[k],
        ) by {
            assert(crate::lexical::in_class(Class::Ident, s[t.start + k]));
        }
        assert(text[0] == s[j]);
    }
    if t.kind != TokenKind::Eof {
        lemma_lexed_idents(s, t.end);
        let rest = lex_from(s, t.end);
        assert(all =~= seq![t] + rest);
        assert forall|k: int| 0 <= k < all.len() implies ((#[trigger] all[k]).kind
            == TokenKind::Ident ==> valid_ident(s.subrange(all[k].start, all[k].end))) by {
            if k > 0 {
                assert(all[k] == rest[k - 1]);
            }
        }
    }
}

pub proof fn lemma_wf(source: Seq<char>, floats: Floats)
    ensures
        input_of(source, floats).wf(),
{
    let input = input_of(source, floats);
    law_tokens_in_order(source, lex_start(source));
    assert forall|i: int| 0 <= i < input.toks.len() implies ((#[trigger] input.toks[i]).kind
        == TokenKind::Eof <==> i == input.toks.len() - 1) by {
        assert(input.toks[i].kind == lex(source)[i].kind);
    }
}

pub proof fn lemma_sound(source: Seq<char>, floats: Floats)
    ensures
        is_sound(input_of(source, floats)),
{
    let input = input_of(source, floats);
    lemma_wf(source, floats);
    lemma_lexed_idents(source, lex_start(source));
    assert forall|i: int| 0 <= i < input.toks.len() implies ((#[trigger] input.toks[i]).kind
        == TokenKind::Ident ==> valid_ident(input.toks[i].text)) by {
        assert(input.toks[i] == lexeme_of(source, lex(source)[i]));
    }
}

/// Where the span of a token lies.
pub proof fn lemma_token_span(source: Seq<char>, floats: Floats, i: int)
    requires
        byte_len(source) <= u32::MAX,
        0 <= i < lex(source).len(),
    ensures
        ({
            let t = lex(source)[i];
            let span = input_of(source, floats).toks[i].span;
            &&& 0 <= t.start <= t.end <= source.len()
            &&& span.start == byte_at(source, t.start)
            &&& span.end == byte_at(source, t.end)
        }),
{
    let t = lex(source)[i];
    law_tokens_in_order(source, lex_start(source));
    lemma_byte_at_mono(source, t.start, t.end);
    lemma_byte_at_mono(source, t.end, source.len() as int);
    assert(input_of(source, floats).toks[i] == lexeme_of(source, t));
}

pub proof fn lemma_in_order(source: Seq<char>, floats: Floats)
    requires
        byte_len(source) <= u32::MAX,
    ensures
        in_order(input_of(source, floats)),
{
    let input = input_of(source, floats);
    let raw = lex(source);
    lemma_wf(source, floats);
    law_tokens_in_order(source, lex_start(source));
    assert forall|i: int| 0 <= i < input.toks.len() - 1 implies (
    #[trigger] input.toks[i]).span.start < input.toks[i].span.end by {
        lemma_token_span(source, floats, i);
        lemma_byte_at_mono(source, raw[i].start, raw[i].end);
    }
    assert forall|i: int, j: int| 0 <= i < j < input.toks.len() implies (
    #[trigger] input.toks[i]).span.end <= (#[trigger] input.toks[j]).span.start by {
        lemma_token_span(source, floats, i);
        lemma_token_span(source, floats, j);
        lemma_byte_at_mono(source, raw[i].end, raw[j].start);
    }
}

/// The roots of a parsed document.
pub open spec fn parsed_roots(source: Seq<char>, floats: Floats) -> Seq<NodeTree> {
    input_of(source, floats).document()->Ok_0
}

/// The roots of a parsed document are well-formed trees, and the document unfolds to them.
pub proof fn lemma_parsed_roots(source: Seq<char>, floats: Floats)
    requires
        byte_len(source) <= u32::MAX,
        parse_model(source, floats) is Ok,
    ensures
        ({
            let roots = parsed_roots(source, floats);
            &&& unfolds_to(parse_model(source, floats)->Ok_0, roots)
            &&& forall|k: int|
                0 <= k < roots.len() ==> entity_fits(
                    floats,
                    #[trigger] roots[k],
                    MAX_NESTING_DEPTH as nat,
                )
            &&& forall|k: int|
                0 <= k < roots.len() ==> node_spans(input_of(source, floats), #[trigger] roots[k])
            &&& node_costs(roots) <= parse_model(source, floats)->Ok_0.values.len() * 256
        }),
{
    let input = input_of(source, floats);
    lemma_sound(source, floats);
    lemma_in_order(source, floats);
    lemma_list_parsed(input, 0, 0, TokenKind::Eof, Seq::empty());
    lemma_list_spans(input, 0, 0, 0, TokenKind::Eof, Seq::empty());
    let roots = parsed_roots(source, floats);
    assert(are_entities(input, 0, roots));
    lemma_document_unfolds(input, floats, roots, MAX_NESTING_DEPTH as nat);
    lemma_document_cost(floats, roots);
}

// -- laws -------------------------------------------------------------------------------------

/// Parsing what was printed for a document gives a structurally equal document, and printing
/// that document gives the same text, in every style.
///
/// This holds of every document that unfolds to well-formed trees, however it was built, as
/// long as the printer's visit budget covers it.
pub proof fn law_print_parse(
    d: Document,
    ts: Seq<NodeTree>,
    floats: Floats,
    options: PrintOptions,
)
    requires
        canonical_floats(floats),
        unfolds_to(d, ts),
        forall|k: int|
            0 <= k < ts.len() ==> entity_fits(floats, #[trigger] ts[k], MAX_NESTING_DEPTH as nat),
        (Style { document: d, options }).budget() >= node_costs(ts),
        value_sizes(ts) * BUDGET_PER_VALUE <= usize::MAX,
        byte_len(print_model(d, options)) <= u32::MAX,
    ensures
        parse_model(print_model(d, options), floats) matches Ok(e) && same_document(d, e)
            && print_model(e, options) == print_model(d, options),
{
    let n = MAX_NESTING_DEPTH as nat;
    let style = Style { document: d, options };
    let text = print_model(d, options);
    lemma_print(style, floats, ts, n);
    lemma_text_round_trip(floats, style, ts);
    lemma_parsed_roots(text, floats);
    let us = parsed_roots(text, floats);
    let e = parse_model(text, floats)->Ok_0;
    lemma_twin_documents(d, e, ts, us, floats, n);
    let other = Style { document: e, options };
    lemma_twin_value_sizes(ts, us);
    lemma_value_layouts_len(us, 0);
    lemma_print(other, floats, us, n);
    lemma_twin_roots(style, ts, us);
    lemma_style_options(style, other, us);
}

/// Parsing, printing in any style and parsing again gives a structurally equal document: no
/// patch, relation, field or value is lost or changed. Printing is a fixed point: printing the
/// second document gives the same text.
pub proof fn law_round_trip(source: Seq<char>, floats: Floats, options: PrintOptions)
    requires
        byte_len(source) <= u32::MAX,
        canonical_floats(floats),
        parse_model(source, floats) is Ok,
        parse_model(source, floats)->Ok_0.values.len() * BUDGET_PER_VALUE <= usize::MAX,
        byte_len(print_model(parse_model(source, floats)->Ok_0, options)) <= u32::MAX,
    ensures
        ({
            let d = parse_model(source, floats)->Ok_0;
            let text = print_model(d, options);
            parse_model(text, floats) matches Ok(e) && same_document(d, e) && print_model(
                e,
                options,
            ) == text
        }),
{
    let d = parse_model(source, floats)->Ok_0;
    lemma_parsed_roots(source, floats);
    lemma_value_layouts_len(parsed_roots(source, floats), 0);
    law_print_parse(d, parsed_roots(source, floats), floats, options);
}

/// Every parsed document is structurally equal to itself, however deeply it is nested.
pub proof fn law_parsed_equals_itself(source: Seq<char>, floats: Floats)
    requires
        byte_len(source) <= u32::MAX,
        parse_model(source, floats) is Ok,
    ensures
        ({
            let d = parse_model(source, floats)->Ok_0;
            same_document(d, d)
        }),
{
    let d = parse_model(source, floats)->Ok_0;
    let roots = parsed_roots(source, floats);
    lemma_parsed_roots(source, floats);
    assert forall|i: int| 0 <= i < roots.len() implies twin_nodes(
        #[trigger] roots[i],
        roots[i],
    ) by {
        lemma_twin_node_refl(roots[i]);
    }
    lemma_twin_documents(d, d, roots, roots, floats, MAX_NESTING_DEPTH as nat);
}

/// The canonical text of a type path stands for the path, up to spans.
pub proof fn law_path_round_trip(path: Path)
    requires
        path_fits(path, MAX_NESTING_DEPTH as nat),
    ensures
        path_model(path_text(path)) matches Some(p) && same_path(path, p),
{
    let s = path_text(path);
    let input = input_of(s, Seq::empty());
    assert(s.subrange(0, s.len() as int) =~= s);
    assert(holds_at(s, 0, s));
    assert(stops(s, s.len() as int));
    lemma_reads_path(s, 0, path, MAX_NESTING_DEPTH as nat);
    lemma_segments_first(path.segments);
    assert(path_toks(path) == segments_toks(path.segments));
    lemma_input(s, Seq::empty(), path_toks(path));
    lemma_reparse_path(input, 0, 0, path);
}

/// No text leads to an internal error.
pub proof fn law_no_internal_error(source: Seq<char>, floats: Floats)
    ensures
        parse_model(source, floats) matches Err(e) ==> !(e.kind is Internal),
{
    let input = input_of(source, floats);
    lemma_wf(source, floats);
    lemma_entity_list_stays(input, 0, 0, TokenKind::Eof, Seq::empty());
}

/// What is printed for a parsed document is empty when the document is, and otherwise ends with
/// exactly one line feed.
pub proof fn law_printed_ends_with_one_newline(
    source: Seq<char>,
    floats: Floats,
    options: PrintOptions,
)
    requires
        byte_len(source) <= u32::MAX,
        canonical_floats(floats),
        parse_model(source, floats) is Ok,
        parse_model(source, floats)->Ok_0.values.len() * BUDGET_PER_VALUE <= usize::MAX,
    ensures
        ({
            let d = parse_model(source, floats)->Ok_0;
            let text = print_model(d, options);
            if d.roots.len() == 0 {
                text.len() == 0
            } else {
                text.len() > 1 && text[text.len() - 1] == '\n' && text[text.len() - 2] != '\n'
            }
        }),
{
    let d = parse_model(source, floats)->Ok_0;
    let roots = parsed_roots(source, floats);
    let style = Style { document: d, options };
    lemma_parsed_roots(source, floats);
    lemma_print(style, floats, roots, MAX_NESTING_DEPTH as nat);
    lemma_text_ends(floats, style, roots, MAX_NESTING_DEPTH as nat);
}

/// Printing a parsed document never runs out of visits: with a larger budget the text would be
/// the same.
pub proof fn law_parsed_stays_within_budget(
    source: Seq<char>,
    floats: Floats,
    options: PrintOptions,
    budget: nat,
)
    requires
        byte_len(source) <= u32::MAX,
        parse_model(source, floats) is Ok,
        parse_model(source, floats)->Ok_0.values.len() * BUDGET_PER_VALUE <= usize::MAX,
        budget >= (Style { document: parse_model(source, floats)->Ok_0, options }).budget(),
    ensures
        ({
            let d = parse_model(source, floats)->Ok_0;
            let style = Style { document: d, options };
            style.roots(d.roots.len(), budget).0 == style.roots(d.roots.len(), style.budget()).0
        }),
{
    let d = parse_model(source, floats)->Ok_0;
    let roots = parsed_roots(source, floats);
    let style = Style { document: d, options };
    let n = MAX_NESTING_DEPTH as nat;
    lemma_parsed_roots(source, floats);
    assert(roots.take(roots.len() as int) =~= roots);
    lemma_roots(style, floats, roots, n, roots.len(), budget);
    lemma_roots(style, floats, roots, n, roots.len(), style.budget());
}

} // verus!
