//! What single patches and single values read back as.

use vstd::prelude::*;

use crate::ast::BsnPatchPrefix;
use crate::entities::{input_of, parse_model};
use crate::error::MAX_NESTING_DEPTH;
use crate::float::Floats;
use crate::grammar::{entity_tree, no_parts, with_entry, NodeHead, NodeTree, Parts, Tree};
use crate::layout::{
    document_of, layout, layouts, node_ids_from, node_layout, node_layouts, patch_ids_from,
    relation_ids_from, value_layout, value_layouts,
};
use crate::model::{path_text, same_path, Document, Head, Node, NodeKind, Path, Value};
use crate::reading::{
    holds_at, lemma_holds_split, lemma_reads_concat, lemma_reads_nothing, reads, stops,
};
use crate::reparse_paths::{
    lemma_reparse_path, lemma_segments_first, lemma_stand_one_of, lemma_stand_split,
};
use crate::reparse_values::lemma_no_problem;
use crate::reread_document::lemma_input;
use crate::reread_values::{lemma_reads_char, lemma_reads_path};
use crate::shape::{names_type, path_fits, path_toks, segments_toks, sigil_toks};
use crate::token::TokenKind;
use crate::unsupported;

verus! {

/// A document of one entity that has nothing but one patch, and the value of the patch first in
/// its arena.
pub open spec fn is_one_patch(d: Document, prefix: BsnPatchPrefix, symbol: Path) -> bool {
    &&& d.roots == seq![0int]
    &&& d.nodes.len() == 2
    &&& d.nodes[0].kind matches NodeKind::Entity { name, base, patches, relations, .. } && name
        is None && base is None && patches == seq![1int] && relations.len() == 0
    &&& d.nodes[1].kind matches NodeKind::Patch { symbol: path, prefix: sigil, value } && same_path(
        symbol,
        path,
    ) && sigil == prefix && value == 0
    &&& d.values.len() > 0
}

/// The arenas for one entity with one patch.
pub proof fn lemma_one_patch(root: NodeTree, patch: NodeTree, symbol: Path)
    requires
        root.head matches NodeHead::Entity { name, base, .. } && name is None && base is None,
        root.children == seq![patch],
        patch.children.len() == 0,
        patch.head matches NodeHead::Patch { symbol: path, .. } && same_path(symbol, path),
    ensures
        is_one_patch(document_of(seq![root]), patch.head->prefix, symbol),
        document_of(seq![root]).values == layout(patch.head->value, 0),
{
    let roots = seq![root];
    let d = document_of(roots);
    let patches = root.children;
    let value = patch.head->value;
    assert(roots.drop_last() =~= Seq::empty());
    assert(patches.drop_last() =~= Seq::empty());
    assert(patches.last() == patch);
    assert(roots.last() == root);
    assert(patch.children =~= Seq::empty());
    assert(node_layouts(patch.children, 2, 0) =~= Seq::<Node>::empty());
    let below = node_layout(patch, 1, 0);
    assert(below.len() == 1);
    assert(node_layouts(patches, 1, 0) =~= below) by {
        assert(node_layouts(patches.drop_last(), 1, 0) =~= Seq::<Node>::empty());
    }
    assert(node_layouts(roots, 0, 0) =~= node_layout(root, 0, 0)) by {
        assert(node_layouts(roots.drop_last(), 0, 0) =~= Seq::<Node>::empty());
    }
    assert(node_ids_from(roots, 0) =~= seq![0int]) by {
        assert(node_ids_from(roots.drop_last(), 0) =~= Seq::<int>::empty());
    }
    assert(patch_ids_from(patches, 1) =~= seq![1int]) by {
        assert(patch_ids_from(patches.drop_last(), 1) =~= Seq::<int>::empty());
    }
    assert(relation_ids_from(patches, 1) =~= Seq::<int>::empty()) by {
        assert(relation_ids_from(patches.drop_last(), 1) =~= Seq::<int>::empty());
    }
    assert(d.nodes[0] == node_layout(root, 0, 0)[0]);
    assert(d.nodes[1] == below[0]);
    assert(value_layouts(patch.children, crate::layout::size(value) as int) =~= Seq::<Value>::empty());
    assert(value_layout(patch, 0) =~= layout(value, 0));
    assert(value_layouts(patches, 0) =~= layout(value, 0)) by {
        assert(value_layouts(patches.drop_last(), 0) =~= Seq::<Value>::empty());
    }
    assert(value_layout(root, 0) =~= layout(value, 0));
    assert(value_layouts(roots, 0) =~= layout(value, 0)) by {
        assert(value_layouts(roots.drop_last(), 0) =~= Seq::<Value>::empty());
    }
}

/// The tokens of a sigil and a path.
proof fn lemma_sigil_and_path(prefix: BsnPatchPrefix, path: Path, n: nat)
    requires
        path_fits(path, n),
    ensures
        ({
            let s = prefix.spec_sigil() + path_text(path);
            reads(s, 0, s.len() as int, sigil_toks(prefix) + path_toks(path))
        }),
{
    let sigil = prefix.spec_sigil();
    let s = sigil + path_text(path);
    reveal_strlit("");
    reveal_strlit("~");
    reveal_strlit("@");
    assert("~"@ =~= seq!['~']);
    assert("@"@ =~= seq!['@']);
    assert(s.subrange(0, s.len() as int) =~= s);
    assert(holds_at(s, 0, sigil + path_text(path)));
    lemma_holds_split(s, 0, sigil, path_text(path));
    let i = sigil.len() as int;
    assert(stops(s, s.len() as int));
    match prefix {
        BsnPatchPrefix::FromTemplate => {
            lemma_reads_nothing(s, 0);
        },
        BsnPatchPrefix::Template => {
            lemma_reads_char(s, 0, '~');
        },
        BsnPatchPrefix::SceneComponent => {
            lemma_reads_char(s, 0, '@');
        },
    }
    lemma_reads_path(s, i, path, n);
    lemma_reads_concat(s, 0, i, s.len() as int, sigil_toks(prefix), path_toks(path));
}

/// The sigil of a prefix, followed by the path of a type, reads as one patch with that prefix and
/// that path, whose value is the path.
pub proof fn law_sigil_and_path_read_as_a_patch(
    prefix: BsnPatchPrefix,
    path: Path,
    floats: Floats,
)
    requires
        path_fits(path, (MAX_NESTING_DEPTH - 1) as nat),
        names_type(path),
        prefix == BsnPatchPrefix::FromTemplate ==> path.segments[0].ident != "use"@,
    ensures
        parse_model(prefix.spec_sigil() + path_text(path), floats) matches Ok(d) && is_one_patch(
            d,
            prefix,
            path,
        ) && d.values.len() == 1 && (d.values[0].head matches Head::Path(p) && same_path(path, p)),
{
    let n = (MAX_NESTING_DEPTH - 1) as nat;
    let s = prefix.spec_sigil() + path_text(path);
    let sigil = sigil_toks(prefix);
    let toks = path_toks(path);
    let input = input_of(s, floats);
    let k = sigil.len() as int;
    let end = k + toks.len();
    lemma_sigil_and_path(prefix, path, n);
    lemma_segments_first(path.segments);
    assert(toks == segments_toks(path.segments));
    lemma_input(s, floats, sigil + toks);
    lemma_stand_split(input, 0, sigil, toks);
    lemma_stand_one_of(input, 0, sigil + toks, 0);
    lemma_stand_one_of(input, k, toks, 0);
    assert(input.kind(end) == TokenKind::Eof);
    lemma_reparse_path(input, 1, k, path);
    let (p, q) = input.path(1, k)->Ok_0;
    lemma_no_problem(path, p, unsupported::FN@);
    let first = input.tok(0).span;
    let value = crate::grammar::leaf(p.span, Head::Path(p));
    let patch = NodeTree {
        span: crate::grammar::cover(first, input.tok(q - 1).span),
        head: NodeHead::Patch { symbol: p, prefix, value },
        children: Seq::empty(),
    };
    let parts = with_entry(no_parts(), patch);
    assert(input.path_body(1, q, p) == Ok::<(Tree, int), crate::error::Error>((value, q)));
    assert(input.patch(1, k, prefix, first, no_parts()) == Ok::<
        (Parts, int),
        crate::error::Error,
    >((parts, q)));
    assert(input.entry(1, 0, no_parts()) == Ok::<(Parts, int), crate::error::Error>((parts, q)));
    assert(input.entries(1, q, false, parts) == Ok::<(Parts, int), crate::error::Error>(
        (parts, q),
    ));
    assert(input.entries(1, 0, false, no_parts()) == Ok::<(Parts, int), crate::error::Error>(
        (parts, q),
    ));
    assert(input.base(0) == Ok::<(Parts, int), crate::error::Error>((no_parts(), 0)));
    let root = entity_tree(parts, crate::grammar::cover(first, input.tok(q - 1).span));
    assert(input.entity(0, 0) == Ok::<(NodeTree, int), crate::error::Error>((root, q)));
    assert(Seq::<NodeTree>::empty().push(root) =~= seq![root]);
    assert(input.document() == Ok::<Seq<NodeTree>, crate::error::Error>(seq![root]));
    assert(no_parts().entries.push(patch) =~= seq![patch]);
    lemma_one_patch(root, patch, path);
    assert(layouts(value.children, 1) =~= Seq::<Value>::empty());
    assert(layout(value, 0).len() == 1);
}

} // verus!
