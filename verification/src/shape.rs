//! Trees that the grammar can produce, and the tokens that they are written with.

use vstd::prelude::*;

use crate::ast::{last_ident, BsnPatchPrefix};
use crate::chars::spec_is_upper;
use crate::float::{canonical_floats, is_float_literal, lookup, Float, Floats};
use crate::grammar::{first_repeat_from, is_const_ident, NodeHead, NodeTree, Tree};
use crate::model::{same_path, Head, Path, Segment};
use crate::reading::{
    double_colon, float_token, ident_token, int_token, punct, string_token, valid_ident, Bare,
};

verus! {

// -- well-formed trees ------------------------------------------------------------------------

/// A path of identifiers whose generic arguments nest at most `n` deep, itself included.
pub open spec fn path_fits(path: Path, n: nat) -> bool
    decreases n,
{
    &&& n > 0
    &&& path.segments.len() > 0
    &&& forall|i: int| 0 <= i < path.segments.len() ==> valid_ident(#[trigger] path.segments[i].ident)
    &&& forall|i: int, j: int|
        0 <= i < path.segments.len() && 0 <= j < path.segments[i].generics.len() ==> path_fits(
            #[trigger] path.segments[i].generics[j],
            (n - 1) as nat,
        )
}

/// A path that names a type: it ends with an uppercase identifier that is no constant.
pub open spec fn names_type(path: Path) -> bool {
    last_ident(path).len() > 0 && spec_is_upper(last_ident(path)[0]) && !is_const_ident(
        last_ident(path),
    )
}

/// An identifier that stands for a value of its own.
pub open spec fn is_value_word(ident: Seq<char>) -> bool {
    ident == "true"@ || ident == "false"@ || ident == "inf"@ || ident == "NaN"@ || ident == "nan"@
}

/// The path that a value starts with.
pub open spec fn head_path(head: Head) -> Option<Path> {
    match head {
        Head::Path(path) => Some(path),
        Head::Struct(path) => Some(path),
        Head::NamedTuple(path) => Some(path),
        _ => None,
    }
}

/// A float whose text is a literal for it, if the table is canonical.
pub open spec fn float_fits(floats: Floats, f: Float) -> bool {
    f.is_finite() && canonical_floats(floats) ==> is_float_literal(f.magnitude) && lookup(floats, f.magnitude) == Some(
        Float { bits: f.magnitude_bits() as u64, magnitude: f.magnitude },
    )
}

pub open spec fn head_fits(floats: Floats, head: Head, n: nat) -> bool {
    match head {
        Head::Int(v) => i128::MIN <= v <= i128::MAX,
        Head::Float(f) => float_fits(floats, f),
        Head::EntityRef(name) => valid_ident(name),
        Head::Path(path) => path_fits(path, n) && names_type(path),
        Head::Struct(path) => path_fits(path, n) && names_type(path),
        Head::NamedTuple(path) => path_fits(path, n) && names_type(path),
        _ => true,
    }
}

/// Whether a tree has the names and the number of children that its head asks for.
pub open spec fn is_shaped(t: Tree) -> bool {
    match t.head {
        Head::Struct(_) => {
            &&& t.names.len() == t.children.len()
            &&& first_repeat_from(t.names, 0) is None
            &&& forall|i: int| 0 <= i < t.names.len() ==> valid_ident(#[trigger] t.names[i])
        },
        Head::Tuple => t.names.len() == 0 && t.children.len() > 0,
        Head::List => t.names.len() == 0,
        Head::NamedTuple(_) => t.names.len() == 0,
        _ => t.names.len() == 0 && t.children.len() == 0,
    }
}

/// A value tree, nested at most `n` deep, whose text is read back as the tree.
pub open spec fn tree_fits(floats: Floats, t: Tree, n: nat) -> bool
    decreases n, 0nat,
{
    &&& n > 0
    &&& head_fits(floats, t.head, (n - 1) as nat)
    &&& is_shaped(t)
    &&& forall|i: int|
        0 <= i < t.children.len() ==> item_fits(floats, #[trigger] t.children[i], (n - 1) as nat)
}

/// A value inside another: its path does not start with a word that is a value of its own.
pub open spec fn item_fits(floats: Floats, t: Tree, n: nat) -> bool
    decreases n, 1nat,
{
    &&& head_path(t.head) matches Some(path) ==> path.segments.len() > 0 && !is_value_word(
        path.segments[0].ident,
    )
    &&& tree_fits(floats, t, n)
}

/// An entity tree, nested at most `n` deep, whose text is read back as the tree.
pub open spec fn entity_fits(floats: Floats, t: NodeTree, n: nat) -> bool
    decreases n, 0nat,
{
    &&& n > 0
    &&& t.head matches NodeHead::Entity { name, .. } && (name matches Some(x) ==> valid_ident(x))
    &&& forall|i: int| 0 <= i < t.children.len() ==> entry_fits(floats, #[trigger] t.children[i], (n - 1) as nat)
}

/// A patch or a relation, whose contents nest at most `n` deep.
pub open spec fn entry_fits(floats: Floats, t: NodeTree, n: nat) -> bool
    decreases n, 1nat,
{
    match t.head {
        NodeHead::Patch { symbol, prefix, value } => {
            &&& t.children.len() == 0
            &&& tree_fits(floats, value, n + 1)
            &&& head_path(value.head) matches Some(path) && same_path(symbol, path) && (prefix
                == BsnPatchPrefix::FromTemplate ==> path.segments[0].ident != "use"@)
        },
        NodeHead::Relation { target } => {
            &&& path_fits(target, n)
            &&& names_type(target)
            &&& target.segments[0].ident != "use"@
            &&& forall|i: int| 0 <= i < t.children.len() ==> entity_fits(floats, #[trigger] t.children[i], n)
        },
        NodeHead::Entity { .. } => false,
    }
}

// -- trees that differ in spans only ----------------------------------------------------------

/// Heads with the same text and the same meaning.
pub open spec fn twin_head(a: Head, b: Head) -> bool {
    match a {
        Head::Float(x) => b matches Head::Float(y) && x.same(y) && x.text() == y.text(),
        Head::Path(x) => b matches Head::Path(y) && same_path(x, y),
        Head::Struct(x) => b matches Head::Struct(y) && same_path(x, y),
        Head::NamedTuple(x) => b matches Head::NamedTuple(y) && same_path(x, y),
        _ => a == b,
    }
}

/// Value trees that differ in spans only.
pub open spec fn twins(a: Tree, b: Tree) -> bool
    decreases a,
{
    &&& twin_head(a.head, b.head)
    &&& a.names == b.names
    &&& a.children.len() == b.children.len()
    &&& forall|i: int| 0 <= i < a.children.len() ==> twins(#[trigger] a.children[i], b.children[i])
}

/// Node trees that differ in spans only.
pub open spec fn twin_nodes(a: NodeTree, b: NodeTree) -> bool
    decreases a,
{
    &&& match a.head {
        NodeHead::Entity { name, base, .. } => b.head matches NodeHead::Entity {
            name: other_name,
            base: other_base,
            ..
        } && name == other_name && base == other_base,
        NodeHead::Patch { symbol, prefix, value } => b.head matches NodeHead::Patch {
            symbol: other_symbol,
            prefix: other_prefix,
            value: other_value,
        } && same_path(symbol, other_symbol) && prefix == other_prefix && twins(value, other_value),
        NodeHead::Relation { target } => b.head matches NodeHead::Relation { target: other }
            && same_path(target, other),
    }
    &&& a.children.len() == b.children.len()
    &&& forall|i: int| 0 <= i < a.children.len() ==> twin_nodes(#[trigger] a.children[i], b.children[i])
}

// -- tokens -----------------------------------------------------------------------------------

pub open spec fn path_toks(path: Path) -> Seq<Bare>
    decreases path,
{
    segments_toks(path.segments)
}

pub open spec fn segments_toks(segments: Seq<Segment>) -> Seq<Bare>
    decreases segments,
{
    if segments.len() == 0 {
        Seq::empty()
    } else if segments.len() == 1 {
        segment_toks(segments[0])
    } else {
        segments_toks(segments.drop_last()) + seq![double_colon()] + segment_toks(segments.last())
    }
}

pub open spec fn segment_toks(segment: Segment) -> Seq<Bare>
    decreases segment,
{
    if segment.generics.len() == 0 {
        seq![ident_token(segment.ident)]
    } else {
        seq![ident_token(segment.ident), punct('<')] + paths_toks(segment.generics) + seq![punct('>')]
    }
}

pub open spec fn paths_toks(paths: Seq<Path>) -> Seq<Bare>
    decreases paths,
{
    if paths.len() == 0 {
        Seq::empty()
    } else if paths.len() == 1 {
        path_toks(paths[0])
    } else {
        paths_toks(paths.drop_last()) + seq![punct(',')] + path_toks(paths.last())
    }
}

pub open spec fn float_toks(f: Float) -> Seq<Bare> {
    let unsigned = if f.is_nan() {
        ident_token("NaN"@)
    } else if f.is_infinite() {
        ident_token("inf"@)
    } else {
        float_token(f.magnitude)
    };
    if f.is_negative() {
        seq![punct('-'), unsigned]
    } else {
        seq![unsigned]
    }
}

pub open spec fn leaf_toks(head: Head) -> Seq<Bare> {
    match head {
        Head::Unit => seq![punct('('), punct(')')],
        Head::Bool(b) => seq![
            ident_token(
                if b {
                    "true"@
                } else {
                    "false"@
                },
            ),
        ],
        Head::Int(v) => if v < 0 {
            seq![punct('-'), int_token((-v) as nat)]
        } else {
            seq![int_token(v as nat)]
        },
        Head::Float(f) => float_toks(f),
        Head::Str(s) => seq![string_token(s)],
        Head::EntityRef(name) => seq![punct('#'), ident_token(name)],
        Head::Path(path) => path_toks(path),
        _ => Seq::empty(),
    }
}

/// Which bodies of a value end with a comma.
pub ghost struct Commas {
    pub trailing: bool,
    pub inside: Seq<Commas>,
}

/// Whether a value has a bracketed body.
pub open spec fn has_body(head: Head) -> bool {
    head is Tuple || head is List || head is Struct || head is NamedTuple
}

pub open spec fn open_toks(head: Head) -> Seq<Bare> {
    match head {
        Head::Tuple => seq![punct('(')],
        Head::List => seq![punct('[')],
        Head::NamedTuple(path) => path_toks(path) + seq![punct('(')],
        Head::Struct(path) => path_toks(path) + seq![punct('{')],
        _ => Seq::empty(),
    }
}

pub open spec fn close_char(head: Head) -> char {
    match head {
        Head::List => ']',
        Head::Struct(_) => '}',
        _ => ')',
    }
}

/// The field name before item `i`, for a struct.
pub open spec fn prefix_toks(t: Tree, i: int) -> Seq<Bare> {
    if t.head is Struct {
        seq![ident_token(t.names[i]), punct(':')]
    } else {
        Seq::empty()
    }
}

pub open spec fn comma_toks(present: bool) -> Seq<Bare> {
    if present {
        seq![punct(',')]
    } else {
        Seq::empty()
    }
}

/// The tokens of a value.
pub open spec fn tree_toks(t: Tree, commas: Commas) -> Seq<Bare>
    decreases t, t.children.len() + 1,
{
    if has_body(t.head) {
        open_toks(t.head) + items_toks(t, commas, t.children.len()) + seq![punct(close_char(t.head))]
    } else {
        leaf_toks(t.head)
    }
}

/// The tokens of the first `n` items of a body, each with the comma after it.
pub open spec fn items_toks(t: Tree, commas: Commas, n: nat) -> Seq<Bare>
    decreases t, n,
{
    if n == 0 || n > t.children.len() {
        Seq::empty()
    } else {
        items_toks(t, commas, (n - 1) as nat) + prefix_toks(t, n - 1) + tree_toks(
            t.children[n - 1],
            commas.inside[n - 1],
        ) + comma_toks(n < t.children.len() || commas.trailing)
    }
}

/// A tuple of one element keeps its comma.
pub open spec fn commas_fit(t: Tree, commas: Commas) -> bool
    decreases t,
{
    &&& t.head is Tuple && t.children.len() == 1 ==> commas.trailing
    &&& forall|i: int|
        0 <= i < t.children.len() ==> commas_fit(#[trigger] t.children[i], commas.inside[i])
}

/// Which bodies of the values of a node end with a comma.
pub ghost struct NodeCommas {
    pub value: Commas,
    pub inside: Seq<NodeCommas>,
}

pub open spec fn sigil_toks(prefix: BsnPatchPrefix) -> Seq<Bare> {
    match prefix {
        BsnPatchPrefix::FromTemplate => Seq::empty(),
        BsnPatchPrefix::Template => seq![punct('~')],
        BsnPatchPrefix::SceneComponent => seq![punct('@')],
    }
}

pub open spec fn base_toks(base: Option<Seq<char>>) -> Seq<Bare> {
    match base {
        Some(base) => seq![punct(':'), string_token(base)],
        None => Seq::empty(),
    }
}

pub open spec fn name_toks(name: Option<Seq<char>>) -> Seq<Bare> {
    match name {
        Some(name) => seq![punct('#'), ident_token(name)],
        None => Seq::empty(),
    }
}

/// Whether an entity is written as `()`.
pub open spec fn is_blank(t: NodeTree) -> bool {
    t.children.len() == 0 && (t.head matches NodeHead::Entity { name, base, .. } && name is None
        && base is None)
}

/// The tokens of an entity.
pub open spec fn entity_toks(t: NodeTree, commas: NodeCommas) -> Seq<Bare>
    decreases t, t.children.len() + 1,
{
    match t.head {
        NodeHead::Entity { name, base, .. } => if is_blank(t) {
            seq![punct('('), punct(')')]
        } else {
            base_toks(base) + name_toks(name) + entries_toks(t, commas, t.children.len())
        },
        _ => Seq::empty(),
    }
}

/// The tokens of the first `n` entries of an entity.
pub open spec fn entries_toks(t: NodeTree, commas: NodeCommas, n: nat) -> Seq<Bare>
    decreases t, n,
{
    if n == 0 || n > t.children.len() {
        Seq::empty()
    } else {
        entries_toks(t, commas, (n - 1) as nat) + entry_toks(
            t.children[n - 1],
            commas.inside[n - 1],
        )
    }
}

/// The tokens of a patch or a relation.
pub open spec fn entry_toks(t: NodeTree, commas: NodeCommas) -> Seq<Bare>
    decreases t, t.children.len() + 1,
{
    match t.head {
        NodeHead::Patch { prefix, value, .. } => sigil_toks(prefix) + tree_toks(
            value,
            commas.value,
        ),
        NodeHead::Relation { target } => path_toks(target) + seq![punct('[')] + entities_toks(
            t.children,
            commas.inside,
            t.children.len(),
        ) + seq![punct(']')],
        _ => Seq::empty(),
    }
}

/// The tokens of the first `n` entities of a list, each with the comma after it.
pub open spec fn entities_toks(ts: Seq<NodeTree>, commas: Seq<NodeCommas>, n: nat) -> Seq<Bare>
    decreases ts, n,
{
    if n == 0 || n > ts.len() {
        Seq::empty()
    } else {
        entities_toks(ts, commas, (n - 1) as nat) + entity_toks(ts[n - 1], commas[n - 1])
            + comma_toks(n < ts.len())
    }
}

/// In the values of a node, a tuple of one element keeps its comma.
pub open spec fn node_commas_fit(t: NodeTree, commas: NodeCommas) -> bool
    decreases t,
{
    &&& t.head matches NodeHead::Patch { value, .. } ==> commas_fit(value, commas.value)
    &&& forall|i: int|
        0 <= i < t.children.len() ==> node_commas_fit(#[trigger] t.children[i], commas.inside[i])
}

} // verus!
