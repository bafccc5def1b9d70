//! Mathematical models of documents: paths, values and nodes with sequences in place of
//! vectors and strings, and ids as integers.

use vstd::prelude::*;

use crate::ast::BsnPatchPrefix;
use crate::float::Float;
use crate::span::Span;

verus! {

/// A type path.
pub ghost struct Path {
    pub segments: Seq<Segment>,
    pub span: Span,
}

/// A segment of a type path.
pub ghost struct Segment {
    pub ident: Seq<char>,
    pub generics: Seq<Path>,
    pub span: Span,
}

/// What a value is, apart from the values inside it.
pub ghost enum Head {
    Unit,
    Bool(bool),
    Int(int),
    Float(Float),
    Str(Seq<char>),
    EntityRef(Seq<char>),
    Path(Path),
    Tuple,
    List,
    Struct(Path),
    NamedTuple(Path),
}

/// A value of the value arena. `children` are the ids of the values inside it; for a struct,
/// `names` are their field names.
pub ghost struct Value {
    pub id: int,
    pub span: Span,
    pub head: Head,
    pub names: Seq<Seq<char>>,
    pub children: Seq<int>,
}

/// What a node is.
pub ghost enum NodeKind {
    Entity {
        name: Option<Seq<char>>,
        name_span: Option<Span>,
        base: Option<Seq<char>>,
        base_span: Option<Span>,
        patches: Seq<int>,
        relations: Seq<int>,
    },
    Patch { symbol: Path, prefix: BsnPatchPrefix, value: int },
    Relation { target: Path, entities: Seq<int> },
}

/// A node of the node arena.
pub ghost struct Node {
    pub id: int,
    pub span: Span,
    pub kind: NodeKind,
}

/// A document: two arenas and the roots.
pub ghost struct Document {
    pub roots: Seq<int>,
    pub nodes: Seq<Node>,
    pub values: Seq<Value>,
}

impl Document {
    /// The node with the given id.
    pub open spec fn node(self, id: int) -> Option<Node> {
        if 0 <= id < self.nodes.len() {
            Some(self.nodes[id])
        } else {
            None
        }
    }

    /// The value with the given id.
    pub open spec fn value(self, id: int) -> Option<Value> {
        if 0 <= id < self.values.len() {
            Some(self.values[id])
        } else {
            None
        }
    }

    /// Whether every node and value carries its own index as its id.
    pub open spec fn ids_match(self) -> bool {
        &&& forall|i: int| 0 <= i < self.nodes.len() ==> (#[trigger] self.nodes[i]).id == i
        &&& forall|i: int| 0 <= i < self.values.len() ==> (#[trigger] self.values[i]).id == i
    }
}

/// The canonical text of a path: `::` between segments and `, ` between generic arguments.
pub open spec fn path_text(path: Path) -> Seq<char>
    decreases path,
{
    segments_text(path.segments)
}

pub open spec fn segments_text(segments: Seq<Segment>) -> Seq<char>
    decreases segments,
{
    if segments.len() == 0 {
        Seq::empty()
    } else if segments.len() == 1 {
        segment_text(segments[0])
    } else {
        segments_text(segments.drop_last()) + "::"@ + segment_text(segments.last())
    }
}

pub open spec fn segment_text(segment: Segment) -> Seq<char>
    decreases segment,
{
    if segment.generics.len() == 0 {
        segment.ident
    } else {
        segment.ident + "<"@ + paths_text(segment.generics) + ">"@
    }
}

pub open spec fn paths_text(paths: Seq<Path>) -> Seq<char>
    decreases paths,
{
    if paths.len() == 0 {
        Seq::empty()
    } else if paths.len() == 1 {
        path_text(paths[0])
    } else {
        paths_text(paths.drop_last()) + ", "@ + path_text(paths.last())
    }
}

/// Whether two paths differ in their spans at most.
pub open spec fn same_path(a: Path, b: Path) -> bool
    decreases a,
{
    same_segments(a.segments, b.segments)
}

pub open spec fn same_segments(a: Seq<Segment>, b: Seq<Segment>) -> bool
    decreases a,
{
    &&& a.len() == b.len()
    &&& a.len() > 0 ==> same_segments(a.drop_last(), b.drop_last()) && same_segment(
        a.last(),
        b.last(),
    )
}

pub open spec fn same_segment(a: Segment, b: Segment) -> bool
    decreases a,
{
    a.ident == b.ident && same_paths(a.generics, b.generics)
}

pub open spec fn same_paths(a: Seq<Path>, b: Seq<Path>) -> bool
    decreases a,
{
    &&& a.len() == b.len()
    &&& a.len() > 0 ==> same_paths(a.drop_last(), b.drop_last()) && same_path(a.last(), b.last())
}

} // verus!
