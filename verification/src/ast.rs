//! The plain-value abstract syntax tree: two flat arenas of nodes and values, addressed by
//! stable [`BsnNodeId`]s and [`BsnValueId`]s.

use vstd::prelude::*;

use crate::float::BsnFloat;
use crate::model::{
    path_text, paths_text, same_path, same_paths, same_segment, same_segments, segment_text,
    segments_text, Document, Head, Node, NodeKind, Path, Segment, Value,
};
use crate::span::Span;
use crate::text::{copy_str, push_text, same_text, string_of};

verus! {

/// The identity of a node (entity, patch or relation) inside a [`BsnDocument`].
///
/// Ids are indices into [`BsnDocument::nodes`] and are assigned in pre-order of the source
/// text, so they are identical across re-parses of identical text.
#[derive(Clone, Copy, PartialEq, Eq, Structural, PartialOrd, Ord, Hash, Debug)]
pub struct BsnNodeId(pub u32);

/// The identity of a value inside a [`BsnDocument`].
///
/// Ids are indices into [`BsnDocument::values`], assigned in pre-order of the source text.
#[derive(Clone, Copy, PartialEq, Eq, Structural, PartialOrd, Ord, Hash, Debug)]
pub struct BsnValueId(pub u32);

/// A parsed `.bsn` document.
///
/// The document owns two flat arenas — [`BsnDocument::nodes`] and [`BsnDocument::values`] —
/// and refers to their entries by index. All fields are public so that tools can build a
/// document from scratch; [`BsnDocument::push_node`] and friends keep the indices consistent.
#[derive(Clone, Debug)]
pub struct BsnDocument {
    /// Root entities, in source order.
    pub roots: Vec<BsnNodeId>,
    /// Entity, patch and relation nodes, indexed by [`BsnNodeId`].
    pub nodes: Vec<BsnNode>,
    /// Value nodes, indexed by [`BsnValueId`].
    pub values: Vec<BsnValueNode>,
}

/// A node in the [`BsnDocument`] node arena.
#[derive(Clone, Debug)]
pub struct BsnNode {
    /// This node's own id; equal to its index in [`BsnDocument::nodes`].
    pub id: BsnNodeId,
    /// The source text this node covers.
    pub span: Span,
    /// What kind of node this is.
    pub kind: BsnNodeKind,
}

/// A node in the [`BsnDocument`] value arena.
#[derive(Clone, Debug)]
pub struct BsnValueNode {
    /// This value's own id; equal to its index in [`BsnDocument::values`].
    pub id: BsnValueId,
    /// The source text this value covers.
    pub span: Span,
    /// The value itself.
    pub value: BsnValue,
}

/// The three kinds of node: entities, the patches applied to them, and their relations.
#[derive(Clone, Debug)]
pub enum BsnNodeKind {
    /// An entity: an optional `#Name`, an optional `:"base.bsn"` scene, and its entries.
    Entity {
        /// The `#Name` of the entity, without the `#`.
        name: Option<String>,
        /// The source range of the `#Name`, if any.
        name_span: Option<Span>,
        /// The `:"path.bsn"` scene, unescaped and without the quotes.
        base: Option<String>,
        /// The source range of the `:"path.bsn"` scene, if any.
        base_span: Option<Span>,
        /// The entity's patches, in source order. Every id refers to a
        /// [`BsnNodeKind::Patch`].
        patches: Vec<BsnNodeId>,
        /// The entity's relations, in source order. Every id refers to a
        /// [`BsnNodeKind::Relation`].
        relations: Vec<BsnNodeId>,
    },
    /// A patch applied to the enclosing entity, such as `Transform { … }`.
    Patch {
        /// The type path named by the patch.
        symbol: BsnPath,
        /// Which sigil, if any, preceded the path.
        prefix: BsnPatchPrefix,
        /// The patch's value. Always a [`BsnValue::Path`], [`BsnValue::Struct`] or
        /// [`BsnValue::NamedTuple`] whose path equals `symbol`.
        value: BsnValueId,
    },
    /// A relation block, such as `Children [ … ]`.
    Relation {
        /// The type path of the relationship target named by the block.
        target_symbol: BsnPath,
        /// The related entities, in source order. Every id refers to a
        /// [`BsnNodeKind::Entity`].
        entities: Vec<BsnNodeId>,
    },
}

/// Which sigil (if any) preceded a patch.
#[derive(Clone, Copy, PartialEq, Eq, Structural, Debug)]
pub enum BsnPatchPrefix {
    /// `Transform { … }` — the symbol is a component; resolve it through `FromTemplate`.
    FromTemplate,
    /// `~MyTemplate { … }` — the symbol is already a template.
    Template,
    /// `@MyWidget { … }` — the symbol is a scene component.
    SceneComponent,
}

impl BsnPatchPrefix {
    /// Returns `true` for `~`-prefixed patches.
    pub fn is_template(self) -> (r: bool)
        ensures
            r == (self == BsnPatchPrefix::Template),
    {
        matches!(self, BsnPatchPrefix::Template)
    }

    pub open spec fn spec_sigil(self) -> Seq<char> {
        match self {
            BsnPatchPrefix::FromTemplate => ""@,
            BsnPatchPrefix::Template => "~"@,
            BsnPatchPrefix::SceneComponent => "@"@,
        }
    }

    /// The sigil that produced this prefix: `""`, `"~"` or `"@"`.
    pub fn sigil(self) -> (r: &'static str)
        ensures
            r@ == self.spec_sigil(),
    {
        match self {
            BsnPatchPrefix::FromTemplate => "",
            BsnPatchPrefix::Template => "~",
            BsnPatchPrefix::SceneComponent => "@",
        }
    }
}

/// A value in the value arena.
///
/// This enum is deliberately exhaustive: a new value form is a format change that every
/// resolver must consciously handle.
#[derive(Clone, Debug)]
pub enum BsnValue {
    /// `()`
    Unit,
    /// `true` or `false`.
    Bool(bool),
    /// An integer literal. The radix and any `_` separators of the source are not preserved.
    Int(i128),
    /// A floating-point literal, including `inf`, `-inf` and `NaN`.
    Float(BsnFloat),
    /// A string literal, unescaped and without its delimiters.
    String(String),
    /// A bare path, such as `Foo` or `a::b::Foo::Bar`. The parser does not decide whether
    /// this names a unit struct or an enum variant.
    Path(BsnPath),
    /// A tuple value, such as `(1, 2)`. A one-element tuple is written `(1,)`.
    Tuple(Vec<BsnValueId>),
    /// A list value, such as `[1, 2]`.
    List(Vec<BsnValueId>),
    /// A struct value, such as `a::B { x: 1 }`. Fields are in source order.
    Struct(BsnPath, Vec<(String, BsnValueId)>),
    /// A tuple-struct or tuple-variant value, such as `a::B(1, 2)`.
    NamedTuple(BsnPath, Vec<BsnValueId>),
    /// A reference to a named entity, such as `#Root`, without the `#`.
    EntityRef(String),
}

/// A type path, such as `a::b::C<d::E>`.
#[derive(PartialEq, Eq, Debug)]
pub struct BsnPath {
    /// The `::`-separated segments. Always at least one.
    pub segments: Vec<BsnPathSegment>,
    /// The source text the whole path covers.
    pub span: Span,
}

/// One segment of a [`BsnPath`], with its optional generic arguments.
#[derive(PartialEq, Eq, Debug)]
pub struct BsnPathSegment {
    /// The segment's identifier.
    pub ident: String,
    /// Generic arguments, e.g. the `f32` in `Vec<f32>`. Empty when there are none.
    pub generics: Vec<BsnPath>,
    /// The source text the segment covers, including its generic arguments.
    pub span: Span,
}

/// The model of a path.
pub open spec fn path_view(path: BsnPath) -> Path
    decreases path,
{
    Path { segments: segments_view(path.segments@), span: path.span }
}

pub open spec fn segments_view(segments: Seq<BsnPathSegment>) -> Seq<Segment>
    decreases segments,
{
    if segments.len() == 0 {
        Seq::empty()
    } else {
        segments_view(segments.drop_last()).push(segment_view(segments.last()))
    }
}

pub open spec fn segment_view(segment: BsnPathSegment) -> Segment
    decreases segment,
{
    Segment {
        ident: segment.ident@,
        generics: paths_view(segment.generics@),
        span: segment.span,
    }
}

pub open spec fn paths_view(paths: Seq<BsnPath>) -> Seq<Path>
    decreases paths,
{
    if paths.len() == 0 {
        Seq::empty()
    } else {
        paths_view(paths.drop_last()).push(path_view(paths.last()))
    }
}

pub proof fn lemma_segments_view(segments: Seq<BsnPathSegment>)
    ensures
        segments_view(segments).len() == segments.len(),
        forall|i: int|
            0 <= i < segments.len() ==> #[trigger] segments_view(segments)[i] == segment_view(
                segments[i],
            ),
    decreases segments.len(),
{
    if segments.len() > 0 {
        lemma_segments_view(segments.drop_last());
    }
}

pub proof fn lemma_paths_view(paths: Seq<BsnPath>)
    ensures
        paths_view(paths).len() == paths.len(),
        forall|i: int|
            0 <= i < paths.len() ==> #[trigger] paths_view(paths)[i] == path_view(paths[i]),
    decreases paths.len(),
{
    if paths.len() > 0 {
        lemma_paths_view(paths.drop_last());
    }
}

pub proof fn lemma_segments_view_take(segments: Seq<BsnPathSegment>, i: int)
    requires
        0 <= i <= segments.len(),
    ensures
        segments_view(segments.take(i)) == segments_view(segments).take(i),
{
    lemma_segments_view(segments);
    lemma_segments_view(segments.take(i));
    assert(segments_view(segments.take(i)) =~= segments_view(segments).take(i));
}

impl BsnPath {
    pub open spec fn view(&self) -> Path {
        path_view(*self)
    }

    /// Appends the canonical text of the path.
    pub fn push_type_path(&self, out: &mut Vec<char>)
        ensures
            final(out)@ == old(out)@ + path_text(self@),
        decreases self,
    {
        push_segments(&self.segments, self.segments.len(), out);
        assert(self.segments@.take(self.segments.len() as int) =~= self.segments@);
    }

    /// Renders the path as a canonical type-path string: `::` between segments and `", "`
    /// between generic arguments.
    ///
    /// This is byte-identical to the type-path strings a reflection type registry uses.
    pub fn to_type_path(&self) -> (r: String)
        ensures
            r@ == path_text(self@),
    {
        let mut out: Vec<char> = Vec::new();
        self.push_type_path(&mut out);
        assert(out@ =~= path_text(self@));
        string_of(&out)
    }

    /// Everything but the last segment, or `None` if there is only one segment.
    ///
    /// Resolvers use this for the enum-variant fallback: if `a::B::C` is not a type, try
    /// `a::B` with variant `C`.
    pub fn parent_type_path(&self) -> (r: Option<String>)
        ensures
            match r {
                Some(text) => self@.segments.len() >= 2 && text@ == segments_text(
                    self@.segments.drop_last(),
                ),
                None => self@.segments.len() < 2,
            },
    {
        proof {
            lemma_segments_view(self.segments@);
        }
        if self.segments.len() < 2 {
            return None;
        }
        let mut out: Vec<char> = Vec::new();
        push_segments(&self.segments, self.segments.len() - 1, &mut out);
        proof {
            lemma_segments_view_take(self.segments@, self.segments.len() - 1);
            assert(self@.segments.take(self.segments.len() - 1) =~= self@.segments.drop_last());
            assert(out@ =~= segments_text(self@.segments.drop_last()));
        }
        Some(string_of(&out))
    }

    /// The identifier of the last segment.
    pub fn last_ident(&self) -> (r: &str)
        ensures
            r@ == last_ident(self@),
    {
        proof {
            lemma_segments_view(self.segments@);
        }
        if self.segments.len() == 0 {
            proof {
                reveal_strlit("");
            }
            assert(""@ =~= last_ident(self@));
            ""
        } else {
            self.segments[self.segments.len() - 1].ident.as_str()
        }
    }

    /// Returns `true` if the path has exactly one segment.
    pub fn is_single_segment(&self) -> (r: bool)
        ensures
            r == (self@.segments.len() == 1),
    {
        proof {
            lemma_segments_view(self.segments@);
        }
        self.segments.len() == 1
    }

    /// Builds a path from plain segment identifiers, without generic arguments.
    pub fn from_segments(idents: &[&str]) -> (r: BsnPath)
        ensures
            r@ == plain_path(idents@.map_values(|s: &str| s@)),
    {
        let mut segments: Vec<BsnPathSegment> = Vec::new();
        let mut i: usize = 0;
        while i < idents.len()
            invariant
                i <= idents.len(),
                segments_view(segments@) =~= plain_path(
                    idents@.map_values(|s: &str| s@),
                ).segments.take(i as int),
                segments@.len() == i,
            decreases idents.len() - i,
        {
            let ghost before = segments@;
            let generics: Vec<BsnPath> = Vec::new();
            assert(paths_view(generics@) =~= Seq::<Path>::empty());
            segments.push(
                BsnPathSegment { ident: copy_str(idents[i]), generics, span: Span::none() },
            );
            assert(segments@.drop_last() =~= before);
            assert(segment_view(segments@.last()) == plain_path(
                idents@.map_values(|s: &str| s@),
            ).segments[i as int]);
            i = i + 1;
        }
        let r = BsnPath { segments, span: Span::none() };
        assert(r@.segments =~= plain_path(idents@.map_values(|s: &str| s@)).segments);
        r
    }

    /// Structural equality: like `==`, but ignoring every [`Span`].
    pub fn structural_eq(&self, other: &BsnPath) -> (r: bool)
        ensures
            r == same_path(self@, other@),
        decreases self,
    {
        proof {
            lemma_segments_view(self.segments@);
            lemma_segments_view(other.segments@);
        }
        if self.segments.len() != other.segments.len() {
            return false;
        }
        let r = equal_segments(&self.segments, &other.segments, self.segments.len());
        assert(self.segments@.take(self.segments.len() as int) =~= self.segments@);
        assert(other.segments@.take(self.segments.len() as int) =~= other.segments@);
        r
    }

    /// A copy of the path.
    pub fn copy(&self) -> (r: BsnPath)
        ensures
            r@ == self@,
        decreases self,
    {
        let segments = copy_segments(&self.segments);
        BsnPath { segments, span: self.span }
    }
}

impl Clone for BsnPath {
    fn clone(&self) -> (r: Self)
        ensures
            r@ == self@,
    {
        self.copy()
    }
}

/// The identifier of the last segment of a path; empty for a path without segments.
pub open spec fn last_ident(path: Path) -> Seq<char> {
    if path.segments.len() == 0 {
        Seq::empty()
    } else {
        path.segments.last().ident
    }
}

/// A path of plain identifiers without spans.
pub open spec fn plain_path(idents: Seq<Seq<char>>) -> Path {
    Path {
        segments: Seq::new(
            idents.len(),
            |i: int|
                Segment { ident: idents[i], generics: Seq::empty(), span: Span::spec_none() },
        ),
        span: Span::spec_none(),
    }
}

/// Appends the text of the first `n` segments.
fn push_segments(segments: &Vec<BsnPathSegment>, n: usize, out: &mut Vec<char>)
    requires
        n <= segments.len(),
    ensures
        final(out)@ == old(out)@ + segments_text(segments_view(segments@.take(n as int))),
    decreases segments, 
{
    let ghost before = out@;
    let mut i: usize = 0;
    assert(segments@.take(0) =~= Seq::<BsnPathSegment>::empty());
    while i < n
        invariant
            i <= n <= segments.len(),
            out@ =~= before + segments_text(segments_view(segments@.take(i as int))),
        decreases n - i,
    {
        if i > 0 {
            push_text(out, "::");
        }
        push_segment(&segments[i], out);
        proof {
            let now = segments@.take(i as int + 1);
            assert(now.drop_last() =~= segments@.take(i as int));
            lemma_segments_view(now);
            lemma_segments_view(segments@.take(i as int));
            assert(segments_view(now).drop_last() =~= segments_view(segments@.take(i as int)));
            if i == 0 {
                assert(segments_view(now).len() == 1);
            }
        }
        i = i + 1;
    }
}

fn push_segment(segment: &BsnPathSegment, out: &mut Vec<char>)
    ensures
        final(out)@ == old(out)@ + segment_text(segment_view(*segment)),
    decreases segment,
{
    let ghost before = out@;
    proof {
        lemma_paths_view(segment.generics@);
    }
    push_text(out, segment.ident.as_str());
    if segment.generics.len() > 0 {
        push_text(out, "<");
        push_paths(&segment.generics, out);
        push_text(out, ">");
    }
    assert(out@ =~= before + segment_text(segment_view(*segment)));
}

fn push_paths(paths: &Vec<BsnPath>, out: &mut Vec<char>)
    ensures
        final(out)@ == old(out)@ + paths_text(paths_view(paths@)),
    decreases paths,
{
    let ghost before = out@;
    let mut i: usize = 0;
    assert(paths@.take(0) =~= Seq::<BsnPath>::empty());
    while i < paths.len()
        invariant
            i <= paths.len(),
            out@ =~= before + paths_text(paths_view(paths@.take(i as int))),
        decreases paths.len() - i,
    {
        if i > 0 {
            push_text(out, ", ");
        }
        paths[i].push_type_path(out);
        proof {
            let now = paths@.take(i as int + 1);
            assert(now.drop_last() =~= paths@.take(i as int));
            lemma_paths_view(now);
            lemma_paths_view(paths@.take(i as int));
            assert(paths_view(now).drop_last() =~= paths_view(paths@.take(i as int)));
            if i == 0 {
                assert(paths_view(now).len() == 1);
            }
        }
        i = i + 1;
    }
    assert(paths@.take(paths.len() as int) =~= paths@);
}

fn equal_segments(a: &Vec<BsnPathSegment>, b: &Vec<BsnPathSegment>, n: usize) -> (r: bool)
    requires
        a.len() == b.len(),
        n <= a.len(),
    ensures
        r == same_segments(
            segments_view(a@.take(n as int)),
            segments_view(b@.take(n as int)),
        ),
    decreases a, n,
{
    proof {
        lemma_segments_view(a@.take(n as int));
        lemma_segments_view(b@.take(n as int));
    }
    if n == 0 {
        return true;
    }
    proof {
        assert(a@.take(n as int).drop_last() =~= a@.take(n - 1));
        assert(b@.take(n as int).drop_last() =~= b@.take(n - 1));
        lemma_segments_view(a@.take(n - 1));
        lemma_segments_view(b@.take(n - 1));
        assert(segments_view(a@.take(n as int)).drop_last() =~= segments_view(a@.take(n - 1)));
        assert(segments_view(b@.take(n as int)).drop_last() =~= segments_view(b@.take(n - 1)));
    }
    equal_segments(a, b, n - 1) && equal_segment(&a[n - 1], &b[n - 1])
}

fn equal_segment(a: &BsnPathSegment, b: &BsnPathSegment) -> (r: bool)
    ensures
        r == same_segment(segment_view(*a), segment_view(*b)),
    decreases a, 0nat,
{
    proof {
        lemma_paths_view(a.generics@);
        lemma_paths_view(b.generics@);
    }
    if !same_text(a.ident.as_str(), b.ident.as_str()) || a.generics.len() != b.generics.len() {
        return false;
    }
    let r = equal_paths(&a.generics, &b.generics, a.generics.len());
    assert(a.generics@.take(a.generics.len() as int) =~= a.generics@);
    assert(b.generics@.take(a.generics.len() as int) =~= b.generics@);
    r
}

fn equal_paths(a: &Vec<BsnPath>, b: &Vec<BsnPath>, n: usize) -> (r: bool)
    requires
        a.len() == b.len(),
        n <= a.len(),
    ensures
        r == same_paths(paths_view(a@.take(n as int)), paths_view(b@.take(n as int))),
    decreases a, n,
{
    proof {
        lemma_paths_view(a@.take(n as int));
        lemma_paths_view(b@.take(n as int));
    }
    if n == 0 {
        return true;
    }
    proof {
        assert(a@.take(n as int).drop_last() =~= a@.take(n - 1));
        assert(b@.take(n as int).drop_last() =~= b@.take(n - 1));
        lemma_paths_view(a@.take(n - 1));
        lemma_paths_view(b@.take(n - 1));
        assert(paths_view(a@.take(n as int)).drop_last() =~= paths_view(a@.take(n - 1)));
        assert(paths_view(b@.take(n as int)).drop_last() =~= paths_view(b@.take(n - 1)));
    }
    equal_paths(a, b, n - 1) && a[n - 1].structural_eq(&b[n - 1])
}

fn copy_segments(segments: &Vec<BsnPathSegment>) -> (r: Vec<BsnPathSegment>)
    ensures
        segments_view(r@) == segments_view(segments@),
    decreases segments,
{
    let mut r: Vec<BsnPathSegment> = Vec::new();
    let mut i: usize = 0;
    assert(segments@.take(0) =~= Seq::<BsnPathSegment>::empty());
    while i < segments.len()
        invariant
            i <= segments.len(),
            segments_view(r@) == segments_view(segments@.take(i as int)),
        decreases segments.len() - i,
    {
        let ghost before = r@;
        let segment = copy_segment(&segments[i]);
        r.push(segment);
        assert(r@.drop_last() =~= before);
        assert(segments@.take(i as int + 1).drop_last() =~= segments@.take(i as int));
        i = i + 1;
    }
    assert(segments@.take(segments.len() as int) =~= segments@);
    r
}

fn copy_segment(segment: &BsnPathSegment) -> (r: BsnPathSegment)
    ensures
        segment_view(r) == segment_view(*segment),
    decreases segment,
{
    let generics = copy_paths(&segment.generics);
    BsnPathSegment { ident: copy_str(segment.ident.as_str()), generics, span: segment.span }
}

fn copy_paths(paths: &Vec<BsnPath>) -> (r: Vec<BsnPath>)
    ensures
        paths_view(r@) == paths_view(paths@),
    decreases paths,
{
    let mut r: Vec<BsnPath> = Vec::new();
    let mut i: usize = 0;
    assert(paths@.take(0) =~= Seq::<BsnPath>::empty());
    while i < paths.len()
        invariant
            i <= paths.len(),
            paths_view(r@) == paths_view(paths@.take(i as int)),
        decreases paths.len() - i,
    {
        let ghost before = r@;
        let path = paths[i].copy();
        r.push(path);
        assert(r@.drop_last() =~= before);
        assert(paths@.take(i as int + 1).drop_last() =~= paths@.take(i as int));
        i = i + 1;
    }
    assert(paths@.take(paths.len() as int) =~= paths@);
    r
}

/// What follows a patch's path when building one with [`BsnDocument::push_patch`].
#[derive(Clone, Debug)]
pub enum PatchBody {
    /// No body at all: `Foo`.
    Unit,
    /// A struct body: `Foo { x: 1 }`.
    Struct(Vec<(String, BsnValueId)>),
    /// A tuple body: `Foo(1, 2)`.
    Tuple(Vec<BsnValueId>),
}

/// The integers of a list of value ids.
pub open spec fn value_ids(ids: Seq<BsnValueId>) -> Seq<int> {
    ids.map_values(|id: BsnValueId| id.0 as int)
}

/// The integers of a list of node ids.
pub open spec fn node_ids(ids: Seq<BsnNodeId>) -> Seq<int> {
    ids.map_values(|id: BsnNodeId| id.0 as int)
}

/// The names of a list of fields.
pub open spec fn field_names(fields: Seq<(String, BsnValueId)>) -> Seq<Seq<char>> {
    fields.map_values(|field: (String, BsnValueId)| field.0@)
}

/// The values of a list of fields.
pub open spec fn field_ids(fields: Seq<(String, BsnValueId)>) -> Seq<int> {
    fields.map_values(|field: (String, BsnValueId)| field.1.0 as int)
}

pub open spec fn text_view(text: Option<String>) -> Option<Seq<char>> {
    match text {
        Some(text) => Some(text@),
        None => None,
    }
}

impl BsnValue {
    pub open spec fn head(&self) -> Head {
        match self {
            BsnValue::Unit => Head::Unit,
            BsnValue::Bool(b) => Head::Bool(*b),
            BsnValue::Int(v) => Head::Int(*v as int),
            BsnValue::Float(f) => Head::Float(f@),
            BsnValue::String(s) => Head::Str(s@),
            BsnValue::Path(path) => Head::Path(path@),
            BsnValue::Tuple(_) => Head::Tuple,
            BsnValue::List(_) => Head::List,
            BsnValue::Struct(path, _) => Head::Struct(path@),
            BsnValue::NamedTuple(path, _) => Head::NamedTuple(path@),
            BsnValue::EntityRef(name) => Head::EntityRef(name@),
        }
    }

    pub open spec fn names(&self) -> Seq<Seq<char>> {
        match self {
            BsnValue::Struct(_, fields) => field_names(fields@),
            _ => Seq::empty(),
        }
    }

    pub open spec fn children(&self) -> Seq<int> {
        match self {
            BsnValue::Tuple(items) => value_ids(items@),
            BsnValue::List(items) => value_ids(items@),
            BsnValue::NamedTuple(_, items) => value_ids(items@),
            BsnValue::Struct(_, fields) => field_ids(fields@),
            _ => Seq::empty(),
        }
    }
}

impl BsnValueNode {
    pub open spec fn view(&self) -> Value {
        Value {
            id: self.id.0 as int,
            span: self.span,
            head: self.value.head(),
            names: self.value.names(),
            children: self.value.children(),
        }
    }
}

impl BsnNodeKind {
    pub open spec fn view(&self) -> NodeKind {
        match self {
            BsnNodeKind::Entity { name, name_span, base, base_span, patches, relations } =>
                NodeKind::Entity {
                name: text_view(*name),
                name_span: *name_span,
                base: text_view(*base),
                base_span: *base_span,
                patches: node_ids(patches@),
                relations: node_ids(relations@),
            },
            BsnNodeKind::Patch { symbol, prefix, value } => NodeKind::Patch {
                symbol: symbol@,
                prefix: *prefix,
                value: value.0 as int,
            },
            BsnNodeKind::Relation { target_symbol, entities } => NodeKind::Relation {
                target: target_symbol@,
                entities: node_ids(entities@),
            },
        }
    }
}

impl BsnNode {
    pub open spec fn view(&self) -> Node {
        Node { id: self.id.0 as int, span: self.span, kind: self.kind@ }
    }
}

/// The models of a node arena.
pub open spec fn nodes_view(nodes: Seq<BsnNode>) -> Seq<Node> {
    nodes.map_values(|node: BsnNode| node@)
}

/// The models of a value arena.
pub open spec fn values_view(values: Seq<BsnValueNode>) -> Seq<Value> {
    values.map_values(|value: BsnValueNode| value@)
}

/// The entities among `nodes`, in order.
pub open spec fn entities_of(nodes: Seq<Node>) -> Seq<Node>
    decreases nodes.len(),
{
    if nodes.len() == 0 {
        Seq::empty()
    } else if nodes.last().kind is Entity {
        entities_of(nodes.drop_last()).push(nodes.last())
    } else {
        entities_of(nodes.drop_last())
    }
}

/// The head, names and children of the value that a patch body stands for.
pub open spec fn patch_head(path: Path, body: PatchBody) -> Head {
    match body {
        PatchBody::Unit => Head::Path(path),
        PatchBody::Struct(_) => Head::Struct(path),
        PatchBody::Tuple(_) => Head::NamedTuple(path),
    }
}

pub open spec fn patch_names(body: PatchBody) -> Seq<Seq<char>> {
    match body {
        PatchBody::Struct(fields) => field_names(fields@),
        _ => Seq::empty(),
    }
}

pub open spec fn patch_children(body: PatchBody) -> Seq<int> {
    match body {
        PatchBody::Unit => Seq::empty(),
        PatchBody::Struct(fields) => field_ids(fields@),
        PatchBody::Tuple(items) => value_ids(items@),
    }
}

impl BsnDocument {
    pub open spec fn view(&self) -> Document {
        Document {
            roots: node_ids(self.roots@),
            nodes: nodes_view(self.nodes@),
            values: values_view(self.values@),
        }
    }

    /// An empty document. Identical to [`Default::default`].
    pub fn new() -> (r: Self)
        ensures
            r@ == (Document { roots: Seq::empty(), nodes: Seq::empty(), values: Seq::empty() }),
    {
        let r = BsnDocument { roots: Vec::new(), nodes: Vec::new(), values: Vec::new() };
        assert(r@.roots =~= Seq::<int>::empty());
        assert(r@.nodes =~= Seq::<Node>::empty());
        assert(r@.values =~= Seq::<Value>::empty());
        r
    }

    /// Looks up a node by id, or `None` if the id is out of bounds.
    pub fn node(&self, id: BsnNodeId) -> (r: Option<&BsnNode>)
        ensures
            match r {
                Some(node) => self@.node(id.0 as int) == Some(node@) && *node
                    == self.nodes@[id.0 as int],
                None => self@.node(id.0 as int) is None,
            },
    {
        if (id.0 as usize) < self.nodes.len() {
            Some(&self.nodes[id.0 as usize])
        } else {
            None
        }
    }

    /// Looks up a value by id, or `None` if the id is out of bounds.
    pub fn value(&self, id: BsnValueId) -> (r: Option<&BsnValueNode>)
        ensures
            match r {
                Some(value) => self@.value(id.0 as int) == Some(value@) && *value
                    == self.values@[id.0 as int],
                None => self@.value(id.0 as int) is None,
            },
    {
        if (id.0 as usize) < self.values.len() {
            Some(&self.values[id.0 as usize])
        } else {
            None
        }
    }

    /// Every entity node in document order (that is, in ascending id).
    pub fn entities(&self) -> (r: Vec<&BsnNode>)
        ensures
            r@.map_values(|node: &BsnNode| node@) == entities_of(self@.nodes),
    {
        let mut r: Vec<&BsnNode> = Vec::new();
        let mut i: usize = 0;
        assert(self@.nodes.take(0) =~= Seq::<Node>::empty());
        assert(r@.map_values(|node: &BsnNode| node@) =~= Seq::<Node>::empty());
        while i < self.nodes.len()
            invariant
                i <= self.nodes.len(),
                r@.map_values(|node: &BsnNode| node@) == entities_of(self@.nodes.take(i as int)),
            decreases self.nodes.len() - i,
        {
            let ghost before = r@;
            assert(self@.nodes.take(i as int + 1).drop_last() =~= self@.nodes.take(i as int));
            assert(self@.nodes.take(i as int + 1).last() == self.nodes@[i as int]@);
            if let BsnNodeKind::Entity { .. } = &self.nodes[i].kind {
                r.push(&self.nodes[i]);
                assert(r@.map_values(|node: &BsnNode| node@) =~= before.map_values(
                    |node: &BsnNode| node@,
                ).push(self.nodes@[i as int]@));
            }
            i = i + 1;
        }
        assert(self@.nodes.take(self.nodes.len() as int) =~= self@.nodes);
        r
    }

    /// Appends a value node with the [`Span::none`] placeholder span and returns its id.
    pub fn push_value(&mut self, value: BsnValue) -> (id: BsnValueId)
        requires
            old(self)@.values.len() <= u32::MAX,
        ensures
            id.0 == old(self)@.values.len(),
            final(self)@ == (Document {
                values: old(self)@.values.push(
                    Value {
                        id: id.0 as int,
                        span: Span::spec_none(),
                        head: value.head(),
                        names: value.names(),
                        children: value.children(),
                    },
                ),
                ..old(self)@
            }),
    {
        self.push_value_spanned(value, Span::none())
    }

    /// Appends a value node with an explicit span and returns its id.
    pub fn push_value_spanned(&mut self, value: BsnValue, span: Span) -> (id: BsnValueId)
        requires
            old(self)@.values.len() <= u32::MAX,
        ensures
            id.0 == old(self)@.values.len(),
            final(self)@ == (Document {
                values: old(self)@.values.push(
                    Value {
                        id: id.0 as int,
                        span,
                        head: value.head(),
                        names: value.names(),
                        children: value.children(),
                    },
                ),
                ..old(self)@
            }),
    {
        let id = BsnValueId(self.values.len() as u32);
        self.values.push(BsnValueNode { id, span, value });
        assert(self@.values =~= old(self)@.values.push(self.values@.last()@));
        id
    }

    /// Appends a node with the [`Span::none`] placeholder span and returns its id.
    pub fn push_node(&mut self, kind: BsnNodeKind) -> (id: BsnNodeId)
        requires
            old(self)@.nodes.len() <= u32::MAX,
        ensures
            id.0 == old(self)@.nodes.len(),
            final(self)@ == (Document {
                nodes: old(self)@.nodes.push(
                    Node { id: id.0 as int, span: Span::spec_none(), kind: kind@ },
                ),
                ..old(self)@
            }),
    {
        self.push_node_spanned(kind, Span::none())
    }

    /// Appends a node with an explicit span and returns its id.
    pub fn push_node_spanned(&mut self, kind: BsnNodeKind, span: Span) -> (id: BsnNodeId)
        requires
            old(self)@.nodes.len() <= u32::MAX,
        ensures
            id.0 == old(self)@.nodes.len(),
            final(self)@ == (Document {
                nodes: old(self)@.nodes.push(Node { id: id.0 as int, span, kind: kind@ }),
                ..old(self)@
            }),
    {
        let id = BsnNodeId(self.nodes.len() as u32);
        self.nodes.push(BsnNode { id, span, kind });
        assert(self@.nodes =~= old(self)@.nodes.push(self.nodes@.last()@));
        id
    }

    /// Marks an existing node as a document root by appending it to [`BsnDocument::roots`].
    pub fn push_root(&mut self, id: BsnNodeId)
        ensures
            final(self)@ == (Document { roots: old(self)@.roots.push(id.0 as int), ..old(self)@ }),
    {
        self.roots.push(id);
        assert(self@.roots =~= old(self)@.roots.push(id.0 as int));
    }

    /// Appends a patch node, building the matching value for you so that the patch/value
    /// invariant holds.
    pub fn push_patch(&mut self, prefix: BsnPatchPrefix, path: BsnPath, body: PatchBody) -> (id:
        BsnNodeId)
        requires
            old(self)@.nodes.len() <= u32::MAX,
            old(self)@.values.len() <= u32::MAX,
        ensures
            id.0 == old(self)@.nodes.len(),
            final(self)@ == (Document {
                roots: old(self)@.roots,
                nodes: old(self)@.nodes.push(
                    Node {
                        id: id.0 as int,
                        span: Span::spec_none(),
                        kind: NodeKind::Patch {
                            symbol: path@,
                            prefix,
                            value: old(self)@.values.len() as int,
                        },
                    },
                ),
                values: old(self)@.values.push(
                    Value {
                        id: old(self)@.values.len() as int,
                        span: Span::spec_none(),
                        head: patch_head(path@, body),
                        names: patch_names(body),
                        children: patch_children(body),
                    },
                ),
            }),
    {
        let value = match body {
            PatchBody::Unit => BsnValue::Path(path.copy()),
            PatchBody::Struct(fields) => BsnValue::Struct(path.copy(), fields),
            PatchBody::Tuple(items) => BsnValue::NamedTuple(path.copy(), items),
        };
        let value = self.push_value(value);
        self.push_node(BsnNodeKind::Patch { symbol: path, prefix, value })
    }
}

impl Default for BsnDocument {
    fn default() -> (r: Self)
        ensures
            r@ == (Document { roots: Seq::empty(), nodes: Seq::empty(), values: Seq::empty() }),
    {
        BsnDocument::new()
    }
}

} // verus!
