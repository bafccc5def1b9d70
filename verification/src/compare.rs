//! Structural equality of documents.

use vstd::prelude::*;

use crate::ast::{
    field_ids, field_names, node_ids, value_ids, BsnDocument, BsnNodeId, BsnNodeKind, BsnValue,
    BsnValueId,
};
use crate::model::{same_path, Document, Head, NodeKind};
use crate::render::MAX_WALK_DEPTH;
use crate::text::same_text;

verus! {

/// Whether two values agree apart from the values inside them. A unit is an empty tuple.
pub open spec fn same_head(a: Head, b: Head) -> bool {
    match a {
        Head::Unit => b is Unit || b is Tuple,
        Head::Tuple => b is Unit || b is Tuple,
        Head::Bool(x) => b == Head::Bool(x),
        Head::Int(x) => b == Head::Int(x),
        Head::Float(x) => b matches Head::Float(y) && x.same(y),
        Head::Str(x) => b == Head::Str(x),
        Head::EntityRef(x) => b == Head::EntityRef(x),
        Head::Path(x) => b matches Head::Path(y) && same_path(x, y),
        Head::List => b is List,
        Head::Struct(x) => b matches Head::Struct(y) && same_path(x, y),
        Head::NamedTuple(x) => b matches Head::NamedTuple(y) && same_path(x, y),
    }
}

/// Whether the value `a` of `d` and the value `b` of `e` are structurally equal.
pub open spec fn same_value(d: Document, a: int, e: Document, b: int, depth: nat) -> bool
    decreases MAX_WALK_DEPTH + 1 - depth, 0nat,
{
    if depth > MAX_WALK_DEPTH {
        false
    } else {
        match (d.value(a), e.value(b)) {
            (Some(x), Some(y)) => {
                &&& same_head(x.head, y.head)
                &&& x.names == y.names
                &&& x.children.len() == y.children.len()
                &&& same_values(d, x.children, e, y.children, x.children.len(), depth)
            },
            _ => false,
        }
    }
}

/// Whether the first `n` values of two lists, one level deeper than `depth`, are structurally
/// equal.
pub open spec fn same_values(
    d: Document,
    xs: Seq<int>,
    e: Document,
    ys: Seq<int>,
    n: nat,
    depth: nat,
) -> bool
    decreases MAX_WALK_DEPTH - depth, n + 1,
    when depth <= MAX_WALK_DEPTH
{
    n > 0 ==> same_values(d, xs, e, ys, (n - 1) as nat, depth) && same_value(
        d,
        xs[n - 1],
        e,
        ys[n - 1],
        depth + 1,
    )
}

/// Whether the node `a` of `d` and the node `b` of `e` are structurally equal.
pub open spec fn same_node(d: Document, a: int, e: Document, b: int, depth: nat) -> bool
    decreases MAX_WALK_DEPTH + 1 - depth, 0nat,
{
    if depth > MAX_WALK_DEPTH {
        false
    } else {
        match (d.node(a), e.node(b)) {
            (Some(x), Some(y)) => match (x.kind, y.kind) {
                (
                    NodeKind::Entity { name, base, patches, relations, .. },
                    NodeKind::Entity {
                        name: other_name,
                        base: other_base,
                        patches: other_patches,
                        relations: other_relations,
                        ..
                    },
                ) => {
                    &&& name == other_name
                    &&& base == other_base
                    &&& patches.len() == other_patches.len()
                    &&& relations.len() == other_relations.len()
                    &&& same_nodes(d, patches, e, other_patches, patches.len(), depth)
                    &&& same_nodes(d, relations, e, other_relations, relations.len(), depth)
                },
                (
                    NodeKind::Patch { symbol, prefix, value },
                    NodeKind::Patch {
                        symbol: other_symbol,
                        prefix: other_prefix,
                        value: other_value,
                    },
                ) => {
                    &&& prefix == other_prefix
                    &&& same_path(symbol, other_symbol)
                    &&& same_value(d, value, e, other_value, depth + 1)
                },
                (
                    NodeKind::Relation { target, entities },
                    NodeKind::Relation { target: other_target, entities: other_entities },
                ) => {
                    &&& same_path(target, other_target)
                    &&& entities.len() == other_entities.len()
                    &&& same_nodes(d, entities, e, other_entities, entities.len(), depth)
                },
                _ => false,
            },
            _ => false,
        }
    }
}

/// Whether the first `n` nodes of two lists, one level deeper than `depth`, are structurally
/// equal.
pub open spec fn same_nodes(
    d: Document,
    xs: Seq<int>,
    e: Document,
    ys: Seq<int>,
    n: nat,
    depth: nat,
) -> bool
    decreases MAX_WALK_DEPTH - depth, n + 1,
    when depth <= MAX_WALK_DEPTH
{
    n > 0 ==> same_nodes(d, xs, e, ys, (n - 1) as nat, depth) && same_node(
        d,
        xs[n - 1],
        e,
        ys[n - 1],
        depth + 1,
    )
}

/// Whether the first `n` roots are structurally equal.
pub open spec fn same_roots(d: Document, e: Document, n: nat) -> bool
    decreases n,
{
    n > 0 ==> same_roots(d, e, (n - 1) as nat) && same_node(
        d,
        d.roots[n - 1],
        e,
        e.roots[n - 1],
        0,
    )
}

/// Whether two documents are structurally equal: equal but for spans, ids and the order of the
/// arenas.
pub open spec fn same_document(d: Document, e: Document) -> bool {
    d.roots.len() == e.roots.len() && same_roots(d, e, d.roots.len())
}

/// A shorter list of values is equal when a longer one is.
proof fn lemma_same_values_prefix(
    d: Document,
    xs: Seq<int>,
    e: Document,
    ys: Seq<int>,
    n: nat,
    m: nat,
    depth: nat,
)
    requires
        depth <= MAX_WALK_DEPTH,
        n <= m,
        same_values(d, xs, e, ys, m, depth),
    ensures
        same_values(d, xs, e, ys, n, depth),
    decreases m,
{
    if n < m {
        lemma_same_values_prefix(d, xs, e, ys, n, (m - 1) as nat, depth);
    }
}

proof fn lemma_same_nodes_prefix(
    d: Document,
    xs: Seq<int>,
    e: Document,
    ys: Seq<int>,
    n: nat,
    m: nat,
    depth: nat,
)
    requires
        depth <= MAX_WALK_DEPTH,
        n <= m,
        same_nodes(d, xs, e, ys, m, depth),
    ensures
        same_nodes(d, xs, e, ys, n, depth),
    decreases m,
{
    if n < m {
        lemma_same_nodes_prefix(d, xs, e, ys, n, (m - 1) as nat, depth);
    }
}

proof fn lemma_same_roots_prefix(d: Document, e: Document, n: nat, m: nat)
    requires
        n <= m,
        same_roots(d, e, m),
    ensures
        same_roots(d, e, n),
    decreases m,
{
    if n < m {
        lemma_same_roots_prefix(d, e, n, (m - 1) as nat);
    }
}

fn same_option_text(a: &Option<String>, b: &Option<String>) -> (r: bool)
    ensures
        r == (crate::ast::text_view(*a) == crate::ast::text_view(*b)),
{
    match (a, b) {
        (Some(a), Some(b)) => same_text(a.as_str(), b.as_str()),
        (None, None) => true,
        _ => false,
    }
}

impl BsnDocument {
    /// Structural equality, ignoring every [`crate::Span`].
    ///
    /// Floats are compared by their bits, so `0.0` does not equal `-0.0`, but every `NaN` of a
    /// given sign equals every other. A unit equals an empty tuple. Ids are compared by the
    /// position they occupy in the traversal rather than by value, so two documents whose
    /// arenas are ordered differently can still be equal.
    pub fn structural_eq(&self, other: &BsnDocument) -> (r: bool)
        ensures
            r == same_document(self@, other@),
    {
        if self.roots.len() != other.roots.len() {
            return false;
        }
        let mut i: usize = 0;
        while i < self.roots.len()
            invariant
                i <= self.roots.len(),
                self.roots.len() == other.roots.len(),
                same_roots(self@, other@, i as nat),
            decreases self.roots.len() - i,
        {
            if !self.node_eq(self.roots[i], other, other.roots[i], 0) {
                proof {
                    if same_roots(self@, other@, self@.roots.len()) {
                        lemma_same_roots_prefix(
                            self@,
                            other@,
                            (i + 1) as nat,
                            self@.roots.len(),
                        );
                    }
                }
                return false;
            }
            i = i + 1;
        }
        true
    }

    fn node_eq(&self, id: BsnNodeId, other: &BsnDocument, other_id: BsnNodeId, depth: u32) -> (r:
        bool)
        requires
            depth <= MAX_WALK_DEPTH + 1,
        ensures
            r == same_node(self@, id.0 as int, other@, other_id.0 as int, depth as nat),
        decreases MAX_WALK_DEPTH + 1 - depth, 1nat,
    {
        if depth > MAX_WALK_DEPTH {
            return false;
        }
        let (a, b) = match (self.node(id), other.node(other_id)) {
            (Some(a), Some(b)) => (a, b),
            _ => {
                return false;
            },
        };
        match (&a.kind, &b.kind) {
            (
                BsnNodeKind::Entity { name, base, patches, relations, .. },
                BsnNodeKind::Entity {
                    name: other_name,
                    base: other_base,
                    patches: other_patches,
                    relations: other_relations,
                    ..
                },
            ) => {
                same_option_text(name, other_name) && same_option_text(base, other_base)
                    && self.nodes_eq(patches, other, other_patches, depth) && self.nodes_eq(
                    relations,
                    other,
                    other_relations,
                    depth,
                )
            },
            (
                BsnNodeKind::Patch { symbol, prefix, value },
                BsnNodeKind::Patch {
                    symbol: other_symbol,
                    prefix: other_prefix,
                    value: other_value,
                },
            ) => {
                *prefix == *other_prefix && symbol.structural_eq(other_symbol) && self.value_eq(
                    *value,
                    other,
                    *other_value,
                    depth + 1,
                )
            },
            (
                BsnNodeKind::Relation { target_symbol, entities },
                BsnNodeKind::Relation { target_symbol: other_symbol, entities: other_entities },
            ) => {
                target_symbol.structural_eq(other_symbol) && self.nodes_eq(
                    entities,
                    other,
                    other_entities,
                    depth,
                )
            },
            _ => false,
        }
    }

    /// Compares two lists of nodes, one level deeper than `depth`.
    #[verifier::loop_isolation(false)]
    fn nodes_eq(
        &self,
        xs: &Vec<BsnNodeId>,
        other: &BsnDocument,
        ys: &Vec<BsnNodeId>,
        depth: u32,
    ) -> (r: bool)
        requires
            depth <= MAX_WALK_DEPTH,
        ensures
            r == (xs@.len() == ys@.len() && same_nodes(
                self@,
                node_ids(xs@),
                other@,
                node_ids(ys@),
                xs@.len(),
                depth as nat,
            )),
        decreases MAX_WALK_DEPTH + 1 - depth, 0nat,
    {
        let ghost a = node_ids(xs@);
        let ghost b = node_ids(ys@);
        if xs.len() != ys.len() {
            return false;
        }
        let mut i: usize = 0;
        while i < xs.len()
            invariant
                i <= xs.len(),
                same_nodes(self@, a, other@, b, i as nat, depth as nat),
            decreases xs.len() - i,
        {
            if !self.node_eq(xs[i], other, ys[i], depth + 1) {
                proof {
                    if same_nodes(self@, a, other@, b, a.len(), depth as nat) {
                        lemma_same_nodes_prefix(
                            self@,
                            a,
                            other@,
                            b,
                            (i + 1) as nat,
                            a.len(),
                            depth as nat,
                        );
                    }
                }
                return false;
            }
            i = i + 1;
        }
        true
    }

    fn value_eq(
        &self,
        id: BsnValueId,
        other: &BsnDocument,
        other_id: BsnValueId,
        depth: u32,
    ) -> (r: bool)
        requires
            depth <= MAX_WALK_DEPTH + 1,
        ensures
            r == same_value(self@, id.0 as int, other@, other_id.0 as int, depth as nat),
        decreases MAX_WALK_DEPTH + 1 - depth, 1nat,
    {
        if depth > MAX_WALK_DEPTH {
            return false;
        }
        let (a, b) = match (self.value(id), other.value(other_id)) {
            (Some(a), Some(b)) => (a, b),
            _ => {
                return false;
            },
        };
        let ghost x = a@;
        let ghost y = b@;
        match (&a.value, &b.value) {
            (BsnValue::Unit, BsnValue::Unit) => true,
            (BsnValue::Unit, BsnValue::Tuple(b)) => b.len() == 0,
            (BsnValue::Tuple(a), BsnValue::Unit) => a.len() == 0,
            (BsnValue::Bool(a), BsnValue::Bool(b)) => *a == *b,
            (BsnValue::Int(a), BsnValue::Int(b)) => *a == *b,
            (BsnValue::Float(a), BsnValue::Float(b)) => a.same(b),
            (BsnValue::String(a), BsnValue::String(b)) => same_text(a.as_str(), b.as_str()),
            (BsnValue::EntityRef(a), BsnValue::EntityRef(b)) => same_text(a.as_str(), b.as_str()),
            (BsnValue::Path(a), BsnValue::Path(b)) => a.structural_eq(b),
            (BsnValue::Tuple(a), BsnValue::Tuple(b)) => self.values_eq(a, other, b, depth),
            (BsnValue::List(a), BsnValue::List(b)) => self.values_eq(a, other, b, depth),
            (BsnValue::NamedTuple(path, a), BsnValue::NamedTuple(other_path, b)) => {
                path.structural_eq(other_path) && self.values_eq(a, other, b, depth)
            },
            (BsnValue::Struct(path, a), BsnValue::Struct(other_path, b)) => {
                path.structural_eq(other_path) && self.fields_eq(a, other, b, depth)
            },
            _ => false,
        }
    }

    /// Compares two lists of values, one level deeper than `depth`.
    #[verifier::loop_isolation(false)]
    fn values_eq(
        &self,
        xs: &Vec<BsnValueId>,
        other: &BsnDocument,
        ys: &Vec<BsnValueId>,
        depth: u32,
    ) -> (r: bool)
        requires
            depth <= MAX_WALK_DEPTH,
        ensures
            r == (xs@.len() == ys@.len() && same_values(
                self@,
                value_ids(xs@),
                other@,
                value_ids(ys@),
                xs@.len(),
                depth as nat,
            )),
        decreases MAX_WALK_DEPTH + 1 - depth, 0nat,
    {
        let ghost a = value_ids(xs@);
        let ghost b = value_ids(ys@);
        if xs.len() != ys.len() {
            return false;
        }
        let mut i: usize = 0;
        while i < xs.len()
            invariant
                i <= xs.len(),
                same_values(self@, a, other@, b, i as nat, depth as nat),
            decreases xs.len() - i,
        {
            if !self.value_eq(xs[i], other, ys[i], depth + 1) {
                proof {
                    if same_values(self@, a, other@, b, a.len(), depth as nat) {
                        lemma_same_values_prefix(
                            self@,
                            a,
                            other@,
                            b,
                            (i + 1) as nat,
                            a.len(),
                            depth as nat,
                        );
                    }
                }
                return false;
            }
            i = i + 1;
        }
        true
    }

    /// Compares two lists of fields, one level deeper than `depth`.
    #[verifier::loop_isolation(false)]
    fn fields_eq(
        &self,
        xs: &Vec<(String, BsnValueId)>,
        other: &BsnDocument,
        ys: &Vec<(String, BsnValueId)>,
        depth: u32,
    ) -> (r: bool)
        requires
            depth <= MAX_WALK_DEPTH,
        ensures
            r == (xs@.len() == ys@.len() && field_names(xs@) == field_names(ys@) && same_values(
                self@,
                field_ids(xs@),
                other@,
                field_ids(ys@),
                xs@.len(),
                depth as nat,
            )),
        decreases MAX_WALK_DEPTH + 1 - depth, 0nat,
    {
        let ghost a = field_ids(xs@);
        let ghost b = field_ids(ys@);
        if xs.len() != ys.len() {
            return false;
        }
        let mut i: usize = 0;
        while i < xs.len()
            invariant
                i <= xs.len(),
                forall|k: int|
                    0 <= k < i ==> (#[trigger] field_names(xs@)[k]) == field_names(ys@)[k],
                same_values(self@, a, other@, b, i as nat, depth as nat),
            decreases xs.len() - i,
        {
            if !same_text(xs[i].0.as_str(), ys[i].0.as_str()) {
                assert(field_names(xs@)[i as int] != field_names(ys@)[i as int]);
                return false;
            }
            if !self.value_eq(xs[i].1, other, ys[i].1, depth + 1) {
                proof {
                    if same_values(self@, a, other@, b, a.len(), depth as nat) {
                        lemma_same_values_prefix(
                            self@,
                            a,
                            other@,
                            b,
                            (i + 1) as nat,
                            a.len(),
                            depth as nat,
                        );
                    }
                }
                return false;
            }
            i = i + 1;
        }
        assert(field_names(xs@) =~= field_names(ys@));
        true
    }
}

} // verus!
