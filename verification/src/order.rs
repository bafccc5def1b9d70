//! The order in which the entries of an entity are written.

use vstd::prelude::*;
use vstd::relations::{sorted_by, total_ordering};
use vstd::seq_lib::lemma_sorted_unique;

use crate::ast::{node_ids, BsnDocument, BsnNodeId};
use crate::model::Document;

verus! {

/// Where an entry is written: entries without a span come last, the others by the start of their
/// span. An id without a node counts as a span that starts at 0.
pub open spec fn entry_rank(document: Document, id: int) -> (bool, int) {
    match document.node(id) {
        Some(node) => if node.span.spec_is_none() {
            (true, 0)
        } else {
            (false, node.span.start as int)
        },
        None => (false, 0),
    }
}

/// Whether entry `a` is written before entry `b` (or is `b`): an entry with a span before one
/// without, then by the start of the span, then by id.
pub open spec fn entry_leq(document: Document, a: int, b: int) -> bool {
    let (a_none, a_start) = entry_rank(document, a);
    let (b_none, b_start) = entry_rank(document, b);
    if a_none != b_none {
        b_none
    } else if a_start != b_start {
        a_start < b_start
    } else {
        a <= b
    }
}

/// An entity's patches and relations in the order in which they are written.
pub open spec fn merged(document: Document, patches: Seq<int>, relations: Seq<int>) -> Seq<int> {
    (patches + relations).sort_by(|a: int, b: int| entry_leq(document, a, b))
}

pub proof fn lemma_entry_order(document: Document)
    ensures
        total_ordering(|a: int, b: int| entry_leq(document, a, b)),
{
}

/// The merged order is the only sorted arrangement of the entries.
pub proof fn lemma_merged_unique(
    document: Document,
    patches: Seq<int>,
    relations: Seq<int>,
    order: Seq<int>,
)
    requires
        order.to_multiset() == (patches + relations).to_multiset(),
        forall|i: int, j: int|
            0 <= i < j < order.len() ==> entry_leq(
                document,
                #[trigger] order[i],
                #[trigger] order[j],
            ),
    ensures
        merged(document, patches, relations) == order,
{
    let leq = |a: int, b: int| entry_leq(document, a, b);
    lemma_entry_order(document);
    (patches + relations).lemma_sort_by_ensures(leq);
    assert(sorted_by(order, leq));
    lemma_sorted_unique(merged(document, patches, relations), order, leq);
}

/// Whether entry `a` is written before entry `b` or is `b`.
fn entry_before(document: &BsnDocument, a: BsnNodeId, b: BsnNodeId) -> (r: bool)
    ensures
        r == entry_leq(document@, a.0 as int, b.0 as int),
{
    let (a_none, a_start) = rank(document, a);
    let (b_none, b_start) = rank(document, b);
    if a_none != b_none {
        b_none
    } else if a_start != b_start {
        a_start < b_start
    } else {
        a.0 <= b.0
    }
}

fn rank(document: &BsnDocument, id: BsnNodeId) -> (r: (bool, u32))
    ensures
        (r.0, r.1 as int) == entry_rank(document@, id.0 as int),
{
    match document.node(id) {
        Some(node) => if node.span.is_none() {
            (true, 0)
        } else {
            (false, node.span.start)
        },
        None => (false, 0),
    }
}

/// Merges an entity's patches and relations back into source order.
///
/// Entries are ordered by the start of their span, with ties broken by ascending id and
/// entries without a span last, so a synthesized document prints in builder order. An id without
/// a node stands at the start 0.
pub(crate) fn merge_entries(
    document: &BsnDocument,
    patches: &Vec<BsnNodeId>,
    relations: &Vec<BsnNodeId>,
) -> (r: Vec<BsnNodeId>)
    ensures
        node_ids(r@) == merged(document@, node_ids(patches@), node_ids(relations@)),
{
    let mut entries: Vec<BsnNodeId> = Vec::new();
    let ghost given = patches@ + relations@;
    let mut i: usize = 0;
    assert(given.take(0) =~= Seq::<BsnNodeId>::empty());
    while i < patches.len()
        invariant
            i <= patches.len(),
            given == patches@ + relations@,
            sorted_entries(document@, entries@),
            entries@.to_multiset() == given.take(i as int).to_multiset(),
        decreases patches.len() - i,
    {
        insert_entry(document, &mut entries, patches[i]);
        proof {
            lemma_take_multiset(given, i as int);
        }
        i = i + 1;
    }
    let mut j: usize = 0;
    while j < relations.len()
        invariant
            j <= relations.len(),
            given == patches@ + relations@,
            sorted_entries(document@, entries@),
            entries@.to_multiset() == given.take(patches.len() + j).to_multiset(),
        decreases relations.len() - j,
    {
        insert_entry(document, &mut entries, relations[j]);
        proof {
            lemma_take_multiset(given, patches.len() + j);
        }
        j = j + 1;
    }
    proof {
        assert(given.take(given.len() as int) =~= given);
        assert(node_ids(given) =~= node_ids(patches@) + node_ids(relations@));
        lemma_map_multiset(entries@, given);
        assert forall|a: int, b: int| 0 <= a < b < node_ids(entries@).len() implies entry_leq(
            document@,
            #[trigger] node_ids(entries@)[a],
            #[trigger] node_ids(entries@)[b],
        ) by {
            assert(entry_leq(document@, entries@[a].0 as int, entries@[b].0 as int));
        }
        lemma_merged_unique(
            document@,
            node_ids(patches@),
            node_ids(relations@),
            node_ids(entries@),
        );
    }
    entries
}

pub open spec fn sorted_entries(document: Document, entries: Seq<BsnNodeId>) -> bool {
    forall|a: int, b: int|
        0 <= a < b < entries.len() ==> entry_leq(
            document,
            (#[trigger] entries[a]).0 as int,
            (#[trigger] entries[b]).0 as int,
        )
}

/// Equal multisets of ids stay equal as integers.
proof fn lemma_map_multiset(a: Seq<BsnNodeId>, b: Seq<BsnNodeId>)
    requires
        a.to_multiset() == b.to_multiset(),
    ensures
        node_ids(a).to_multiset() == node_ids(b).to_multiset(),
    decreases a.len(),
{
    broadcast use vstd::seq_lib::group_to_multiset_ensures;

    a.to_multiset_ensures();
    b.to_multiset_ensures();
    assert(a.len() == a.to_multiset().len());
    assert(b.len() == b.to_multiset().len());
    if a.len() == 0 {
        assert(node_ids(a) =~= node_ids(b));
    } else {
        let x = a.last();
        assert(a.contains(x)) by {
            assert(a[a.len() - 1] == x);
        }
        assert(b.to_multiset().count(x) > 0);
        let k = choose|k: int| 0 <= k < b.len() && b[k] == x;
        let a2 = a.drop_last();
        let b2 = b.remove(k);
        assert(a2 =~= a.remove(a.len() - 1));
        assert(a2.to_multiset() =~= b2.to_multiset());
        lemma_map_multiset(a2, b2);
        assert(node_ids(a2) =~= node_ids(a).remove(a.len() - 1));
        assert(node_ids(b2) =~= node_ids(b).remove(k));
        assert(node_ids(a)[a.len() - 1] == x.0 as int);
        assert(node_ids(b)[k] == x.0 as int);
        assert(node_ids(a).to_multiset() =~= node_ids(a2).to_multiset().insert(x.0 as int)) by {
            node_ids(a).to_multiset_ensures();
        }
        assert(node_ids(b).to_multiset() =~= node_ids(b2).to_multiset().insert(x.0 as int)) by {
            node_ids(b).to_multiset_ensures();
        }
    }
}

proof fn lemma_take_multiset(s: Seq<BsnNodeId>, i: int)
    requires
        0 <= i < s.len(),
    ensures
        s.take(i + 1).to_multiset() == s.take(i).to_multiset().insert(s[i]),
{
    assert(s.take(i + 1) =~= s.take(i).push(s[i]));
    s.take(i).to_multiset_ensures();
}

/// Inserts an entry behind every entry that is written before it.
fn insert_entry(document: &BsnDocument, entries: &mut Vec<BsnNodeId>, id: BsnNodeId)
    requires
        sorted_entries(document@, old(entries)@),
    ensures
        sorted_entries(document@, final(entries)@),
        final(entries)@.to_multiset() == old(entries)@.to_multiset().insert(id),
{
    let ghost before = entries@;
    let mut at: usize = entries.len();
    while at > 0 && !entry_before(document, entries[at - 1], id)
        invariant
            at <= entries.len(),
            entries@ == before,
            sorted_entries(document@, before),
            forall|k: int|
                at <= k < before.len() ==> !entry_leq(
                    document@,
                    (#[trigger] before[k]).0 as int,
                    id.0 as int,
                ),
        decreases at,
    {
        at = at - 1;
    }
    entries.insert(at, id);
    proof {
        let after = entries@;
        assert forall|a: int, b: int| 0 <= a < b < after.len() implies entry_leq(
            document@,
            (#[trigger] after[a]).0 as int,
            (#[trigger] after[b]).0 as int,
        ) by {
            if a < at {
                if b == at {
                    assert(entry_leq(document@, before[at - 1].0 as int, id.0 as int));
                    if a < at - 1 {
                        assert(entry_leq(
                            document@,
                            before[a].0 as int,
                            before[at - 1].0 as int,
                        ));
                    }
                } else if b > at {
                    assert(entry_leq(document@, before[a].0 as int, before[b - 1].0 as int));
                } else {
                    assert(entry_leq(document@, before[a].0 as int, before[b].0 as int));
                }
            } else if a == at {
                assert(!entry_leq(document@, before[b - 1].0 as int, id.0 as int));
            } else {
                assert(entry_leq(document@, before[a - 1].0 as int, before[b - 1].0 as int));
            }
        }
        before.to_multiset_ensures();
        after.to_multiset_ensures();
        assert(after.remove(at as int) =~= before);
        assert(after.to_multiset() =~= before.to_multiset().insert(id));
    }
}

/// The entries of an entity are written in the order of the source: each as often as it is
/// listed, those with a span before those without, by where they start, and by their ids where
/// they start together. An id without a node starts at 0.
pub proof fn law_entries_follow_the_source(
    document: Document,
    patches: Seq<int>,
    relations: Seq<int>,
    i: int,
    j: int,
)
    requires
        0 <= i < j < merged(document, patches, relations).len(),
    ensures
        ({
            let order = merged(document, patches, relations);
            let (a, b) = (order[i], order[j]);
            &&& order.to_multiset() == (patches + relations).to_multiset()
            &&& match (document.node(a), document.node(b)) {
                (Some(x), Some(y)) => {
                    let x_none = x.span.start == 0 && x.span.end == 0;
                    let y_none = y.span.start == 0 && y.span.end == 0;
                    &&& x_none ==> y_none
                    &&& x_none == y_none ==> x.span.start <= y.span.start
                    &&& x_none == y_none && x.span.start == y.span.start ==> a <= b
                },
                (None, Some(y)) => y.span.start == 0 && y.span.end != 0 ==> a <= b,
                (Some(x), None) => x.span.start == 0 && x.span.end != 0 && a <= b,
                (None, None) => a <= b,
            }
        }),
{
    let leq = |a: int, b: int| entry_leq(document, a, b);
    lemma_entry_order(document);
    (patches + relations).lemma_sort_by_ensures(leq);
    assert(sorted_by(merged(document, patches, relations), leq));
    let order = merged(document, patches, relations);
    assert(leq(order[i], order[j]));
}

} // verus!
