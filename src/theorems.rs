//! Laws of the store and of the traversal steps, stated over the models
//! that the operations' contracts use.
use vstd::prelude::*;
use vstd::utf8::encode_utf8;
use crate::value::{NodeModel, EdgeModel};
use crate::storage::{
    TablesModel, find_node, add_node, node_pos, resolve_edges, adjacent_edges, adjacent_ids,
    label_ok, find_edge,
};
use crate::storage::{well_formed, all_nodes, node_ids, resolve_nodes, all_resolve};
use crate::order::{sort_keys, lemma_sort_keys_sorted, lemma_sort_keys_contains};
use crate::traversal::{StepModel, flatten, flat_one, range_step, clamp_range};

verus! {

/// A node read back by its id right after `create_node` wrote it is the
/// node that was written.
pub proof fn lemma_created_node_reads_back(m: TablesModel, n: NodeModel)
    requires
        find_node(m.nodes, encode_utf8(n.id)) is None,
    ensures
        find_node(add_node(m, n).nodes, encode_utf8(n.id)) == Some(n),
{
    let ns = m.nodes.push(n);
    assert(ns.drop_last() =~= m.nodes);
    assert(node_pos(ns, encode_utf8(n.id)) == m.nodes.len());
}

/// The edges of `es` whose label is `label`, in order.
pub open spec fn with_label(es: Seq<EdgeModel>, label: Seq<char>) -> Seq<EdgeModel>
    decreases es.len(),
{
    if es.len() == 0 {
        Seq::empty()
    } else {
        let rest = with_label(es.drop_last(), label);
        if es.last().label == label {
            rest.push(es.last())
        } else {
            rest
        }
    }
}

proof fn lemma_resolve_with_label(ids: Seq<Seq<u8>>, es: Seq<EdgeModel>, label: Seq<char>)
    requires
        label.len() > 0,
    ensures
        resolve_edges(ids, es, label) == with_label(resolve_edges(ids, es, Seq::empty()), label),
    decreases ids.len(),
{
    if ids.len() > 0 {
        lemma_resolve_with_label(ids.drop_last(), es, label);
        let all = resolve_edges(ids, es, Seq::empty());
        let prev = resolve_edges(ids.drop_last(), es, Seq::empty());
        match find_edge(es, ids.last()) {
            Some(e) => {
                assert(label_ok(Seq::empty(), e));
                assert(all == prev.push(e));
                assert(all.drop_last() =~= prev);
            },
            None => {},
        }
    }
}

proof fn lemma_with_label_within(es: Seq<EdgeModel>, label: Seq<char>)
    ensures
        forall|i: int|
            0 <= i < with_label(es, label).len() ==> es.contains(
                #[trigger] with_label(es, label)[i],
            ) && with_label(es, label)[i].label == label,
    decreases es.len(),
{
    if es.len() > 0 {
        lemma_with_label_within(es.drop_last(), label);
        let rest = with_label(es.drop_last(), label);
        let w = with_label(es, label);
        assert forall|i: int| 0 <= i < w.len() implies es.contains(#[trigger] w[i]) && w[i].label
            == label by {
            if i < rest.len() {
                assert(w[i] == rest[i]);
                let j = choose|j: int| 0 <= j < es.drop_last().len() && es.drop_last()[j] == rest[i];
                assert(es[j] == rest[i]);
            } else {
                assert(w[i] == es.last());
                assert(es[es.len() - 1] == es.last());
            }
        }
    }
}

/// Label filtering: the edges of a node under label `label` are exactly its
/// edges under the empty filter whose label is `label`, in the same order;
/// so each of them is among the unfiltered edges.
pub proof fn lemma_label_filter(m: TablesModel, node: Seq<char>, label: Seq<char>, outgoing: bool)
    requires
        label.len() > 0,
    ensures
        adjacent_edges(m, node, label, outgoing) == with_label(
            adjacent_edges(m, node, Seq::empty(), outgoing),
            label,
        ),
        forall|i: int|
            0 <= i < adjacent_edges(m, node, label, outgoing).len() ==> adjacent_edges(
                m,
                node,
                Seq::empty(),
                outgoing,
            ).contains(#[trigger] adjacent_edges(m, node, label, outgoing)[i])
                && adjacent_edges(m, node, label, outgoing)[i].label == label,
{
    lemma_resolve_with_label(adjacent_ids(m, node, outgoing), m.edges, label);
    lemma_with_label_within(adjacent_edges(m, node, Seq::empty(), outgoing), label);
}

/// A flattened stream holds no `Empty` and no arrays.
pub open spec fn is_item(v: StepModel) -> bool {
    !(v is Empty || v is NodeArray || v is EdgeArray || v is ValueArray)
}

proof fn lemma_flatten_items(s: Seq<StepModel>)
    ensures
        forall|i: int| 0 <= i < flatten(s).len() ==> is_item(#[trigger] flatten(s)[i]),
    decreases s.len(),
{
    if s.len() > 0 {
        lemma_flatten_items(s.drop_last());
        let rest = flatten(s.drop_last());
        let one = flat_one(s.last());
        assert forall|i: int| 0 <= i < flatten(s).len() implies is_item(#[trigger] flatten(s)[i]) by {
            if i >= rest.len() {
                assert(flatten(s)[i] == one[i - rest.len()]);
            } else {
                assert(flatten(s)[i] == rest[i]);
            }
        }
    }
}

proof fn lemma_flatten_of_items(f: Seq<StepModel>)
    requires
        forall|i: int| 0 <= i < f.len() ==> is_item(#[trigger] f[i]),
    ensures
        flatten(f) == f,
    decreases f.len(),
{
    if f.len() > 0 {
        lemma_flatten_of_items(f.drop_last());
        assert(is_item(f[f.len() - 1]));
        assert(flat_one(f.last()) =~= seq![f.last()]);
        assert(f.drop_last().push(f.last()) =~= f);
    }
}

/// Counting after `range(a, b)` with `a <= b <= ` the length of the
/// flattened stream gives `b - a`.
pub proof fn lemma_count_after_range(s: Seq<StepModel>, a: int, b: int)
    requires
        0 <= a <= b <= flatten(s).len(),
    ensures
        flatten(range_step(s, a, b)).len() == b - a,
{
    let f = flatten(s);
    lemma_flatten_items(s);
    if f.len() > 0 {
        let (lo, hi) = clamp_range(a, b, f.len() as int);
        assert(lo == a && hi == b);
        let slice = f.subrange(a, b);
        assert forall|i: int| 0 <= i < slice.len() implies is_item(#[trigger] slice[i]) by {
            assert(slice[i] == f[a + i]);
        }
        lemma_flatten_of_items(slice);
    }
}

proof fn lemma_resolve_nodes_full(ids: Seq<Seq<u8>>, ns: Seq<NodeModel>, y: Seq<u8>)
    requires
        all_resolve(ids, ns),
    ensures
        resolve_nodes(ids, ns).len() == ids.len(),
        ids.contains(y) ==> resolve_nodes(ids, ns).contains(find_node(ns, y)->0),
    decreases ids.len(),
{
    if ids.len() > 0 {
        let init = ids.drop_last();
        assert forall|i: int| 0 <= i < init.len() implies find_node(ns, #[trigger] init[i]) is Some by {
            assert(init[i] == ids[i]);
        }
        assert(find_node(ns, ids[ids.len() - 1]) is Some);
        lemma_resolve_nodes_full(init, ns, y);
        let r = resolve_nodes(ids, ns);
        let rest = resolve_nodes(init, ns);
        if ids.contains(y) {
            if ids.last() == y {
                assert(r[r.len() - 1] == find_node(ns, y)->0);
            } else {
                let k = choose|k: int| 0 <= k < ids.len() && ids[k] == y;
                assert(init[k] == y);
                let q = choose|q: int| 0 <= q < rest.len() && rest[q] == find_node(ns, y)->0;
                assert(r[q] == rest[q]);
            }
        }
    }
}

/// In a well-formed store, `get_all_nodes` lists as many nodes as are
/// stored, every one of them among them.
pub proof fn lemma_all_nodes_complete(m: TablesModel)
    requires
        well_formed(m),
    ensures
        all_nodes(m).len() == m.nodes.len(),
        forall|i: int| 0 <= i < m.nodes.len() ==> all_nodes(m).contains(#[trigger] m.nodes[i]),
{
    let ids = node_ids(m.nodes);
    let sorted = sort_keys(ids);
    lemma_sort_keys_sorted(ids);
    assert forall|i: int| 0 <= i < sorted.len() implies find_node(m.nodes, #[trigger] sorted[i]) is Some by {
        lemma_sort_keys_contains(ids, sorted[i]);
        assert(sorted.contains(sorted[i]));
        let k = choose|k: int| 0 <= k < ids.len() && ids[k] == sorted[i];
        crate::storage::lemma_node_pos_range(m.nodes, ids[k]);
    }
    lemma_resolve_nodes_full(sorted, m.nodes, Seq::empty());
    assert forall|i: int| 0 <= i < m.nodes.len() implies all_nodes(m).contains(#[trigger] m.nodes[i]) by {
        let y = encode_utf8(m.nodes[i].id);
        assert(ids[i] == y);
        lemma_sort_keys_contains(ids, y);
        lemma_resolve_nodes_full(sorted, m.nodes, y);
        assert forall|j: int| 0 <= j < i implies encode_utf8(m.nodes[j].id) != y by {
            assert(m.nodes[j] == m.nodes[j] && m.nodes[i] == m.nodes[i]);
        }
        crate::storage::lemma_node_pos(m.nodes, y, i);
    }
}

} // verus!

