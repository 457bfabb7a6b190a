//! Proofs that every write keeps the table invariants of `well_formed`.
use vstd::prelude::*;
use vstd::utf8::{encode_utf8, is_ascii_chars, is_ascii_chars_encode_utf8};
use crate::keys::{SEPARATOR, separator_free};
use crate::value::{NodeModel, EdgeModel};
use crate::storage::{
    TablesModel, well_formed, node_entry, label_entry, out_entry, in_entry, node_ids_unique,
    edge_ids_unique, find_node, find_edge, node_pos, edge_pos, add_node, add_edge, empty_model,
    is_generated_id, is_id_char, without_key, without_edge, without_node, unlink_edge,
    unlink_node, unlink_edges, incident_edges, drop_node_effect, scan, resolve_edges,
    adjacent_edges, adjacent_ids, adjacency, adjacency_prefix, lemma_resolved_edges_stored,
};
use crate::keys::{is_prefix, out_edge_key_spec};

verus! {

/// Two keys `a ‖ ":" ‖ x` and `b ‖ ":" ‖ y` whose tails hold no separator
/// are equal only when the tails and the heads are.
pub proof fn lemma_key_tail(a: Seq<u8>, x: Seq<u8>, b: Seq<u8>, y: Seq<u8>)
    requires
        separator_free(x),
        separator_free(y),
        a + seq![SEPARATOR] + x == b + seq![SEPARATOR] + y,
    ensures
        x == y,
        a == b,
{
    let k = a + seq![SEPARATOR] + x;
    let k2 = b + seq![SEPARATOR] + y;
    assert(k.len() == k2.len());
    if x.len() < y.len() {
        let p = a.len() as int;
        assert(k[p] == SEPARATOR);
        assert(k2[p] == y[p - b.len() - 1]);
    } else if y.len() < x.len() {
        let p = b.len() as int;
        assert(k2[p] == SEPARATOR);
        assert(k[p] == x[p - a.len() - 1]);
    }
    assert(x =~= k.subrange(k.len() - x.len(), k.len() as int));
    assert(y =~= k2.subrange(k2.len() - y.len(), k2.len() as int));
    assert(a =~= k.subrange(0, a.len() as int));
    assert(b =~= k2.subrange(0, b.len() as int));
}

/// A generated id is ASCII without a separator.
pub proof fn lemma_generated_id_separator_free(id: Seq<char>)
    requires
        is_generated_id(id),
    ensures
        separator_free(encode_utf8(id)),
{
    assert(is_ascii_chars(id)) by {
        assert forall|i| 0 <= i < id.len() implies '\0' <= #[trigger] id[i] <= '\u{7f}' by {
            assert(is_id_char(id[i]));
        }
    }
    is_ascii_chars_encode_utf8(id);
    assert forall|i: int| 0 <= i < encode_utf8(id).len() implies encode_utf8(id)[i] != SEPARATOR by {
        assert(is_id_char(id[i]));
        assert(id[i] as u8 == encode_utf8(id)[i]);
    }
}

pub proof fn lemma_node_pos_push(ns: Seq<NodeModel>, n: NodeModel, idb: Seq<u8>)
    requires
        find_node(ns, idb) is Some,
    ensures
        find_node(ns.push(n), idb) == find_node(ns, idb),
{
    assert(ns.push(n).drop_last() =~= ns);
    crate::storage::lemma_node_pos_range(ns, idb);
    assert(ns.push(n)[node_pos(ns, idb)] == ns[node_pos(ns, idb)]);
}

/// The empty store is well formed.
pub proof fn lemma_empty_well_formed()
    ensures
        well_formed(empty_model()),
{
    let m = empty_model();
    assert(m.node_labels =~= Seq::new(m.nodes.len(), |i: int| node_entry(m.nodes[i])));
    assert(m.edge_labels =~= Seq::new(m.edges.len(), |i: int| label_entry(m.edges[i])));
    assert(m.out_edges =~= Seq::new(m.edges.len(), |i: int| out_entry(m.edges[i])));
    assert(m.in_edges =~= Seq::new(m.edges.len(), |i: int| in_entry(m.edges[i])));
}

/// Writing a node under a free id without a separator keeps the invariants.
pub proof fn lemma_add_node_well_formed(m: TablesModel, n: NodeModel)
    requires
        well_formed(m),
        find_node(m.nodes, encode_utf8(n.id)) is None,
        separator_free(encode_utf8(n.id)),
    ensures
        well_formed(add_node(m, n)),
{
    let r = add_node(m, n);
    crate::storage::lemma_node_pos_range(m.nodes, encode_utf8(n.id));
    assert(r.node_labels =~= Seq::new(r.nodes.len(), |i: int| node_entry(r.nodes[i])));
    assert forall|i: int, j: int|
        #![trigger r.nodes[i], r.nodes[j]]
        0 <= i < r.nodes.len() && 0 <= j < r.nodes.len() && i != j implies encode_utf8(
            r.nodes[i].id,
        ) != encode_utf8(r.nodes[j].id) by {
        if i < m.nodes.len() && j < m.nodes.len() {
            assert(r.nodes[i] == m.nodes[i] && r.nodes[j] == m.nodes[j]);
        } else if i < m.nodes.len() {
            assert(r.nodes[i] == m.nodes[i]);
        } else {
            assert(r.nodes[j] == m.nodes[j]);
        }
    }
    assert forall|i: int| 0 <= i < r.nodes.len() implies separator_free(
        encode_utf8(#[trigger] r.nodes[i].id),
    ) by {
        if i < m.nodes.len() {
            assert(r.nodes[i] == m.nodes[i]);
        }
    }
    assert forall|i: int| 0 <= i < r.edges.len() implies find_node(
        r.nodes,
        encode_utf8(#[trigger] r.edges[i].from_node),
    ) is Some && find_node(r.nodes, encode_utf8(r.edges[i].to_node)) is Some by {
        lemma_node_pos_push(m.nodes, n, encode_utf8(m.edges[i].from_node));
        lemma_node_pos_push(m.nodes, n, encode_utf8(m.edges[i].to_node));
    }
}

/// Writing an edge under a free id without a separator, between stored
/// nodes, keeps the invariants.
pub proof fn lemma_add_edge_well_formed(m: TablesModel, e: EdgeModel)
    requires
        well_formed(m),
        find_edge(m.edges, encode_utf8(e.id)) is None,
        find_node(m.nodes, encode_utf8(e.from_node)) is Some,
        find_node(m.nodes, encode_utf8(e.to_node)) is Some,
        separator_free(encode_utf8(e.id)),
    ensures
        well_formed(add_edge(m, e)),
{
    let r = add_edge(m, e);
    crate::storage::lemma_edge_pos_range(m.edges, encode_utf8(e.id));
    assert(r.edge_labels =~= Seq::new(r.edges.len(), |i: int| label_entry(r.edges[i])));
    assert(r.out_edges =~= Seq::new(r.edges.len(), |i: int| out_entry(r.edges[i])));
    assert(r.in_edges =~= Seq::new(r.edges.len(), |i: int| in_entry(r.edges[i])));
    assert forall|i: int, j: int|
        #![trigger r.edges[i], r.edges[j]]
        0 <= i < r.edges.len() && 0 <= j < r.edges.len() && i != j implies encode_utf8(
            r.edges[i].id,
        ) != encode_utf8(r.edges[j].id) by {
        if i < m.edges.len() && j < m.edges.len() {
            assert(r.edges[i] == m.edges[i] && r.edges[j] == m.edges[j]);
        } else if i < m.edges.len() {
            assert(r.edges[i] == m.edges[i]);
        } else {
            assert(r.edges[j] == m.edges[j]);
        }
    }
    assert forall|i: int| 0 <= i < r.edges.len() implies separator_free(
        encode_utf8(#[trigger] r.edges[i].id),
    ) by {
        if i < m.edges.len() {
            assert(r.edges[i] == m.edges[i]);
        }
    }
    assert forall|i: int| 0 <= i < r.edges.len() implies find_node(
        r.nodes,
        encode_utf8(#[trigger] r.edges[i].from_node),
    ) is Some && find_node(r.nodes, encode_utf8(r.edges[i].to_node)) is Some by {
        if i < m.edges.len() {
            assert(r.edges[i] == m.edges[i]);
        }
    }
}

/// Removing the records with `e`'s id, and the index entries equal to
/// `key(e)`, keeps an index parallel to its records when `key` tells the
/// records apart exactly as their ids do.
proof fn lemma_without_parallel(es: Seq<EdgeModel>, e: EdgeModel, key: spec_fn(EdgeModel) -> Seq<u8>)
    requires
        forall|i: int|
            0 <= i < es.len() ==> ((key(#[trigger] es[i]) == key(e)) == (encode_utf8(es[i].id)
                == encode_utf8(e.id))),
    ensures
        without_key(Seq::new(es.len(), |i: int| key(es[i])), key(e)) == Seq::new(
            without_edge(es, encode_utf8(e.id)).len(),
            |i: int| key(without_edge(es, encode_utf8(e.id))[i]),
        ),
    decreases es.len(),
{
    let idb = encode_utf8(e.id);
    let ks = Seq::new(es.len(), |i: int| key(es[i]));
    if es.len() > 0 {
        let init = es.drop_last();
        assert forall|i: int| 0 <= i < init.len() implies ((key(#[trigger] init[i]) == key(e)) == (
        encode_utf8(init[i].id) == idb)) by {
            assert(init[i] == es[i]);
        }
        lemma_without_parallel(init, e, key);
        assert(ks.drop_last() =~= Seq::new(init.len(), |i: int| key(init[i])));
        assert(ks.last() == key(es.last()));
        assert(key(es[es.len() - 1]) == key(e) <==> encode_utf8(es[es.len() - 1].id) == idb);
        let rest = without_edge(init, idb);
        if encode_utf8(es.last().id) != idb {
            assert(Seq::new(rest.push(es.last()).len(), |i: int| key(rest.push(es.last())[i]))
                =~= Seq::new(rest.len(), |i: int| key(rest[i])).push(key(es.last())));
        }
    } else {
        assert(ks =~= Seq::<Seq<u8>>::empty());
        assert(Seq::new(0, |i: int| key(without_edge(es, idb)[i])) =~= Seq::<Seq<u8>>::empty());
    }
}

/// The node version of `lemma_without_parallel`.
proof fn lemma_without_parallel_nodes(ns: Seq<NodeModel>, n: NodeModel, key: spec_fn(NodeModel) -> Seq<u8>)
    requires
        forall|i: int|
            0 <= i < ns.len() ==> ((key(#[trigger] ns[i]) == key(n)) == (encode_utf8(ns[i].id)
                == encode_utf8(n.id))),
    ensures
        without_key(Seq::new(ns.len(), |i: int| key(ns[i])), key(n)) == Seq::new(
            without_node(ns, encode_utf8(n.id)).len(),
            |i: int| key(without_node(ns, encode_utf8(n.id))[i]),
        ),
    decreases ns.len(),
{
    let idb = encode_utf8(n.id);
    let ks = Seq::new(ns.len(), |i: int| key(ns[i]));
    if ns.len() > 0 {
        let init = ns.drop_last();
        assert forall|i: int| 0 <= i < init.len() implies ((key(#[trigger] init[i]) == key(n)) == (
        encode_utf8(init[i].id) == idb)) by {
            assert(init[i] == ns[i]);
        }
        lemma_without_parallel_nodes(init, n, key);
        assert(ks.drop_last() =~= Seq::new(init.len(), |i: int| key(init[i])));
        assert(ks.last() == key(ns.last()));
        assert(key(ns[ns.len() - 1]) == key(n) <==> encode_utf8(ns[ns.len() - 1].id) == idb);
        let rest = without_node(init, idb);
        if encode_utf8(ns.last().id) != idb {
            assert(Seq::new(rest.push(ns.last()).len(), |i: int| key(rest.push(ns.last())[i]))
                =~= Seq::new(rest.len(), |i: int| key(rest[i])).push(key(ns.last())));
        }
    } else {
        assert(ks =~= Seq::<Seq<u8>>::empty());
        assert(Seq::new(0, |i: int| key(without_node(ns, idb)[i])) =~= Seq::<Seq<u8>>::empty());
    }
}

/// What `without_edge` keeps: stored records, none with id `idb`, each
/// record whose id is not `idb`, and unique ids when they were unique.
proof fn lemma_without_edge_keeps(es: Seq<EdgeModel>, idb: Seq<u8>)
    ensures
        forall|k: int|
            0 <= k < without_edge(es, idb).len() ==> es.contains(#[trigger] without_edge(es, idb)[k])
                && encode_utf8(without_edge(es, idb)[k].id) != idb,
        forall|j: int|
            0 <= j < es.len() && encode_utf8(es[j].id) != idb ==> without_edge(es, idb).contains(
                #[trigger] es[j],
            ),
        edge_ids_unique(es) ==> edge_ids_unique(without_edge(es, idb)),
    decreases es.len(),
{
    if es.len() > 0 {
        let init = es.drop_last();
        let last = es.last();
        let rest = without_edge(init, idb);
        let r = without_edge(es, idb);
        lemma_without_edge_keeps(init, idb);
        assert forall|k: int| 0 <= k < r.len() implies es.contains(#[trigger] r[k]) && encode_utf8(
            r[k].id,
        ) != idb by {
            if k < rest.len() {
                assert(r[k] == rest[k]);
                let j = choose|j: int| 0 <= j < init.len() && init[j] == rest[k];
                assert(es[j] == rest[k]);
            } else {
                assert(r[k] == last);
                assert(es[es.len() - 1] == last);
            }
        }
        assert forall|j: int| 0 <= j < es.len() && encode_utf8(es[j].id) != idb implies r.contains(
            #[trigger] es[j],
        ) by {
            if j < init.len() {
                assert(init[j] == es[j]);
                assert(rest.contains(init[j]));
                let k = choose|k: int| 0 <= k < rest.len() && rest[k] == init[j];
                if encode_utf8(last.id) != idb {
                    assert(r[k] == rest[k]);
                }
            } else {
                assert(r[rest.len() as int] == last);
            }
        }
        if edge_ids_unique(es) {
            assert(edge_ids_unique(init)) by {
                assert forall|i: int, j: int|
                    #![trigger init[i], init[j]]
                    0 <= i < init.len() && 0 <= j < init.len() && i != j implies encode_utf8(
                        init[i].id,
                    ) != encode_utf8(init[j].id) by {
                    assert(init[i] == es[i] && init[j] == es[j]);
                }
            }
            if encode_utf8(last.id) != idb {
                assert forall|i: int, j: int|
                    #![trigger r[i], r[j]]
                    0 <= i < r.len() && 0 <= j < r.len() && i != j implies encode_utf8(r[i].id)
                        != encode_utf8(r[j].id) by {
                    if i < rest.len() && j < rest.len() {
                        assert(r[i] == rest[i] && r[j] == rest[j]);
                    } else {
                        let k = if i < rest.len() {
                            i
                        } else {
                            j
                        };
                        assert(r[k] == rest[k]);
                        let p = choose|p: int| 0 <= p < init.len() && init[p] == rest[k];
                        assert(es[p] == rest[k]);
                        assert(es[es.len() - 1] == last);
                    }
                }
            }
        }
    }
}

/// The node version of `lemma_without_edge_keeps`.
proof fn lemma_without_node_keeps(ns: Seq<NodeModel>, idb: Seq<u8>)
    ensures
        forall|k: int|
            0 <= k < without_node(ns, idb).len() ==> ns.contains(#[trigger] without_node(ns, idb)[k])
                && encode_utf8(without_node(ns, idb)[k].id) != idb,
        forall|j: int|
            0 <= j < ns.len() && encode_utf8(ns[j].id) != idb ==> without_node(ns, idb).contains(
                #[trigger] ns[j],
            ),
        node_ids_unique(ns) ==> node_ids_unique(without_node(ns, idb)),
    decreases ns.len(),
{
    if ns.len() > 0 {
        let init = ns.drop_last();
        let last = ns.last();
        let rest = without_node(init, idb);
        let r = without_node(ns, idb);
        lemma_without_node_keeps(init, idb);
        assert forall|k: int| 0 <= k < r.len() implies ns.contains(#[trigger] r[k]) && encode_utf8(
            r[k].id,
        ) != idb by {
            if k < rest.len() {
                assert(r[k] == rest[k]);
                let j = choose|j: int| 0 <= j < init.len() && init[j] == rest[k];
                assert(ns[j] == rest[k]);
            } else {
                assert(r[k] == last);
                assert(ns[ns.len() - 1] == last);
            }
        }
        assert forall|j: int| 0 <= j < ns.len() && encode_utf8(ns[j].id) != idb implies r.contains(
            #[trigger] ns[j],
        ) by {
            if j < init.len() {
                assert(init[j] == ns[j]);
                assert(rest.contains(init[j]));
                let k = choose|k: int| 0 <= k < rest.len() && rest[k] == init[j];
                if encode_utf8(last.id) != idb {
                    assert(r[k] == rest[k]);
                }
            } else {
                assert(r[rest.len() as int] == last);
            }
        }
        if node_ids_unique(ns) {
            assert(node_ids_unique(init)) by {
                assert forall|i: int, j: int|
                    #![trigger init[i], init[j]]
                    0 <= i < init.len() && 0 <= j < init.len() && i != j implies encode_utf8(
                        init[i].id,
                    ) != encode_utf8(init[j].id) by {
                    assert(init[i] == ns[i] && init[j] == ns[j]);
                }
            }
            if encode_utf8(last.id) != idb {
                assert forall|i: int, j: int|
                    #![trigger r[i], r[j]]
                    0 <= i < r.len() && 0 <= j < r.len() && i != j implies encode_utf8(r[i].id)
                        != encode_utf8(r[j].id) by {
                    if i < rest.len() && j < rest.len() {
                        assert(r[i] == rest[i] && r[j] == rest[j]);
                    } else {
                        let k = if i < rest.len() {
                            i
                        } else {
                            j
                        };
                        assert(r[k] == rest[k]);
                        let p = choose|p: int| 0 <= p < init.len() && init[p] == rest[k];
                        assert(ns[p] == rest[k]);
                        assert(ns[ns.len() - 1] == last);
                    }
                }
            }
        }
    }
}

/// A node found by id stays found after records with another id are removed.
proof fn lemma_find_node_survives(ns: Seq<NodeModel>, idb: Seq<u8>, other: Seq<u8>)
    requires
        find_node(ns, other) is Some,
        other != idb,
    ensures
        find_node(without_node(ns, idb), other) is Some,
{
    crate::storage::lemma_node_pos_range(ns, other);
    let p = node_pos(ns, other);
    lemma_without_node_keeps(ns, idb);
    let r = without_node(ns, idb);
    assert(r.contains(ns[p]));
    let k = choose|k: int| 0 <= k < r.len() && r[k] == ns[p];
    crate::storage::lemma_node_pos_range(r, other);
    assert(encode_utf8(r[k].id) == other);
}

/// Unlinking an edge `e`, whose id holds no separator and which is the only
/// record with its id if it is stored at all, keeps the invariants. What
/// remains are stored records without `e`'s id; the nodes are untouched.
pub proof fn lemma_unlink_well_formed(m: TablesModel, e: EdgeModel)
    requires
        well_formed(m),
        separator_free(encode_utf8(e.id)),
        forall|i: int|
            0 <= i < m.edges.len() && encode_utf8(#[trigger] m.edges[i].id) == encode_utf8(e.id)
                ==> m.edges[i] == e,
    ensures
        well_formed(unlink_edge(m, e)),
        unlink_edge(m, e).nodes == m.nodes,
        forall|k: int|
            0 <= k < unlink_edge(m, e).edges.len() ==> m.edges.contains(
                #[trigger] unlink_edge(m, e).edges[k],
            ) && encode_utf8(unlink_edge(m, e).edges[k].id) != encode_utf8(e.id),
{
    let idb = encode_utf8(e.id);
    let r = unlink_edge(m, e);
    let es = m.edges;
    assert forall|i: int| 0 <= i < es.len() implies ((label_entry(#[trigger] es[i]) == label_entry(e))
        == (encode_utf8(es[i].id) == idb)) by {
        let g = es[i];
        assert(separator_free(encode_utf8(g.id)));
        if label_entry(g) == label_entry(e) {
            lemma_key_tail(
                seq![101u8, 108u8, SEPARATOR] + encode_utf8(g.label),
                encode_utf8(g.id),
                seq![101u8, 108u8, SEPARATOR] + encode_utf8(e.label),
                idb,
            );
        }
    }
    assert forall|i: int| 0 <= i < es.len() implies ((out_entry(#[trigger] es[i]) == out_entry(e))
        == (encode_utf8(es[i].id) == idb)) by {
        let g = es[i];
        assert(separator_free(encode_utf8(g.id)));
        if out_entry(g) == out_entry(e) {
            lemma_key_tail(
                seq![111u8, SEPARATOR] + encode_utf8(g.from_node),
                encode_utf8(g.id),
                seq![111u8, SEPARATOR] + encode_utf8(e.from_node),
                idb,
            );
        }
    }
    assert forall|i: int| 0 <= i < es.len() implies ((in_entry(#[trigger] es[i]) == in_entry(e))
        == (encode_utf8(es[i].id) == idb)) by {
        let g = es[i];
        assert(separator_free(encode_utf8(g.id)));
        if in_entry(g) == in_entry(e) {
            lemma_key_tail(
                seq![105u8, SEPARATOR] + encode_utf8(g.to_node),
                encode_utf8(g.id),
                seq![105u8, SEPARATOR] + encode_utf8(e.to_node),
                idb,
            );
        }
    }
    let lk = |g: EdgeModel| label_entry(g);
    let ok = |g: EdgeModel| out_entry(g);
    let ik = |g: EdgeModel| in_entry(g);
    lemma_without_parallel(es, e, lk);
    lemma_without_parallel(es, e, ok);
    lemma_without_parallel(es, e, ik);
    assert(m.edge_labels =~= Seq::new(es.len(), |i: int| lk(es[i])));
    assert(m.out_edges =~= Seq::new(es.len(), |i: int| ok(es[i])));
    assert(m.in_edges =~= Seq::new(es.len(), |i: int| ik(es[i])));
    assert(r.edge_labels =~= Seq::new(r.edges.len(), |i: int| label_entry(r.edges[i])));
    assert(r.out_edges =~= Seq::new(r.edges.len(), |i: int| out_entry(r.edges[i])));
    assert(r.in_edges =~= Seq::new(r.edges.len(), |i: int| in_entry(r.edges[i])));
    lemma_without_edge_keeps(es, idb);
    assert forall|k: int| 0 <= k < r.edges.len() implies separator_free(
        encode_utf8(#[trigger] r.edges[k].id),
    ) && find_node(r.nodes, encode_utf8(r.edges[k].from_node)) is Some && find_node(
        r.nodes,
        encode_utf8(r.edges[k].to_node),
    ) is Some by {
        assert(es.contains(r.edges[k]));
        let j = choose|j: int| 0 <= j < es.len() && es[j] == r.edges[k];
        assert(separator_free(encode_utf8(es[j].id)));
        assert(find_node(m.nodes, encode_utf8(es[j].from_node)) is Some);
    }
}

/// A key with the prefix contributes its suffix to the scan.
proof fn lemma_scan_contains(keys: Seq<Seq<u8>>, p: Seq<u8>, i: int)
    requires
        0 <= i < keys.len(),
        is_prefix(p, keys[i]),
    ensures
        scan(keys, p).contains(keys[i].subrange(p.len() as int, keys[i].len() as int)),
    decreases keys.len(),
{
    let init = keys.drop_last();
    if i < keys.len() - 1 {
        assert(init[i] == keys[i]);
        lemma_scan_contains(init, p, i);
        let rest = scan(init, p);
        let k = choose|k: int|
            0 <= k < rest.len() && rest[k] == keys[i].subrange(p.len() as int, keys[i].len() as int);
        assert(scan(keys, p)[k] == rest[k]);
    } else {
        let r = scan(keys, p);
        assert(r[r.len() - 1] == keys[i].subrange(p.len() as int, keys[i].len() as int));
    }
}

/// An id in the list whose record is `g` contributes `g` to the resolution.
proof fn lemma_resolve_contains(ids: Seq<Seq<u8>>, es: Seq<EdgeModel>, idb: Seq<u8>, g: EdgeModel)
    requires
        ids.contains(idb),
        find_edge(es, idb) == Some(g),
    ensures
        resolve_edges(ids, es, Seq::empty()).contains(g),
    decreases ids.len(),
{
    let init = ids.drop_last();
    let r = resolve_edges(ids, es, Seq::empty());
    if ids.last() == idb {
        assert(r[r.len() - 1] == g);
    } else {
        let k = choose|k: int| 0 <= k < ids.len() && ids[k] == idb;
        assert(init[k] == idb);
        lemma_resolve_contains(init, es, idb, g);
        let rest = resolve_edges(init, es, Seq::empty());
        let q = choose|q: int| 0 <= q < rest.len() && rest[q] == g;
        assert(r[q] == rest[q]);
    }
}

/// In a well-formed store, the record found under an edge's id is that edge.
proof fn lemma_find_stored_edge(m: TablesModel, i: int)
    requires
        well_formed(m),
        0 <= i < m.edges.len(),
    ensures
        find_edge(m.edges, encode_utf8(m.edges[i].id)) == Some(m.edges[i]),
{
    let es = m.edges;
    assert forall|j: int| 0 <= j < i implies encode_utf8(es[j].id) != encode_utf8(es[i].id) by {
        assert(es[j] == es[j] && es[i] == es[i]);
    }
    crate::storage::lemma_edge_pos(es, encode_utf8(es[i].id), i);
}

/// In a well-formed store, an edge is listed among the out-edges of its
/// source and among the in-edges of its sink (any node whose id has the same
/// bytes).
pub proof fn lemma_edge_listed(m: TablesModel, i: int, x: Seq<char>, outgoing: bool)
    requires
        well_formed(m),
        0 <= i < m.edges.len(),
        outgoing ==> encode_utf8(m.edges[i].from_node) == encode_utf8(x),
        !outgoing ==> encode_utf8(m.edges[i].to_node) == encode_utf8(x),
    ensures
        adjacent_edges(m, x, Seq::empty(), outgoing).contains(m.edges[i]),
{
    let g = m.edges[i];
    let keys = adjacency(m, outgoing);
    let p = adjacency_prefix(x, outgoing);
    let k = keys[i];
    if outgoing {
        assert(k == out_entry(g));
        assert(k =~= p + encode_utf8(g.id));
    } else {
        assert(k == in_entry(g));
        assert(k =~= p + encode_utf8(g.id));
    }
    assert(k.subrange(0, p.len() as int) =~= p);
    assert(k.subrange(p.len() as int, k.len() as int) =~= encode_utf8(g.id));
    lemma_scan_contains(keys, p, i);
    crate::order::lemma_sort_keys_contains(scan(keys, p), encode_utf8(g.id));
    lemma_find_stored_edge(m, i);
    lemma_resolve_contains(adjacent_ids(m, x, outgoing), m.edges, encode_utf8(g.id), g);
}

/// Adjacency symmetry: in a well-formed store every edge is among the
/// unfiltered out-edges of its source and the unfiltered in-edges of its
/// sink.
pub proof fn lemma_adjacency_symmetry(m: TablesModel, i: int)
    requires
        well_formed(m),
        0 <= i < m.edges.len(),
    ensures
        adjacent_edges(m, m.edges[i].from_node, Seq::empty(), true).contains(m.edges[i]),
        adjacent_edges(m, m.edges[i].to_node, Seq::empty(), false).contains(m.edges[i]),
{
    lemma_edge_listed(m, i, m.edges[i].from_node, true);
    lemma_edge_listed(m, i, m.edges[i].to_node, false);
}

/// Unlinking, one after another, edges that were stored in a well-formed
/// store keeps the invariants, and removes every record with one of their ids.
proof fn lemma_unlink_all(m0: TablesModel, es: Seq<EdgeModel>)
    requires
        well_formed(m0),
        forall|k: int| 0 <= k < es.len() ==> m0.edges.contains(#[trigger] es[k]),
    ensures
        well_formed(unlink_edges(m0, es)),
        unlink_edges(m0, es).nodes == m0.nodes,
        forall|q: int|
            0 <= q < unlink_edges(m0, es).edges.len() ==> m0.edges.contains(
                #[trigger] unlink_edges(m0, es).edges[q],
            ),
        forall|q: int, k: int|
            0 <= q < unlink_edges(m0, es).edges.len() && 0 <= k < es.len() ==> encode_utf8(
                #[trigger] unlink_edges(m0, es).edges[q].id,
            ) != encode_utf8(#[trigger] es[k].id),
    decreases es.len(),
{
    if es.len() > 0 {
        let init = es.drop_last();
        assert forall|k: int| 0 <= k < init.len() implies m0.edges.contains(#[trigger] init[k]) by {
            assert(init[k] == es[k]);
        }
        lemma_unlink_all(m0, init);
        let cur = unlink_edges(m0, init);
        let e = es.last();
        assert(m0.edges.contains(es[es.len() - 1]));
        let p = choose|p: int| 0 <= p < m0.edges.len() && m0.edges[p] == e;
        assert(separator_free(encode_utf8(m0.edges[p].id)));
        assert forall|i: int|
            0 <= i < cur.edges.len() && encode_utf8(#[trigger] cur.edges[i].id) == encode_utf8(e.id)
                implies cur.edges[i] == e by {
            assert(m0.edges.contains(cur.edges[i]));
            let j = choose|j: int| 0 <= j < m0.edges.len() && m0.edges[j] == cur.edges[i];
            assert(m0.edges[j] == m0.edges[j] && m0.edges[p] == m0.edges[p]);
        }
        lemma_unlink_well_formed(cur, e);
        let r = unlink_edges(m0, es);
        assert forall|q: int, k: int| 0 <= q < r.edges.len() && 0 <= k < es.len() implies encode_utf8(
            #[trigger] r.edges[q].id,
        ) != encode_utf8(#[trigger] es[k].id) by {
            assert(cur.edges.contains(r.edges[q]));
            let c = choose|c: int| 0 <= c < cur.edges.len() && cur.edges[c] == r.edges[q];
            if k < init.len() {
                assert(init[k] == es[k]);
                assert(encode_utf8(cur.edges[c].id) != encode_utf8(init[k].id));
            }
        }
        assert forall|q: int| 0 <= q < r.edges.len() implies m0.edges.contains(#[trigger] r.edges[q]) by {
            assert(cur.edges.contains(r.edges[q]));
            let c = choose|c: int| 0 <= c < cur.edges.len() && cur.edges[c] == r.edges[q];
            assert(m0.edges.contains(cur.edges[c]));
        }
    }
}

/// Cascade: dropping a stored node from a well-formed store keeps the
/// invariants; afterwards no edge has it as an endpoint and no node record
/// has its id, so no index entry names it.
pub proof fn lemma_drop_node_well_formed(m: TablesModel, x: Seq<char>, n: NodeModel)
    requires
        well_formed(m),
        find_node(m.nodes, encode_utf8(x)) == Some(n),
    ensures
        well_formed(drop_node_effect(m, x, n)),
        forall|q: int|
            0 <= q < drop_node_effect(m, x, n).edges.len() ==> encode_utf8(
                (#[trigger] drop_node_effect(m, x, n).edges[q]).from_node,
            ) != encode_utf8(x) && encode_utf8(drop_node_effect(m, x, n).edges[q].to_node)
                != encode_utf8(x),
        find_node(drop_node_effect(m, x, n).nodes, encode_utf8(x)) is None,
{
    let xb = encode_utf8(x);
    let inc = incident_edges(m, x);
    let outs = adjacent_edges(m, x, Seq::empty(), true);
    let ins = adjacent_edges(m, x, Seq::empty(), false);
    lemma_resolved_edges_stored(adjacent_ids(m, x, true), m.edges, Seq::empty());
    lemma_resolved_edges_stored(adjacent_ids(m, x, false), m.edges, Seq::empty());
    assert forall|k: int| 0 <= k < inc.len() implies m.edges.contains(#[trigger] inc[k]) by {
        if k < outs.len() {
            assert(inc[k] == outs[k]);
        } else {
            assert(inc[k] == ins[k - outs.len()]);
        }
    }
    lemma_unlink_all(m, inc);
    let mid = unlink_edges(m, inc);
    // No edge that survives the cascade touches x.
    assert forall|q: int| 0 <= q < mid.edges.len() implies encode_utf8(
        (#[trigger] mid.edges[q]).from_node,
    ) != xb && encode_utf8(mid.edges[q].to_node) != xb by {
        let g = mid.edges[q];
        assert(m.edges.contains(g));
        let i = choose|i: int| 0 <= i < m.edges.len() && m.edges[i] == g;
        if encode_utf8(g.from_node) == xb {
            lemma_edge_listed(m, i, x, true);
            let k = choose|k: int| 0 <= k < outs.len() && outs[k] == g;
            assert(inc[k] == g);
            assert(encode_utf8(mid.edges[q].id) != encode_utf8(inc[k].id));
        }
        if encode_utf8(g.to_node) == xb {
            lemma_edge_listed(m, i, x, false);
            let k = choose|k: int| 0 <= k < ins.len() && ins[k] == g;
            assert(inc[outs.len() + k] == g);
            assert(encode_utf8(mid.edges[q].id) != encode_utf8(inc[outs.len() + k].id));
        }
    }
    // Removing the node record and its label entry.
    crate::storage::lemma_node_pos_range(m.nodes, xb);
    let p = node_pos(m.nodes, xb);
    assert(n == m.nodes[p]);
    assert(encode_utf8(n.id) == xb);
    let r = drop_node_effect(m, x, n);
    assert(r == unlink_node(mid, xb, n.label));
    let ns = mid.nodes;
    assert(ns == m.nodes);
    assert(separator_free(encode_utf8(ns[p].id)));
    assert forall|i: int| 0 <= i < ns.len() implies ((node_entry(#[trigger] ns[i]) == node_entry(n))
        == (encode_utf8(ns[i].id) == encode_utf8(n.id))) by {
        let g = ns[i];
        assert(separator_free(encode_utf8(g.id)));
        if node_entry(g) == node_entry(n) {
            lemma_key_tail(
                seq![110u8, 108u8, SEPARATOR] + encode_utf8(g.label),
                encode_utf8(g.id),
                seq![110u8, 108u8, SEPARATOR] + encode_utf8(n.label),
                encode_utf8(n.id),
            );
        }
        if encode_utf8(g.id) == encode_utf8(n.id) {
            assert(ns[i] == ns[i] && ns[p] == ns[p]);
            assert(i == p);
        }
    }
    let nk = |g: NodeModel| node_entry(g);
    lemma_without_parallel_nodes(ns, n, nk);
    assert(mid.node_labels =~= Seq::new(ns.len(), |i: int| nk(ns[i])));
    assert(node_entry(n) == crate::keys::node_label_key_spec(encode_utf8(n.label), xb));
    assert(r.node_labels =~= Seq::new(r.nodes.len(), |i: int| node_entry(r.nodes[i])));
    lemma_without_node_keeps(ns, xb);
    assert forall|k: int| 0 <= k < r.nodes.len() implies separator_free(
        encode_utf8(#[trigger] r.nodes[k].id),
    ) by {
        assert(ns.contains(r.nodes[k]));
        let j = choose|j: int| 0 <= j < ns.len() && ns[j] == r.nodes[k];
        assert(separator_free(encode_utf8(ns[j].id)));
    }
    assert forall|q: int| 0 <= q < r.edges.len() implies find_node(
        r.nodes,
        encode_utf8(#[trigger] r.edges[q].from_node),
    ) is Some && find_node(r.nodes, encode_utf8(r.edges[q].to_node)) is Some by {
        assert(r.edges[q] == mid.edges[q]);
        lemma_find_node_survives(ns, xb, encode_utf8(mid.edges[q].from_node));
        lemma_find_node_survives(ns, xb, encode_utf8(mid.edges[q].to_node));
    }
    crate::storage::lemma_node_pos_range(r.nodes, xb);
}

/// Dropping a stored edge from a well-formed store keeps the invariants.
pub proof fn lemma_drop_edge_well_formed(m: TablesModel, idb: Seq<u8>, e: EdgeModel)
    requires
        well_formed(m),
        find_edge(m.edges, idb) == Some(e),
    ensures
        well_formed(unlink_edge(m, e)),
{
    crate::storage::lemma_edge_pos_range(m.edges, idb);
    let p = edge_pos(m.edges, idb);
    assert(m.edges[p] == e);
    assert(separator_free(encode_utf8(m.edges[p].id)));
    assert forall|i: int|
        0 <= i < m.edges.len() && encode_utf8(#[trigger] m.edges[i].id) == encode_utf8(e.id)
            implies m.edges[i] == e by {
        assert(m.edges[i] == m.edges[i] && m.edges[p] == m.edges[p]);
    }
    lemma_unlink_well_formed(m, e);
}

/// The bytes version of `lemma_edge_listed` for out-edges: in a
/// well-formed store an edge is found by the out-scan of its source's id.
pub proof fn lemma_edge_listed_bytes(m: TablesModel, i: int, xb: Seq<u8>)
    requires
        well_formed(m),
        0 <= i < m.edges.len(),
        encode_utf8(m.edges[i].from_node) == xb,
    ensures
        resolve_edges(
            crate::order::sort_keys(scan(m.out_edges, out_edge_key_spec(xb, Seq::empty()))),
            m.edges,
            Seq::empty(),
        ).contains(m.edges[i]),
{
    let g = m.edges[i];
    let keys = m.out_edges;
    let p = out_edge_key_spec(xb, Seq::empty());
    let k = keys[i];
    assert(k == out_entry(g));
    assert(k =~= p + encode_utf8(g.id));
    assert(k.subrange(0, p.len() as int) =~= p);
    assert(k.subrange(p.len() as int, k.len() as int) =~= encode_utf8(g.id));
    lemma_scan_contains(keys, p, i);
    crate::order::lemma_sort_keys_contains(scan(keys, p), encode_utf8(g.id));
    lemma_find_stored_edge(m, i);
    lemma_resolve_contains(crate::order::sort_keys(scan(keys, p)), m.edges, encode_utf8(g.id), g);
}

proof fn lemma_same_ids_same_pos(a: Seq<NodeModel>, b: Seq<NodeModel>, idb: Seq<u8>)
    requires
        a.len() == b.len(),
        forall|i: int| 0 <= i < a.len() ==> encode_utf8(#[trigger] a[i].id) == encode_utf8(b[i].id),
    ensures
        node_pos(a, idb) == node_pos(b, idb),
    decreases a.len(),
{
    if a.len() > 0 {
        assert forall|i: int| 0 <= i < a.len() - 1 implies encode_utf8(#[trigger] a.drop_last()[i].id)
            == encode_utf8(b.drop_last()[i].id) by {
            assert(a.drop_last()[i] == a[i] && b.drop_last()[i] == b[i]);
        }
        lemma_same_ids_same_pos(a.drop_last(), b.drop_last(), idb);
        assert(encode_utf8(a[a.len() - 1].id) == encode_utf8(b[b.len() - 1].id));
    }
}

/// Replacing a node record by one with the same id and label keeps the
/// invariants.
pub proof fn lemma_update_node_well_formed(m: TablesModel, p: int, u: NodeModel)
    requires
        well_formed(m),
        0 <= p < m.nodes.len(),
        u.id == m.nodes[p].id,
        u.label == m.nodes[p].label,
    ensures
        well_formed(TablesModel { nodes: m.nodes.update(p, u), ..m }),
{
    let r = TablesModel { nodes: m.nodes.update(p, u), ..m };
    assert(r.node_labels =~= Seq::new(r.nodes.len(), |i: int| node_entry(r.nodes[i])));
    assert forall|i: int| 0 <= i < r.nodes.len() implies encode_utf8(#[trigger] r.nodes[i].id)
        == encode_utf8(m.nodes[i].id) by {}
    assert forall|i: int, j: int|
        #![trigger r.nodes[i], r.nodes[j]]
        0 <= i < r.nodes.len() && 0 <= j < r.nodes.len() && i != j implies encode_utf8(
            r.nodes[i].id,
        ) != encode_utf8(r.nodes[j].id) by {
        assert(m.nodes[i] == m.nodes[i] && m.nodes[j] == m.nodes[j]);
    }
    assert forall|i: int| 0 <= i < r.nodes.len() implies separator_free(
        encode_utf8(#[trigger] r.nodes[i].id),
    ) by {
        assert(separator_free(encode_utf8(m.nodes[i].id)));
    }
    assert forall|i: int| 0 <= i < r.edges.len() implies find_node(
        r.nodes,
        encode_utf8(#[trigger] r.edges[i].from_node),
    ) is Some && find_node(r.nodes, encode_utf8(r.edges[i].to_node)) is Some by {
        lemma_same_ids_same_pos(r.nodes, m.nodes, encode_utf8(r.edges[i].from_node));
        lemma_same_ids_same_pos(r.nodes, m.nodes, encode_utf8(r.edges[i].to_node));
    }
}

/// Replacing an edge record by one with the same id, label and endpoints
/// keeps the invariants.
pub proof fn lemma_update_edge_well_formed(m: TablesModel, p: int, u: EdgeModel)
    requires
        well_formed(m),
        0 <= p < m.edges.len(),
        u.id == m.edges[p].id,
        u.label == m.edges[p].label,
        u.from_node == m.edges[p].from_node,
        u.to_node == m.edges[p].to_node,
    ensures
        well_formed(TablesModel { edges: m.edges.update(p, u), ..m }),
{
    let r = TablesModel { edges: m.edges.update(p, u), ..m };
    assert(r.edge_labels =~= Seq::new(r.edges.len(), |i: int| label_entry(r.edges[i])));
    assert(r.out_edges =~= Seq::new(r.edges.len(), |i: int| out_entry(r.edges[i])));
    assert(r.in_edges =~= Seq::new(r.edges.len(), |i: int| in_entry(r.edges[i])));
    assert forall|i: int, j: int|
        #![trigger r.edges[i], r.edges[j]]
        0 <= i < r.edges.len() && 0 <= j < r.edges.len() && i != j implies encode_utf8(
            r.edges[i].id,
        ) != encode_utf8(r.edges[j].id) by {
        assert(m.edges[i] == m.edges[i] && m.edges[j] == m.edges[j]);
    }
    assert forall|i: int| 0 <= i < r.edges.len() implies separator_free(
        encode_utf8(#[trigger] r.edges[i].id),
    ) && find_node(r.nodes, encode_utf8(r.edges[i].from_node)) is Some && find_node(
        r.nodes,
        encode_utf8(r.edges[i].to_node),
    ) is Some by {
        assert(separator_free(encode_utf8(m.edges[i].id)));
        assert(find_node(m.nodes, encode_utf8(m.edges[i].from_node)) is Some);
    }
}

/// UTF-8 encoding tells character sequences apart.
pub proof fn lemma_utf8_injective(a: Seq<char>, b: Seq<char>)
    requires
        encode_utf8(a) == encode_utf8(b),
    ensures
        a == b,
{
    vstd::utf8::encode_utf8_decode_utf8(a);
    vstd::utf8::encode_utf8_decode_utf8(b);
}

/// A node found under the bytes of `id` has exactly that id.
pub proof fn lemma_found_node_id(ns: Seq<NodeModel>, id: Seq<char>)
    requires
        find_node(ns, encode_utf8(id)) is Some,
    ensures
        exists|j: int| 0 <= j < ns.len() && (#[trigger] ns[j]).id == id,
{
    crate::storage::lemma_node_pos_range(ns, encode_utf8(id));
    let p = node_pos(ns, encode_utf8(id));
    lemma_utf8_injective(ns[p].id, id);
}

/// An edge found under the bytes of `id` has exactly that id.
pub proof fn lemma_found_edge_id(es: Seq<EdgeModel>, id: Seq<char>)
    requires
        find_edge(es, encode_utf8(id)) is Some,
    ensures
        exists|j: int| 0 <= j < es.len() && (#[trigger] es[j]).id == id,
{
    crate::storage::lemma_edge_pos_range(es, encode_utf8(id));
    let p = edge_pos(es, encode_utf8(id));
    lemma_utf8_injective(es[p].id, id);
}

/// After a push, an edge found before is still found, and the pushed edge
/// is found under its id when no earlier record had it.
pub proof fn lemma_edge_push(es: Seq<EdgeModel>, e: EdgeModel)
    ensures
        forall|idb: Seq<u8>|
            #[trigger] find_edge(es, idb) is Some ==> find_edge(es.push(e), idb) == find_edge(es, idb),
        find_edge(es, encode_utf8(e.id)) is None ==> find_edge(es.push(e), encode_utf8(e.id)) == Some(
            e,
        ),
{
    let es2 = es.push(e);
    assert(es2.drop_last() =~= es);
    assert forall|idb: Seq<u8>| #[trigger] find_edge(es, idb) is Some implies find_edge(es2, idb)
        == find_edge(es, idb) by {
        crate::storage::lemma_edge_pos_range(es, idb);
        assert(es2[edge_pos(es, idb)] == es[edge_pos(es, idb)]);
    }
}

/// After a push, a node found before is still found, and the pushed node
/// is found under its id when no earlier record had it.
pub proof fn lemma_node_push(ns: Seq<NodeModel>, n: NodeModel)
    ensures
        forall|idb: Seq<u8>|
            #[trigger] find_node(ns, idb) is Some ==> find_node(ns.push(n), idb) == find_node(ns, idb),
        find_node(ns, encode_utf8(n.id)) is None ==> find_node(ns.push(n), encode_utf8(n.id)) == Some(
            n,
        ),
{
    let ns2 = ns.push(n);
    assert(ns2.drop_last() =~= ns);
    assert forall|idb: Seq<u8>| #[trigger] find_node(ns, idb) is Some implies find_node(ns2, idb)
        == find_node(ns, idb) by {
        lemma_node_pos_push(ns, n, idb);
    }
}

} // verus!








