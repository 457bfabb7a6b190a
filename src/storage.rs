//! The storage engine: six tables held by transactions, and the graph
//! operations over them.
use vstd::prelude::*;
use vstd::utf8::encode_utf8;
use crate::keys::{
    bytes_eq, has_prefix, suffix_from, append_bytes, node_label_key, edge_label_key,
    out_edge_key, in_edge_key, node_label_prefix, is_prefix, node_label_key_spec,
    edge_label_key_spec, out_edge_key_spec, in_edge_key_spec, separator_free,
};
use crate::invariants::lemma_edge_listed_bytes;
use crate::order::{keys_of, sort_keys, sort_ids};
use crate::value::{
    Value, Node, Edge, NodeModel, EdgeModel, PropModel, nodes_model, edges_model,
    props_from_pairs, props_merge, props_model, merge_props,
};

verus! {

broadcast use vstd::std_specs::vec::group_vec_axioms;

/// Errors of storage operations and traversal steps.
#[derive(Debug)]
pub enum GraphError {
    NodeNotFound,
    EdgeNotFound,
    /// No directed path joins the two nodes.
    PathNotFound,
    /// The id given for a new record is already taken.
    DuplicateId,
    /// Another writer committed since this write transaction began.
    TransactionBusy,
    /// A step met values it cannot start from, or a caller's function
    /// failed; holds the name of the step.
    TraversalError(String),
}

/// The six tables. `nodes` and `edges` hold the records (keyed by `n:` id
/// and `e:` id); the four index tables hold keys with empty values. Entries
/// stay in the order they were written; scans hand results out in key order.
pub struct Tables {
    pub nodes: Vec<Node>,
    pub edges: Vec<Edge>,
    pub node_labels: Vec<Vec<u8>>,
    pub edge_labels: Vec<Vec<u8>>,
    pub out_edges: Vec<Vec<u8>>,
    pub in_edges: Vec<Vec<u8>>,
}

pub struct TablesModel {
    pub nodes: Seq<NodeModel>,
    pub edges: Seq<EdgeModel>,
    pub node_labels: Seq<Seq<u8>>,
    pub edge_labels: Seq<Seq<u8>>,
    pub out_edges: Seq<Seq<u8>>,
    pub in_edges: Seq<Seq<u8>>,
}

pub open spec fn keys_model(ks: Seq<Vec<u8>>) -> Seq<Seq<u8>> {
    keys_of(ks)
}

impl Tables {
    pub open spec fn model(&self) -> TablesModel {
        TablesModel {
            nodes: nodes_model(self.nodes@),
            edges: edges_model(self.edges@),
            node_labels: keys_model(self.node_labels@),
            edge_labels: keys_model(self.edge_labels@),
            out_edges: keys_model(self.out_edges@),
            in_edges: keys_model(self.in_edges@),
        }
    }

    pub fn empty() -> (r: Tables)
        ensures
            r.model() == empty_model(),
    {
        let r = Tables {
            nodes: Vec::new(),
            edges: Vec::new(),
            node_labels: Vec::new(),
            edge_labels: Vec::new(),
            out_edges: Vec::new(),
            in_edges: Vec::new(),
        };
        assert(r.model().nodes =~= Seq::empty());
        assert(r.model().edges =~= Seq::empty());
        assert(r.model().node_labels =~= Seq::empty());
        assert(r.model().edge_labels =~= Seq::empty());
        assert(r.model().out_edges =~= Seq::empty());
        assert(r.model().in_edges =~= Seq::empty());
        r
    }

    /// Tables that hold these records, with the index entries that the
    /// records call for, in record order.
    pub fn from_records(nodes: Vec<Node>, edges: Vec<Edge>) -> (r: Tables)
        ensures
            r.model().nodes == nodes_model(nodes@),
            r.model().edges == edges_model(edges@),
            r.model().node_labels == Seq::new(
                r.model().nodes.len(),
                |i: int| node_entry(r.model().nodes[i]),
            ),
            r.model().edge_labels == Seq::new(
                r.model().edges.len(),
                |i: int| label_entry(r.model().edges[i]),
            ),
            r.model().out_edges == Seq::new(
                r.model().edges.len(),
                |i: int| out_entry(r.model().edges[i]),
            ),
            r.model().in_edges == Seq::new(
                r.model().edges.len(),
                |i: int| in_entry(r.model().edges[i]),
            ),
    {
        let ghost nm = nodes_model(nodes@);
        let ghost em = edges_model(edges@);
        let mut node_labels: Vec<Vec<u8>> = Vec::new();
        let mut i: usize = 0;
        while i < nodes.len()
            invariant
                i <= nodes@.len(),
                nm == nodes_model(nodes@),
                node_labels@.len() == i,
                forall|j: int| 0 <= j < i ==> #[trigger] node_labels@[j]@ == node_entry(nm[j]),
            decreases nodes@.len() - i,
        {
            node_labels.push(node_label_key(nodes[i].label.as_str(), nodes[i].id.as_str()));
            i = i + 1;
        }
        let mut edge_labels: Vec<Vec<u8>> = Vec::new();
        let mut out_edges: Vec<Vec<u8>> = Vec::new();
        let mut in_edges: Vec<Vec<u8>> = Vec::new();
        let mut k: usize = 0;
        while k < edges.len()
            invariant
                k <= edges@.len(),
                em == edges_model(edges@),
                edge_labels@.len() == k,
                out_edges@.len() == k,
                in_edges@.len() == k,
                forall|j: int| 0 <= j < k ==> #[trigger] edge_labels@[j]@ == label_entry(em[j]),
                forall|j: int| 0 <= j < k ==> #[trigger] out_edges@[j]@ == out_entry(em[j]),
                forall|j: int| 0 <= j < k ==> #[trigger] in_edges@[j]@ == in_entry(em[j]),
            decreases edges@.len() - k,
        {
            let e = &edges[k];
            edge_labels.push(edge_label_key(e.label.as_str(), e.id.as_str()));
            out_edges.push(out_edge_key(e.from_node.as_str(), e.id.as_str()));
            in_edges.push(in_edge_key(e.to_node.as_str(), e.id.as_str()));
            k = k + 1;
        }
        let r = Tables { nodes, edges, node_labels, edge_labels, out_edges, in_edges };
        assert(r.model().node_labels =~= Seq::new(
            r.model().nodes.len(),
            |i: int| node_entry(r.model().nodes[i]),
        ));
        assert(r.model().edge_labels =~= Seq::new(
            r.model().edges.len(),
            |i: int| label_entry(r.model().edges[i]),
        ));
        assert(r.model().out_edges =~= Seq::new(
            r.model().edges.len(),
            |i: int| out_entry(r.model().edges[i]),
        ));
        assert(r.model().in_edges =~= Seq::new(
            r.model().edges.len(),
            |i: int| in_entry(r.model().edges[i]),
        ));
        r
    }

    /// A deep copy.
    pub fn duplicate(&self) -> (r: Tables)
        ensures
            r.model() == self.model(),
    {
        Tables {
            nodes: copy_nodes(&self.nodes),
            edges: copy_edges(&self.edges),
            node_labels: copy_keys(&self.node_labels),
            edge_labels: copy_keys(&self.edge_labels),
            out_edges: copy_keys(&self.out_edges),
            in_edges: copy_keys(&self.in_edges),
        }
    }
}

pub open spec fn empty_model() -> TablesModel {
    TablesModel {
        nodes: Seq::empty(),
        edges: Seq::empty(),
        node_labels: Seq::empty(),
        edge_labels: Seq::empty(),
        out_edges: Seq::empty(),
        in_edges: Seq::empty(),
    }
}

pub fn copy_bytes(b: &[u8]) -> (r: Vec<u8>)
    ensures
        r@ == b@,
{
    let mut v: Vec<u8> = Vec::new();
    append_bytes(&mut v, b);
    v
}

fn copy_keys(ks: &Vec<Vec<u8>>) -> (r: Vec<Vec<u8>>)
    ensures
        keys_model(r@) == keys_model(ks@),
{
    let mut out: Vec<Vec<u8>> = Vec::new();
    let mut i: usize = 0;
    while i < ks.len()
        invariant
            i <= ks.len(),
            out@.len() == i,
            forall|j: int| 0 <= j < i ==> out@[j]@ == ks@[j]@,
        decreases ks.len() - i,
    {
        out.push(copy_bytes(ks[i].as_slice()));
        i = i + 1;
    }
    assert(keys_model(out@) =~= keys_model(ks@));
    out
}

fn copy_nodes(ns: &Vec<Node>) -> (r: Vec<Node>)
    ensures
        nodes_model(r@) == nodes_model(ns@),
{
    let mut out: Vec<Node> = Vec::new();
    let mut i: usize = 0;
    while i < ns.len()
        invariant
            i <= ns.len(),
            out@.len() == i,
            forall|j: int| 0 <= j < i ==> out@[j].model() == ns@[j].model(),
        decreases ns.len() - i,
    {
        out.push(ns[i].duplicate());
        i = i + 1;
    }
    assert(nodes_model(out@) =~= nodes_model(ns@));
    out
}

fn copy_edges(es: &Vec<Edge>) -> (r: Vec<Edge>)
    ensures
        edges_model(r@) == edges_model(es@),
{
    let mut out: Vec<Edge> = Vec::new();
    let mut i: usize = 0;
    while i < es.len()
        invariant
            i <= es.len(),
            out@.len() == i,
            forall|j: int| 0 <= j < i ==> out@[j].model() == es@[j].model(),
        decreases es.len() - i,
    {
        out.push(es[i].duplicate());
        i = i + 1;
    }
    assert(edges_model(out@) =~= edges_model(es@));
    out
}

// ---------------------------------------------------------------------------
// Lookups by id
// ---------------------------------------------------------------------------

/// Index of the first node whose id has the UTF-8 bytes `idb`, or -1.
pub open spec fn node_pos(ns: Seq<NodeModel>, idb: Seq<u8>) -> int
    decreases ns.len(),
{
    if ns.len() == 0 {
        -1
    } else {
        let p = node_pos(ns.drop_last(), idb);
        if p >= 0 {
            p
        } else if encode_utf8(ns.last().id) == idb {
            ns.len() - 1
        } else {
            -1
        }
    }
}

/// Index of the first edge whose id has the UTF-8 bytes `idb`, or -1.
pub open spec fn edge_pos(es: Seq<EdgeModel>, idb: Seq<u8>) -> int
    decreases es.len(),
{
    if es.len() == 0 {
        -1
    } else {
        let p = edge_pos(es.drop_last(), idb);
        if p >= 0 {
            p
        } else if encode_utf8(es.last().id) == idb {
            es.len() - 1
        } else {
            -1
        }
    }
}

/// The node record stored under id bytes `idb`.
pub open spec fn find_node(ns: Seq<NodeModel>, idb: Seq<u8>) -> Option<NodeModel> {
    if node_pos(ns, idb) >= 0 {
        Some(ns[node_pos(ns, idb)])
    } else {
        None
    }
}

/// The edge record stored under id bytes `idb`.
pub open spec fn find_edge(es: Seq<EdgeModel>, idb: Seq<u8>) -> Option<EdgeModel> {
    if edge_pos(es, idb) >= 0 {
        Some(es[edge_pos(es, idb)])
    } else {
        None
    }
}

pub proof fn lemma_node_pos_range(ns: Seq<NodeModel>, idb: Seq<u8>)
    ensures
        -1 <= node_pos(ns, idb) < ns.len(),
        node_pos(ns, idb) >= 0 ==> encode_utf8(ns[node_pos(ns, idb)].id) == idb,
        node_pos(ns, idb) >= 0 ==> forall|j: int|
            0 <= j < node_pos(ns, idb) ==> encode_utf8(ns[j].id) != idb,
        node_pos(ns, idb) == -1 <==> forall|i: int|
            0 <= i < ns.len() ==> encode_utf8(ns[i].id) != idb,
    decreases ns.len(),
{
    if ns.len() > 0 {
        lemma_node_pos_range(ns.drop_last(), idb);
        let p = node_pos(ns.drop_last(), idb);
        if p < 0 {
            assert forall|i: int| 0 <= i < ns.len() - 1 implies encode_utf8(ns[i].id) != idb by {
                assert(ns[i] == ns.drop_last()[i]);
            }
        } else {
            assert(ns[p] == ns.drop_last()[p]);
            assert forall|j: int| 0 <= j < p implies encode_utf8(ns[j].id) != idb by {
                assert(ns[j] == ns.drop_last()[j]);
            }
        }
    }
}

pub proof fn lemma_edge_pos_range(es: Seq<EdgeModel>, idb: Seq<u8>)
    ensures
        -1 <= edge_pos(es, idb) < es.len(),
        edge_pos(es, idb) >= 0 ==> encode_utf8(es[edge_pos(es, idb)].id) == idb,
        edge_pos(es, idb) >= 0 ==> forall|j: int|
            0 <= j < edge_pos(es, idb) ==> encode_utf8(es[j].id) != idb,
        edge_pos(es, idb) == -1 <==> forall|i: int|
            0 <= i < es.len() ==> encode_utf8(es[i].id) != idb,
    decreases es.len(),
{
    if es.len() > 0 {
        lemma_edge_pos_range(es.drop_last(), idb);
        let p = edge_pos(es.drop_last(), idb);
        if p < 0 {
            assert forall|i: int| 0 <= i < es.len() - 1 implies encode_utf8(es[i].id) != idb by {
                assert(es[i] == es.drop_last()[i]);
            }
        } else {
            assert(es[p] == es.drop_last()[p]);
            assert forall|j: int| 0 <= j < p implies encode_utf8(es[j].id) != idb by {
                assert(es[j] == es.drop_last()[j]);
            }
        }
    }
}

pub proof fn lemma_node_pos(ns: Seq<NodeModel>, idb: Seq<u8>, i: int)
    requires
        0 <= i <= ns.len(),
        forall|j: int| 0 <= j < i ==> encode_utf8(ns[j].id) != idb,
        i < ns.len() ==> encode_utf8(ns[i].id) == idb,
    ensures
        i < ns.len() ==> node_pos(ns, idb) == i,
        i == ns.len() ==> node_pos(ns, idb) == -1,
{
    lemma_node_pos_range(ns, idb);
}

pub proof fn lemma_edge_pos(es: Seq<EdgeModel>, idb: Seq<u8>, i: int)
    requires
        0 <= i <= es.len(),
        forall|j: int| 0 <= j < i ==> encode_utf8(es[j].id) != idb,
        i < es.len() ==> encode_utf8(es[i].id) == idb,
    ensures
        i < es.len() ==> edge_pos(es, idb) == i,
        i == es.len() ==> edge_pos(es, idb) == -1,
{
    lemma_edge_pos_range(es, idb);
}

/// Position of the node with id bytes `idb`.
pub(crate) fn node_index(ns: &Vec<Node>, idb: &[u8]) -> (r: Option<usize>)
    ensures
        match r {
            Some(i) => i < ns@.len() && node_pos(nodes_model(ns@), idb@) == i as int,
            None => node_pos(nodes_model(ns@), idb@) == -1,
        },
{
    let ghost m = nodes_model(ns@);
    let mut i: usize = 0;
    while i < ns.len()
        invariant
            i <= ns.len(),
            m == nodes_model(ns@),
            forall|j: int| 0 <= j < i ==> encode_utf8(m[j].id) != idb@,
        decreases ns.len() - i,
    {
        if bytes_eq(ns[i].id.as_str().as_bytes(), idb) {
            proof {
                lemma_node_pos(m, idb@, i as int);
            }
            return Some(i);
        }
        i = i + 1;
    }
    proof {
        lemma_node_pos(m, idb@, i as int);
    }
    None
}

/// Position of the edge with id bytes `idb`.
pub(crate) fn edge_index(es: &Vec<Edge>, idb: &[u8]) -> (r: Option<usize>)
    ensures
        match r {
            Some(i) => i < es@.len() && edge_pos(edges_model(es@), idb@) == i as int,
            None => edge_pos(edges_model(es@), idb@) == -1,
        },
{
    let ghost m = edges_model(es@);
    let mut i: usize = 0;
    while i < es.len()
        invariant
            i <= es.len(),
            m == edges_model(es@),
            forall|j: int| 0 <= j < i ==> encode_utf8(m[j].id) != idb@,
        decreases es.len() - i,
    {
        if bytes_eq(es[i].id.as_str().as_bytes(), idb) {
            proof {
                lemma_edge_pos(m, idb@, i as int);
            }
            return Some(i);
        }
        i = i + 1;
    }
    proof {
        lemma_edge_pos(m, idb@, i as int);
    }
    None
}

// ---------------------------------------------------------------------------
// Prefix scans
// ---------------------------------------------------------------------------

/// The suffixes after `prefix` of the keys that start with it, in table order.
pub open spec fn scan(keys: Seq<Seq<u8>>, prefix: Seq<u8>) -> Seq<Seq<u8>>
    decreases keys.len(),
{
    if keys.len() == 0 {
        Seq::empty()
    } else {
        let rest = scan(keys.drop_last(), prefix);
        let k = keys.last();
        if is_prefix(prefix, k) {
            rest.push(k.subrange(prefix.len() as int, k.len() as int))
        } else {
            rest
        }
    }
}

/// An empty label filter matches every edge.
pub open spec fn label_ok(label: Seq<char>, e: EdgeModel) -> bool {
    label.len() == 0 || e.label == label
}

/// The edges named by `ids` that pass the label filter; ids without a record
/// are passed over.
pub open spec fn resolve_edges(ids: Seq<Seq<u8>>, es: Seq<EdgeModel>, label: Seq<char>) -> Seq<
    EdgeModel,
>
    decreases ids.len(),
{
    if ids.len() == 0 {
        Seq::empty()
    } else {
        let rest = resolve_edges(ids.drop_last(), es, label);
        match find_edge(es, ids.last()) {
            Some(e) => if label_ok(label, e) {
                rest.push(e)
            } else {
                rest
            },
            None => rest,
        }
    }
}

/// The far endpoint of an edge: its sink when `sink`, else its source.
pub open spec fn far_end(e: EdgeModel, sink: bool) -> Seq<char> {
    if sink {
        e.to_node
    } else {
        e.from_node
    }
}

/// For each edge named by `ids` that passes the label filter, the node at its
/// far end; dangling edges and endpoints are passed over.
pub open spec fn resolve_ends(
    ids: Seq<Seq<u8>>,
    m: TablesModel,
    label: Seq<char>,
    sink: bool,
) -> Seq<NodeModel>
    decreases ids.len(),
{
    if ids.len() == 0 {
        Seq::empty()
    } else {
        let rest = resolve_ends(ids.drop_last(), m, label, sink);
        match find_edge(m.edges, ids.last()) {
            Some(e) => if label_ok(label, e) {
                match find_node(m.nodes, encode_utf8(far_end(e, sink))) {
                    Some(n) => rest.push(n),
                    None => rest,
                }
            } else {
                rest
            },
            None => rest,
        }
    }
}

/// The nodes named by `ids`; ids without a record are passed over.
pub open spec fn resolve_nodes(ids: Seq<Seq<u8>>, ns: Seq<NodeModel>) -> Seq<NodeModel>
    decreases ids.len(),
{
    if ids.len() == 0 {
        Seq::empty()
    } else {
        let rest = resolve_nodes(ids.drop_last(), ns);
        match find_node(ns, ids.last()) {
            Some(n) => rest.push(n),
            None => rest,
        }
    }
}

/// The id bytes of the node records, in table order.
pub open spec fn node_ids(ns: Seq<NodeModel>) -> Seq<Seq<u8>> {
    Seq::new(ns.len(), |i: int| encode_utf8(ns[i].id))
}

/// The id bytes of the edge records, in table order.
pub open spec fn edge_ids(es: Seq<EdgeModel>) -> Seq<Seq<u8>> {
    Seq::new(es.len(), |i: int| encode_utf8(es[i].id))
}

/// `get_all_nodes`: the node records in key order.
pub open spec fn all_nodes(m: TablesModel) -> Seq<NodeModel> {
    resolve_nodes(sort_keys(node_ids(m.nodes)), m.nodes)
}

/// `get_all_edges`: the edge records in key order.
pub open spec fn all_edges(m: TablesModel) -> Seq<EdgeModel> {
    resolve_edges(sort_keys(edge_ids(m.edges)), m.edges, Seq::empty())
}

/// The adjacency table of one direction: `out_edges` when `outgoing`.
pub open spec fn adjacency(m: TablesModel, outgoing: bool) -> Seq<Seq<u8>> {
    if outgoing {
        m.out_edges
    } else {
        m.in_edges
    }
}

/// The prefix that enumerates the adjacency entries of `node`.
pub open spec fn adjacency_prefix(node: Seq<char>, outgoing: bool) -> Seq<u8> {
    if outgoing {
        out_edge_key_spec(encode_utf8(node), Seq::empty())
    } else {
        in_edge_key_spec(encode_utf8(node), Seq::empty())
    }
}

/// Ids of the edges listed under `node` in one adjacency table, in key
/// order.
pub open spec fn adjacent_ids(m: TablesModel, node: Seq<char>, outgoing: bool) -> Seq<Seq<u8>> {
    sort_keys(scan(adjacency(m, outgoing), adjacency_prefix(node, outgoing)))
}

/// `get_out_edges` / `get_in_edges`.
pub open spec fn adjacent_edges(m: TablesModel, node: Seq<char>, label: Seq<char>, outgoing: bool) -> Seq<
    EdgeModel,
> {
    resolve_edges(adjacent_ids(m, node, outgoing), m.edges, label)
}

/// `get_out_nodes` / `get_in_nodes`: the sink of each out-edge, or the
/// source of each in-edge.
pub open spec fn adjacent_nodes(m: TablesModel, node: Seq<char>, label: Seq<char>, outgoing: bool) -> Seq<
    NodeModel,
> {
    resolve_ends(adjacent_ids(m, node, outgoing), m, label, outgoing)
}

/// `get_nodes_by_types`: label-major, then in id order, where every entry
/// names a stored node.
pub open spec fn nodes_of_labels(m: TablesModel, labels: Seq<Seq<char>>) -> Seq<NodeModel>
    decreases labels.len(),
{
    if labels.len() == 0 {
        Seq::empty()
    } else {
        nodes_of_labels(m, labels.drop_last()) + resolve_nodes(
            sort_keys(
                scan(m.node_labels, node_label_key_spec(encode_utf8(labels.last()), Seq::empty())),
            ),
            m.nodes,
        )
    }
}

proof fn lemma_scan_step(keys: Seq<Seq<u8>>, prefix: Seq<u8>, i: int)
    requires
        0 <= i < keys.len(),
    ensures
        scan(keys.subrange(0, i + 1), prefix) == if is_prefix(prefix, keys[i]) {
            scan(keys.subrange(0, i), prefix).push(
                keys[i].subrange(prefix.len() as int, keys[i].len() as int),
            )
        } else {
            scan(keys.subrange(0, i), prefix)
        },
{
    assert(keys.subrange(0, i + 1).drop_last() =~= keys.subrange(0, i));
}

/// The prefix that enumerates the adjacency entries of `node`.
fn prefix_of(node: &str, outgoing: bool) -> (r: Vec<u8>)
    ensures
        r@ == adjacency_prefix(node@, outgoing),
{
    proof {
        reveal_strlit("");
        assert(encode_utf8(""@) =~= Seq::<u8>::empty());
    }
    if outgoing {
        out_edge_key(node, "")
    } else {
        in_edge_key(node, "")
    }
}

/// Ids listed under `prefix` in `keys`, in order.
fn scan_ids(keys: &Vec<Vec<u8>>, prefix: &[u8]) -> (r: Vec<Vec<u8>>)
    ensures
        keys_model(r@) == scan(keys_model(keys@), prefix@),
{
    let ghost km = keys_model(keys@);
    let mut out: Vec<Vec<u8>> = Vec::new();
    let mut i: usize = 0;
    assert(km.subrange(0, 0) =~= Seq::<Seq<u8>>::empty());
    assert(keys_model(out@) =~= Seq::<Seq<u8>>::empty());
    while i < keys.len()
        invariant
            i <= keys.len(),
            km == keys_model(keys@),
            keys_model(out@) == scan(km.subrange(0, i as int), prefix@),
        decreases keys.len() - i,
    {
        proof {
            lemma_scan_step(km, prefix@, i as int);
        }
        let k = keys[i].as_slice();
        if has_prefix(prefix, k) {
            let ghost before = out@;
            out.push(suffix_from(k, prefix.len()));
            assert(keys_model(out@) =~= keys_model(before).push(
                km[i as int].subrange(prefix@.len() as int, km[i as int].len() as int),
            ));
        }
        i = i + 1;
    }
    assert(km.subrange(0, i as int) =~= km);
    out
}

/// The edges named by `ids`, filtered by label.
fn edges_for_ids(t: &Tables, ids: &Vec<Vec<u8>>, label: &String) -> (r: Vec<Edge>)
    ensures
        edges_model(r@) == resolve_edges(keys_model(ids@), t.model().edges, label@),
{
    let ghost im = keys_model(ids@);
    let ghost tm = t.model();
    let mut out: Vec<Edge> = Vec::new();
    let mut i: usize = 0;
    assert(edges_model(out@) =~= Seq::<EdgeModel>::empty());
    while i < ids.len()
        invariant
            i <= ids.len(),
            im == keys_model(ids@),
            tm == t.model(),
            edges_model(out@) == resolve_edges(im.subrange(0, i as int), tm.edges, label@),
        decreases ids.len() - i,
    {
        assert(im.subrange(0, i + 1).drop_last() =~= im.subrange(0, i as int));
        match edge_index(&t.edges, ids[i].as_slice()) {
            Some(p) => {
                let e = &t.edges[p];
                if label.as_str().is_empty() || e.label == *label {
                    let ghost before = out@;
                    out.push(e.duplicate());
                    assert(edges_model(out@) =~= edges_model(before).push(e.model()));
                }
            },
            None => {},
        }
        i = i + 1;
    }
    assert(im.subrange(0, i as int) =~= im);
    out
}

/// The far ends of the edges named by `ids`, filtered by label.
fn ends_for_ids(t: &Tables, ids: &Vec<Vec<u8>>, label: &String, sink: bool) -> (r: Vec<Node>)
    ensures
        nodes_model(r@) == resolve_ends(keys_model(ids@), t.model(), label@, sink),
{
    let ghost im = keys_model(ids@);
    let ghost tm = t.model();
    let mut out: Vec<Node> = Vec::new();
    let mut i: usize = 0;
    assert(nodes_model(out@) =~= Seq::<NodeModel>::empty());
    while i < ids.len()
        invariant
            i <= ids.len(),
            im == keys_model(ids@),
            tm == t.model(),
            nodes_model(out@) == resolve_ends(im.subrange(0, i as int), tm, label@, sink),
        decreases ids.len() - i,
    {
        assert(im.subrange(0, i + 1).drop_last() =~= im.subrange(0, i as int));
        match edge_index(&t.edges, ids[i].as_slice()) {
            Some(p) => {
                let e = &t.edges[p];
                if label.as_str().is_empty() || e.label == *label {
                    let end = if sink {
                        e.to_node.as_str()
                    } else {
                        e.from_node.as_str()
                    };
                    match node_index(&t.nodes, end.as_bytes()) {
                        Some(q) => {
                            let ghost before = out@;
                            out.push(t.nodes[q].duplicate());
                            assert(nodes_model(out@) =~= nodes_model(before).push(
                                t.nodes@[q as int].model(),
                            ));
                        },
                        None => {},
                    }
                }
            },
            None => {},
        }
        i = i + 1;
    }
    assert(im.subrange(0, i as int) =~= im);
    out
}

/// Every id of `ids` names a stored node.
pub open spec fn all_resolve(ids: Seq<Seq<u8>>, ns: Seq<NodeModel>) -> bool {
    forall|i: int| 0 <= i < ids.len() ==> find_node(ns, #[trigger] ids[i]) is Some
}

/// Ids listed in the label index under `label`, in key order.
pub open spec fn label_ids(m: TablesModel, label: Seq<char>) -> Seq<Seq<u8>> {
    sort_keys(scan(m.node_labels, node_label_key_spec(encode_utf8(label), Seq::empty())))
}

/// Every label-index entry under one of `labels` names a stored node.
pub open spec fn labels_resolve(m: TablesModel, labels: Seq<Seq<char>>) -> bool {
    forall|k: int| 0 <= k < labels.len() ==> all_resolve(label_ids(m, #[trigger] labels[k]), m.nodes)
}

/// The nodes named by `ids`, or `None` when one of them names no node.
fn nodes_for_ids_strict(t: &Tables, ids: &Vec<Vec<u8>>) -> (r: Option<Vec<Node>>)
    ensures
        match r {
            Some(v) => all_resolve(keys_model(ids@), t.model().nodes) && nodes_model(v@)
                == resolve_nodes(keys_model(ids@), t.model().nodes),
            None => !all_resolve(keys_model(ids@), t.model().nodes),
        },
{
    let ghost im = keys_model(ids@);
    let ghost tm = t.model();
    let mut out: Vec<Node> = Vec::new();
    let mut i: usize = 0;
    assert(nodes_model(out@) =~= Seq::<NodeModel>::empty());
    while i < ids.len()
        invariant
            i <= ids.len(),
            im == keys_model(ids@),
            tm == t.model(),
            nodes_model(out@) == resolve_nodes(im.subrange(0, i as int), tm.nodes),
            forall|j: int| 0 <= j < i ==> find_node(tm.nodes, #[trigger] im[j]) is Some,
        decreases ids.len() - i,
    {
        assert(im.subrange(0, i + 1).drop_last() =~= im.subrange(0, i as int));
        match node_index(&t.nodes, ids[i].as_slice()) {
            Some(q) => {
                let ghost before = nodes_model(out@);
                out.push(t.nodes[q].duplicate());
                assert(nodes_model(out@) =~= before.push(t.nodes@[q as int].model()));
            },
            None => {
                assert(find_node(tm.nodes, im[i as int]) is None);
                return None;
            },
        }
        i = i + 1;
    }
    assert(im.subrange(0, i as int) =~= im);
    Some(out)
}

/// The nodes named by `ids`.
fn nodes_for_ids(t: &Tables, ids: &Vec<Vec<u8>>) -> (r: Vec<Node>)
    ensures
        nodes_model(r@) == resolve_nodes(keys_model(ids@), t.model().nodes),
{
    let ghost im = keys_model(ids@);
    let ghost tm = t.model();
    let mut out: Vec<Node> = Vec::new();
    let mut i: usize = 0;
    assert(nodes_model(out@) =~= Seq::<NodeModel>::empty());
    while i < ids.len()
        invariant
            i <= ids.len(),
            im == keys_model(ids@),
            tm == t.model(),
            nodes_model(out@) == resolve_nodes(im.subrange(0, i as int), tm.nodes),
        decreases ids.len() - i,
    {
        assert(im.subrange(0, i + 1).drop_last() =~= im.subrange(0, i as int));
        match node_index(&t.nodes, ids[i].as_slice()) {
            Some(q) => {
                let ghost before = out@;
                out.push(t.nodes[q].duplicate());
                assert(nodes_model(out@) =~= nodes_model(before).push(t.nodes@[q as int].model()));
            },
            None => {},
        }
        i = i + 1;
    }
    assert(im.subrange(0, i as int) =~= im);
    out
}

// ---------------------------------------------------------------------------
// Fresh ids and the effect of each write
// ---------------------------------------------------------------------------

/// A character of the hyphenated lower-case UUID text form.
pub open spec fn is_id_char(c: char) -> bool {
    ('0' <= c && c <= '9') || ('a' <= c && c <= 'f') || c == '-'
}

/// The shape of a generated id: 36 characters of `0-9`, `a-f` and `-`.
pub open spec fn is_generated_id(id: Seq<char>) -> bool {
    id.len() == 36 && forall|i: int| 0 <= i < id.len() ==> is_id_char(id[i])
}

/// Relies on uuid's `Uuid::new_v4` and on its `Display` impl, which writes
/// the hyphenated lower-case form: 36 characters of `0-9`, `a-f` and `-`.
#[verifier::external_body]
fn fresh_id() -> (r: String)
    ensures
        is_generated_id(r@),
{
    uuid::Uuid::new_v4().to_string()
}

/// The tables after `create_node` wrote node `n`.
pub open spec fn add_node(m: TablesModel, n: NodeModel) -> TablesModel {
    TablesModel {
        nodes: m.nodes.push(n),
        node_labels: m.node_labels.push(
            node_label_key_spec(encode_utf8(n.label), encode_utf8(n.id)),
        ),
        ..m
    }
}

/// The tables after `create_edge` wrote edge `e`.
pub open spec fn add_edge(m: TablesModel, e: EdgeModel) -> TablesModel {
    TablesModel {
        edges: m.edges.push(e),
        edge_labels: m.edge_labels.push(
            edge_label_key_spec(encode_utf8(e.label), encode_utf8(e.id)),
        ),
        out_edges: m.out_edges.push(out_edge_key_spec(encode_utf8(e.from_node), encode_utf8(e.id))),
        in_edges: m.in_edges.push(in_edge_key_spec(encode_utf8(e.to_node), encode_utf8(e.id))),
        ..m
    }
}

/// Node `n` with `updates` merged into its properties.
pub open spec fn merged_node(n: NodeModel, updates: PropModel) -> NodeModel {
    NodeModel { properties: props_merge(n.properties, updates), ..n }
}

/// Edge `e` with `updates` merged into its properties.
pub open spec fn merged_edge(e: EdgeModel, updates: PropModel) -> EdgeModel {
    EdgeModel { properties: props_merge(e.properties, updates), ..e }
}

/// The tables after the record of node `idb` took `updates`; `None` when no
/// node has that id.
pub open spec fn update_node_effect(m: TablesModel, idb: Seq<u8>, updates: PropModel) -> Option<
    TablesModel,
> {
    match find_node(m.nodes, idb) {
        Some(n) => Some(
            TablesModel {
                nodes: m.nodes.update(node_pos(m.nodes, idb), merged_node(n, updates)),
                ..m
            },
        ),
        None => None,
    }
}

/// The tables after the record of edge `idb` took `updates`; `None` when no
/// edge has that id.
pub open spec fn update_edge_effect(m: TablesModel, idb: Seq<u8>, updates: PropModel) -> Option<
    TablesModel,
> {
    match find_edge(m.edges, idb) {
        Some(e) => Some(
            TablesModel {
                edges: m.edges.update(edge_pos(m.edges, idb), merged_edge(e, updates)),
                ..m
            },
        ),
        None => None,
    }
}

// ---------------------------------------------------------------------------
// Removals
// ---------------------------------------------------------------------------

/// `ks` without the entries equal to `k`.
pub open spec fn without_key(ks: Seq<Seq<u8>>, k: Seq<u8>) -> Seq<Seq<u8>>
    decreases ks.len(),
{
    if ks.len() == 0 {
        Seq::empty()
    } else {
        let rest = without_key(ks.drop_last(), k);
        if ks.last() == k {
            rest
        } else {
            rest.push(ks.last())
        }
    }
}

/// `es` without the records whose id has the bytes `idb`.
pub open spec fn without_edge(es: Seq<EdgeModel>, idb: Seq<u8>) -> Seq<EdgeModel>
    decreases es.len(),
{
    if es.len() == 0 {
        Seq::empty()
    } else {
        let rest = without_edge(es.drop_last(), idb);
        if encode_utf8(es.last().id) == idb {
            rest
        } else {
            rest.push(es.last())
        }
    }
}

/// `ns` without the records whose id has the bytes `idb`.
pub open spec fn without_node(ns: Seq<NodeModel>, idb: Seq<u8>) -> Seq<NodeModel>
    decreases ns.len(),
{
    if ns.len() == 0 {
        Seq::empty()
    } else {
        let rest = without_node(ns.drop_last(), idb);
        if encode_utf8(ns.last().id) == idb {
            rest
        } else {
            rest.push(ns.last())
        }
    }
}

/// The tables after edge `e`'s record and its three index entries are removed.
pub open spec fn unlink_edge(m: TablesModel, e: EdgeModel) -> TablesModel {
    TablesModel {
        edges: without_edge(m.edges, encode_utf8(e.id)),
        edge_labels: without_key(
            m.edge_labels,
            edge_label_key_spec(encode_utf8(e.label), encode_utf8(e.id)),
        ),
        out_edges: without_key(
            m.out_edges,
            out_edge_key_spec(encode_utf8(e.from_node), encode_utf8(e.id)),
        ),
        in_edges: without_key(
            m.in_edges,
            in_edge_key_spec(encode_utf8(e.to_node), encode_utf8(e.id)),
        ),
        ..m
    }
}

/// The tables after each edge of `es` is unlinked, in order.
pub open spec fn unlink_edges(m: TablesModel, es: Seq<EdgeModel>) -> TablesModel
    decreases es.len(),
{
    if es.len() == 0 {
        m
    } else {
        unlink_edge(unlink_edges(m, es.drop_last()), es.last())
    }
}

/// The edges that `drop_node` cascades to: those listed under the node in
/// the outgoing index, then those listed in the incoming index.
pub open spec fn incident_edges(m: TablesModel, id: Seq<char>) -> Seq<EdgeModel> {
    adjacent_edges(m, id, Seq::empty(), true) + adjacent_edges(m, id, Seq::empty(), false)
}

/// The tables after the records of node id `idb` and its label entry are removed.
pub open spec fn unlink_node(m: TablesModel, idb: Seq<u8>, label: Seq<char>) -> TablesModel {
    TablesModel {
        nodes: without_node(m.nodes, idb),
        node_labels: without_key(m.node_labels, node_label_key_spec(encode_utf8(label), idb)),
        ..m
    }
}

/// The whole effect of `drop_node` on node `n`, found under id `id`.
pub open spec fn drop_node_effect(m: TablesModel, id: Seq<char>, n: NodeModel) -> TablesModel {
    unlink_node(unlink_edges(m, incident_edges(m, id)), encode_utf8(id), n.label)
}

fn remove_key(ks: &mut Vec<Vec<u8>>, k: &[u8])
    ensures
        keys_model(final(ks)@) == without_key(keys_model(old(ks)@), k@),
{
    let mut old_keys: Vec<Vec<u8>> = Vec::new();
    std::mem::swap(ks, &mut old_keys);
    let ghost om = keys_model(old_keys@);
    let mut i: usize = 0;
    assert(keys_model(ks@) =~= Seq::<Seq<u8>>::empty());
    while i < old_keys.len()
        invariant
            i <= old_keys.len(),
            om == keys_model(old_keys@),
            keys_model(ks@) == without_key(om.subrange(0, i as int), k@),
        decreases old_keys.len() - i,
    {
        assert(om.subrange(0, i + 1).drop_last() =~= om.subrange(0, i as int));
        if !bytes_eq(old_keys[i].as_slice(), k) {
            let ghost before = ks@;
            ks.push(copy_bytes(old_keys[i].as_slice()));
            assert(keys_model(ks@) =~= keys_model(before).push(om[i as int]));
        }
        i = i + 1;
    }
    assert(om.subrange(0, i as int) =~= om);
}

fn remove_edge_records(es: &mut Vec<Edge>, idb: &[u8])
    ensures
        edges_model(final(es)@) == without_edge(edges_model(old(es)@), idb@),
{
    let mut old_es: Vec<Edge> = Vec::new();
    std::mem::swap(es, &mut old_es);
    let ghost om = edges_model(old_es@);
    let mut i: usize = 0;
    assert(edges_model(es@) =~= Seq::<EdgeModel>::empty());
    while i < old_es.len()
        invariant
            i <= old_es.len(),
            om == edges_model(old_es@),
            edges_model(es@) == without_edge(om.subrange(0, i as int), idb@),
        decreases old_es.len() - i,
    {
        assert(om.subrange(0, i + 1).drop_last() =~= om.subrange(0, i as int));
        if !bytes_eq(old_es[i].id.as_str().as_bytes(), idb) {
            let ghost before = es@;
            es.push(old_es[i].duplicate());
            assert(edges_model(es@) =~= edges_model(before).push(om[i as int]));
        }
        i = i + 1;
    }
    assert(om.subrange(0, i as int) =~= om);
}

fn remove_node_records(ns: &mut Vec<Node>, idb: &[u8])
    ensures
        nodes_model(final(ns)@) == without_node(nodes_model(old(ns)@), idb@),
{
    let mut old_ns: Vec<Node> = Vec::new();
    std::mem::swap(ns, &mut old_ns);
    let ghost om = nodes_model(old_ns@);
    let mut i: usize = 0;
    assert(nodes_model(ns@) =~= Seq::<NodeModel>::empty());
    while i < old_ns.len()
        invariant
            i <= old_ns.len(),
            om == nodes_model(old_ns@),
            nodes_model(ns@) == without_node(om.subrange(0, i as int), idb@),
        decreases old_ns.len() - i,
    {
        assert(om.subrange(0, i + 1).drop_last() =~= om.subrange(0, i as int));
        if !bytes_eq(old_ns[i].id.as_str().as_bytes(), idb) {
            let ghost before = ns@;
            ns.push(old_ns[i].duplicate());
            assert(nodes_model(ns@) =~= nodes_model(before).push(om[i as int]));
        }
        i = i + 1;
    }
    assert(om.subrange(0, i as int) =~= om);
}

/// Removes edge `e`'s record and its three index entries.
fn unlink(t: &mut Tables, e: &Edge)
    ensures
        final(t).model() == unlink_edge(old(t).model(), e.model()),
{
    let label_key = edge_label_key(e.label.as_str(), e.id.as_str());
    let out_key = out_edge_key(e.from_node.as_str(), e.id.as_str());
    let in_key = in_edge_key(e.to_node.as_str(), e.id.as_str());
    remove_edge_records(&mut t.edges, e.id.as_str().as_bytes());
    remove_key(&mut t.edge_labels, label_key.as_slice());
    remove_key(&mut t.out_edges, out_key.as_slice());
    remove_key(&mut t.in_edges, in_key.as_slice());
}

// ---------------------------------------------------------------------------
// Breadth-first search
// ---------------------------------------------------------------------------

/// `es`, read from last to first, is a chain of stored edges that leads from
/// the node with id bytes `from` to the node with id bytes `to`.
pub open spec fn is_reverse_path(m: TablesModel, es: Seq<EdgeModel>, from: Seq<u8>, to: Seq<u8>) -> bool {
    &&& es.len() > 0
    &&& encode_utf8(es[0].to_node) == to
    &&& encode_utf8(es.last().from_node) == from
    &&& forall|i: int|
        0 <= i < es.len() - 1 ==> #[trigger] encode_utf8(es[i].from_node) == encode_utf8(
            es[i + 1].to_node,
        )
    &&& forall|i: int| 0 <= i < es.len() ==> m.edges.contains(#[trigger] es[i])
}

/// The search tree: entry 0 is `from`; entry `j + 1` was reached from entry
/// `par[j]` over the stored edge `via[j]`.
pub open spec fn search_tree(
    m: TablesModel,
    ids: Seq<Seq<u8>>,
    par: Seq<usize>,
    via: Seq<EdgeModel>,
    from: Seq<u8>,
) -> bool {
    &&& ids.len() == par.len() + 1
    &&& via.len() == par.len()
    &&& ids[0] == from
    &&& forall|j: int|
        0 <= j < par.len() ==> {
            &&& #[trigger] par[j] <= j
            &&& encode_utf8(via[j].from_node) == ids[par[j] as int]
            &&& encode_utf8(via[j].to_node) == ids[j + 1]
            &&& m.edges.contains(via[j])
        }
}

/// Every edge that a lookup by id returns is a stored record.
pub proof fn lemma_resolved_edges_stored(ids: Seq<Seq<u8>>, es: Seq<EdgeModel>, label: Seq<char>)
    ensures
        forall|i: int|
            0 <= i < resolve_edges(ids, es, label).len() ==> es.contains(
                #[trigger] resolve_edges(ids, es, label)[i],
            ),
    decreases ids.len(),
{
    if ids.len() > 0 {
        lemma_resolved_edges_stored(ids.drop_last(), es, label);
        lemma_edge_pos_range(es, ids.last());
        let rest = resolve_edges(ids.drop_last(), es, label);
        let r = resolve_edges(ids, es, label);
        assert forall|i: int| 0 <= i < r.len() implies es.contains(#[trigger] r[i]) by {
            if i < rest.len() {
                assert(r[i] == rest[i]);
            } else {
                assert(r[i] == es[edge_pos(es, ids.last())]);
            }
        }
    }
}

/// The prefix `o:` node `:` for node id bytes `node`.
fn out_prefix_of_bytes(node: &[u8]) -> (r: Vec<u8>)
    ensures
        r@ == out_edge_key_spec(node@, Seq::empty()),
{
    let mut k: Vec<u8> = Vec::new();
    k.push(111u8);
    k.push(58u8);
    append_bytes(&mut k, node);
    k.push(58u8);
    assert(k@ =~= out_edge_key_spec(node@, Seq::empty()));
    k
}

/// Whether some entry of `ids` equals `b`.
fn contains_bytes(ids: &Vec<Vec<u8>>, b: &[u8]) -> (r: bool)
    ensures
        r == exists|j: int| 0 <= j < ids@.len() && ids@[j]@ == b@,
{
    let mut i: usize = 0;
    while i < ids.len()
        invariant
            i <= ids.len(),
            forall|j: int| 0 <= j < i ==> ids@[j]@ != b@,
        decreases ids.len() - i,
    {
        if bytes_eq(ids[i].as_slice(), b) {
            return true;
        }
        i = i + 1;
    }
    false
}

/// Follows the search tree back from entry `k` to entry 0.
fn walk_back(
    ids: &Vec<Vec<u8>>,
    par: &Vec<usize>,
    via: &Vec<Edge>,
    k: usize,
    Ghost(m): Ghost<TablesModel>,
    Ghost(from): Ghost<Seq<u8>>,
    Ghost(dep): Ghost<Seq<nat>>,
) -> (r: Vec<Edge>)
    requires
        search_tree(m, keys_model(ids@), par@, edges_model(via@), from),
        layered(par@, dep),
        1 <= k < ids@.len(),
    ensures
        is_reverse_path(m, edges_model(r@), from, ids@[k as int]@),
        r@.len() == dep[k as int],
{
    let ghost im = keys_model(ids@);
    let ghost vm = edges_model(via@);
    let mut out: Vec<Edge> = Vec::new();
    let mut cur: usize = k;
    while cur > 0
        invariant
            search_tree(m, im, par@, vm, from),
            im == keys_model(ids@),
            vm == edges_model(via@),
            1 <= k < ids@.len(),
            layered(par@, dep),
            cur <= k,
            out@.len() + dep[cur as int] == dep[k as int],
            out@.len() == 0 ==> cur == k,
            out@.len() > 0 ==> {
                let om = edges_model(out@);
                &&& encode_utf8(om[0].to_node) == im[k as int]
                &&& encode_utf8(om.last().from_node) == im[cur as int]
                &&& forall|i: int|
                    0 <= i < om.len() - 1 ==> #[trigger] encode_utf8(om[i].from_node)
                        == encode_utf8(om[i + 1].to_node)
                &&& forall|i: int| 0 <= i < om.len() ==> m.edges.contains(#[trigger] om[i])
            },
        decreases cur,
    {
        let ghost before = edges_model(out@);
        let j = cur - 1;
        assert(par@[j as int] <= j);
        assert(dep[j + 1] == dep[par@[j as int] as int] + 1);
        out.push(via[j].duplicate());
        let ghost om = edges_model(out@);
        assert(om =~= before.push(vm[j as int]));
        cur = par[j];
        proof {
            assert forall|i: int| 0 <= i < om.len() implies m.edges.contains(#[trigger] om[i]) by {
                if i < before.len() {
                    assert(om[i] == before[i]);
                }
            }
            assert forall|i: int| 0 <= i < om.len() - 1 implies #[trigger] encode_utf8(
                om[i].from_node,
            ) == encode_utf8(om[i + 1].to_node) by {
                if i < before.len() - 1 {
                    assert(om[i] == before[i] && om[i + 1] == before[i + 1]);
                } else {
                    assert(om[i] == before.last());
                }
            }
        }
    }
    proof {
        let om = edges_model(out@);
        assert(om.len() > 0);
        assert(im[k as int] == ids@[k as int]@);
    }
    out
}

/// `es` is a chain of stored edges that leads from the node with id bytes
/// `from` to the node with id bytes `to`.
pub open spec fn is_path(m: TablesModel, es: Seq<EdgeModel>, from: Seq<u8>, to: Seq<u8>) -> bool {
    &&& es.len() > 0
    &&& encode_utf8(es[0].from_node) == from
    &&& encode_utf8(es.last().to_node) == to
    &&& forall|i: int|
        0 <= i < es.len() - 1 ==> #[trigger] encode_utf8(es[i].to_node) == encode_utf8(
            es[i + 1].from_node,
        )
    &&& forall|i: int| 0 <= i < es.len() ==> m.edges.contains(#[trigger] es[i])
}

/// Some chain of stored edges leads from `from` to `to`.
pub open spec fn reachable(m: TablesModel, from: Seq<u8>, to: Seq<u8>) -> bool {
    exists|es: Seq<EdgeModel>| is_path(m, es, from, to)
}

/// No two entries are equal.
pub open spec fn all_distinct(s: Seq<Seq<u8>>) -> bool {
    forall|a: int, b: int| 0 <= a < s.len() && 0 <= b < s.len() && a != b ==> #[trigger] s[a] != #[trigger] s[b]
}

/// The depths of a search tree: entry 0 has depth 0, entry `j + 1` one more
/// than its parent; depths never decrease along the entries.
pub open spec fn layered(par: Seq<usize>, dep: Seq<nat>) -> bool {
    &&& dep.len() == par.len() + 1
    &&& dep[0] == 0
    &&& forall|j: int| 0 <= j < par.len() ==> #[trigger] dep[j + 1] == dep[par[j] as int] + 1
    &&& forall|a: int, b: int| 0 <= a <= b < dep.len() ==> #[trigger] dep[a] <= #[trigger] dep[b]
}

/// Every stored edge that leaves one of the first `k` entries of `ids` ends
/// at an entry at most one level deeper.
pub open spec fn closed_upto(m: TablesModel, ids: Seq<Seq<u8>>, dep: Seq<nat>, k: int) -> bool {
    forall|j: int, i: int|
        #![trigger ids[j], m.edges[i]]
        0 <= j < k && 0 <= i < m.edges.len() && encode_utf8(m.edges[i].from_node) == ids[j]
            ==> exists|t: int|
            0 <= t < ids.len() && #[trigger] ids[t] == encode_utf8(m.edges[i].to_node) && dep[t]
                <= dep[j] + 1
}

proof fn lemma_closed_grows(
    m: TablesModel,
    ids: Seq<Seq<u8>>,
    dep: Seq<nat>,
    x: Seq<u8>,
    d: nat,
    k: int,
)
    requires
        0 <= k <= ids.len(),
        ids.len() == dep.len(),
        closed_upto(m, ids, dep, k),
    ensures
        closed_upto(m, ids.push(x), dep.push(d), k),
{
    let ids2 = ids.push(x);
    let dep2 = dep.push(d);
    assert forall|j: int, i: int|
        #![trigger ids2[j], m.edges[i]]
        0 <= j < k && 0 <= i < m.edges.len() && encode_utf8(m.edges[i].from_node) == ids2[j]
            implies exists|t: int|
        0 <= t < ids2.len() && #[trigger] ids2[t] == encode_utf8(m.edges[i].to_node) && dep2[t]
            <= dep2[j] + 1 by {
        assert(ids2[j] == ids[j] && dep2[j] == dep[j]);
        assert(ids[j] == ids[j] && m.edges[i] == m.edges[i]);
        let t = choose|t: int|
            0 <= t < ids.len() && #[trigger] ids[t] == encode_utf8(m.edges[i].to_node) && dep[t]
                <= dep[j] + 1;
        assert(ids2[t] == ids[t] && dep2[t] == dep[t]);
    }
}

proof fn lemma_closed_step(m: TablesModel, ids: Seq<Seq<u8>>, dep: Seq<nat>, k: int)
    requires
        0 <= k < ids.len(),
        closed_upto(m, ids, dep, k),
        forall|i: int|
            0 <= i < m.edges.len() && encode_utf8(m.edges[i].from_node) == ids[k] ==> exists|t: int|
                0 <= t < ids.len() && #[trigger] ids[t] == encode_utf8(
                    #[trigger] m.edges[i].to_node,
                ) && dep[t] <= dep[k] + 1,
    ensures
        closed_upto(m, ids, dep, k + 1),
{
    assert forall|j: int, i: int|
        #![trigger ids[j], m.edges[i]]
        0 <= j < k + 1 && 0 <= i < m.edges.len() && encode_utf8(m.edges[i].from_node) == ids[j]
            implies exists|t: int|
        0 <= t < ids.len() && #[trigger] ids[t] == encode_utf8(m.edges[i].to_node) && dep[t] <= dep[j]
            + 1 by {
        if j < k {
            assert(ids[j] == ids[j] && m.edges[i] == m.edges[i]);
        } else {
            assert(m.edges[i].to_node == m.edges[i].to_node);
        }
    }
}

/// The `i`-th vertex of a path from `from`: `from`, then the sink of each edge.
pub open spec fn path_vertex(p: Seq<EdgeModel>, from: Seq<u8>, i: int) -> Seq<u8> {
    if i == 0 {
        from
    } else {
        encode_utf8(p[i - 1].to_node)
    }
}

/// Walking a path through a tree whose first `h` entries are closed: either
/// the walk has met an entry at index `h` or later, at a depth no greater
/// than its position on the path, or its `i`-th vertex is an entry before
/// index `h` at depth at most `i`.
proof fn lemma_walk(
    m: TablesModel,
    ids: Seq<Seq<u8>>,
    dep: Seq<nat>,
    h: int,
    p: Seq<EdgeModel>,
    from: Seq<u8>,
    to: Seq<u8>,
    i: int,
)
    requires
        ids.len() == dep.len(),
        0 <= h < ids.len(),
        ids[0] == from,
        dep[0] == 0,
        closed_upto(m, ids, dep, h),
        is_path(m, p, from, to),
        0 <= i <= p.len(),
    ensures
        (exists|f: int, t: int|
            #![trigger ids[t], path_vertex(p, from, f)]
            0 <= f <= i && h <= t < ids.len() && ids[t] == path_vertex(p, from, f)
                && dep[t] <= f) || (exists|t: int|
            0 <= t < h && #[trigger] ids[t] == path_vertex(p, from, i) && dep[t] <= i),
    decreases i,
{
    if i == 0 {
        if h == 0 {
            assert(ids[0] == path_vertex(p, from, 0));
        } else {
            assert(ids[0] == path_vertex(p, from, 0));
        }
    } else {
        lemma_walk(m, ids, dep, h, p, from, to, i - 1);
        if exists|t: int|
            0 <= t < h && #[trigger] ids[t] == path_vertex(p, from, i - 1) && dep[t] <= i - 1 {
            let t = choose|t: int|
                0 <= t < h && #[trigger] ids[t] == path_vertex(p, from, i - 1) && dep[t] <= i - 1;
            let e = p[i - 1];
            assert(encode_utf8(e.from_node) == path_vertex(p, from, i - 1)) by {
                if i - 1 > 0 {
                    assert(encode_utf8(p[i - 2].to_node) == encode_utf8(p[i - 1].from_node));
                }
            }
            assert(m.edges.contains(e));
            let q = choose|q: int| 0 <= q < m.edges.len() && m.edges[q] == e;
            assert(ids[t] == ids[t] && m.edges[q] == m.edges[q]);
            let t2 = choose|t2: int|
                0 <= t2 < ids.len() && #[trigger] ids[t2] == encode_utf8(m.edges[q].to_node)
                    && dep[t2] <= dep[t] + 1;
            assert(ids[t2] == path_vertex(p, from, i));
            if t2 < h {
            } else {
                assert(ids[t2] == path_vertex(p, from, i) && dep[t2] <= i);
            }
        } else {
            let (f, t) = choose|f: int, t: int|
                #![trigger ids[t], path_vertex(p, from, f)]
                0 <= f <= i - 1 && h <= t < ids.len() && ids[t] == path_vertex(p, from, f)
                    && dep[t] <= f;
            assert(0 <= f <= i && h <= t < ids.len() && ids[t] == path_vertex(p, from, f) && dep[t]
                <= f);
        }
    }
}

/// Breadth-first minimality: while entry `h` is being expanded, a path to
/// an id that is not yet an entry has more than `dep[h]` edges.
proof fn lemma_no_shorter_path(
    m: TablesModel,
    ids: Seq<Seq<u8>>,
    dep: Seq<nat>,
    h: int,
    p: Seq<EdgeModel>,
    from: Seq<u8>,
    to: Seq<u8>,
)
    requires
        ids.len() == dep.len(),
        0 <= h < ids.len(),
        ids[0] == from,
        dep[0] == 0,
        forall|a: int, b: int| 0 <= a <= b < dep.len() ==> #[trigger] dep[a] <= #[trigger] dep[b],
        closed_upto(m, ids, dep, h),
        is_path(m, p, from, to),
        !ids.contains(to),
    ensures
        p.len() >= dep[h] + 1,
{
    lemma_walk(m, ids, dep, h, p, from, to, p.len() as int);
    assert(path_vertex(p, from, p.len() as int) == to);
    if exists|t: int|
        0 <= t < h && #[trigger] ids[t] == path_vertex(p, from, p.len() as int) && dep[t] <= p.len() {
        let t = choose|t: int|
            0 <= t < h && #[trigger] ids[t] == path_vertex(p, from, p.len() as int) && dep[t]
                <= p.len();
        assert(ids.contains(to));
    } else {
        let (f, t) = choose|f: int, t: int|
            #![trigger ids[t], path_vertex(p, from, f)]
            0 <= f <= p.len() && h <= t < ids.len() && ids[t] == path_vertex(p, from, f)
                && dep[t] <= f;
        assert(dep[h] <= dep[t]);
        if f == p.len() {
            assert(ids.contains(to));
        }
    }
}

/// A set of entries that holds `from`, and is closed under stored edges,
/// holds every id reachable from `from`.
proof fn lemma_closed_unreachable(
    m: TablesModel,
    ids: Seq<Seq<u8>>,
    dep: Seq<nat>,
    from: Seq<u8>,
    to: Seq<u8>,
)
    requires
        ids.len() > 0,
        ids.len() == dep.len(),
        ids[0] == from,
        dep[0] == 0,
        closed_upto(m, ids, dep, ids.len() as int),
        !ids.contains(to),
    ensures
        !reachable(m, from, to),
{
    if reachable(m, from, to) {
        let p = choose|p: Seq<EdgeModel>| is_path(m, p, from, to);
        assert(ids[0] == path_vertex(p, from, 0));
        lemma_walk_from(m, ids, dep, p, from, to, 0);
    }
}

/// From a vertex of a path that is an entry, in a tree closed as a whole,
/// every later vertex, and so the end, is an entry.
proof fn lemma_walk_from(
    m: TablesModel,
    ids: Seq<Seq<u8>>,
    dep: Seq<nat>,
    p: Seq<EdgeModel>,
    from: Seq<u8>,
    to: Seq<u8>,
    f: int,
)
    requires
        ids.len() == dep.len(),
        closed_upto(m, ids, dep, ids.len() as int),
        is_path(m, p, from, to),
        0 <= f <= p.len(),
        ids.contains(path_vertex(p, from, f)),
    ensures
        ids.contains(to),
    decreases p.len() - f,
{
    if f == p.len() {
        assert(path_vertex(p, from, f) == to);
    } else {
        let e = p[f];
        assert(encode_utf8(e.from_node) == path_vertex(p, from, f)) by {
            if f > 0 {
                assert(encode_utf8(p[f - 1].to_node) == encode_utf8(p[f].from_node));
            }
        }
        let w = choose|w: int| 0 <= w < ids.len() && ids[w] == path_vertex(p, from, f);
        assert(m.edges.contains(e));
        let q = choose|q: int| 0 <= q < m.edges.len() && m.edges[q] == e;
        assert(ids[w] == ids[w] && m.edges[q] == m.edges[q]);
        let t = choose|t: int|
            0 <= t < ids.len() && #[trigger] ids[t] == encode_utf8(m.edges[q].to_node) && dep[t]
                <= dep[w] + 1;
        assert(ids[t] == path_vertex(p, from, f + 1));
        lemma_walk_from(m, ids, dep, p, from, to, f + 1);
    }
}

/// In a search tree over distinct ids, one more stored edge that leads to a
/// new id still fits among the stored edges.
proof fn lemma_tree_bound(
    m: TablesModel,
    ids: Seq<Seq<u8>>,
    par: Seq<usize>,
    hops: Seq<EdgeModel>,
    from: Seq<u8>,
    e: EdgeModel,
)
    requires
        search_tree(m, ids, par, hops, from),
        all_distinct(ids),
        m.edges.contains(e),
        !ids.contains(encode_utf8(e.to_node)),
    ensures
        hops.len() + 1 <= m.edges.len(),
{
    let all = hops.push(e);
    assert forall|a: int, b: int| 0 <= a < all.len() && 0 <= b < all.len() && a != b implies all[a]
        != all[b] by {
        if a < hops.len() && b < hops.len() {
            assert(par[a] <= a && par[b] <= b);
            assert(ids[a + 1] != ids[b + 1]);
        } else if a < hops.len() {
            assert(par[a] <= a);
            assert(ids[a + 1] == encode_utf8(all[a].to_node));
        } else {
            assert(par[b] <= b);
            assert(ids[b + 1] == encode_utf8(all[b].to_node));
        }
    }
    assert(all.no_duplicates());
    all.unique_seq_to_set();
    m.edges.lemma_cardinality_of_set();
    assert forall|x: EdgeModel| all.to_set().contains(x) implies m.edges.to_set().contains(x) by {
        let a = choose|a: int| 0 <= a < all.len() && all[a] == x;
        if a < hops.len() {
            assert(par[a] <= a);
            assert(m.edges.contains(hops[a]));
        }
    }
    vstd::set_lib::lemma_len_subset(all.to_set(), m.edges.to_set());
}

/// What `shortest_path` hands back on success: for equal ids the stored
/// node alone and no edge; otherwise a chain of stored edges from `from` to
/// `to`, end-first, with the node at the head of each edge and then the
/// start. In a well-formed store no chain between them is shorter.
pub open spec fn path_found(
    m: TablesModel,
    from: Seq<u8>,
    to: Seq<u8>,
    nm: Seq<NodeModel>,
    em: Seq<EdgeModel>,
) -> bool {
    &&& nm.len() == em.len() + 1
    &&& find_node(m.nodes, from) == Some(nm.last())
    &&& forall|i: int|
        0 <= i < em.len() ==> find_node(m.nodes, encode_utf8(#[trigger] em[i].to_node)) == Some(
            nm[i],
        )
    &&& if from == to {
        em.len() == 0
    } else {
        is_reverse_path(m, em, from, to)
    }
    &&& well_formed(m) ==> forall|p: Seq<EdgeModel>| is_path(m, p, from, to) ==> p.len() >= em.len()
}

/// How `shortest_path` may fail: `PathNotFound` only for distinct ids, and
/// in a well-formed store only when no chain of stored edges joins them;
/// `NodeNotFound` for equal ids that name no node, or in a store that is not
/// well formed.
pub open spec fn path_failure(m: TablesModel, from: Seq<u8>, to: Seq<u8>, e: GraphError) -> bool {
    &&& (e is PathNotFound || e is NodeNotFound)
    &&& e is PathNotFound ==> from != to && (well_formed(m) ==> !reachable(m, from, to))
    &&& from == to ==> find_node(m.nodes, from) is None
    &&& e is NodeNotFound ==> (!well_formed(m) || find_node(m.nodes, from) is None)
}

// ---------------------------------------------------------------------------
// The table invariants
// ---------------------------------------------------------------------------

/// The label-index entry of a node.
pub open spec fn node_entry(n: NodeModel) -> Seq<u8> {
    node_label_key_spec(encode_utf8(n.label), encode_utf8(n.id))
}

/// The label-index entry of an edge.
pub open spec fn label_entry(e: EdgeModel) -> Seq<u8> {
    edge_label_key_spec(encode_utf8(e.label), encode_utf8(e.id))
}

/// The outgoing-adjacency entry of an edge.
pub open spec fn out_entry(e: EdgeModel) -> Seq<u8> {
    out_edge_key_spec(encode_utf8(e.from_node), encode_utf8(e.id))
}

/// The incoming-adjacency entry of an edge.
pub open spec fn in_entry(e: EdgeModel) -> Seq<u8> {
    in_edge_key_spec(encode_utf8(e.to_node), encode_utf8(e.id))
}

/// No two nodes share an id.
pub open spec fn node_ids_unique(ns: Seq<NodeModel>) -> bool {
    forall|i: int, j: int|
        #![trigger ns[i], ns[j]]
        0 <= i < ns.len() && 0 <= j < ns.len() && i != j ==> encode_utf8(ns[i].id) != encode_utf8(
            ns[j].id,
        )
}

/// No two edges share an id.
pub open spec fn edge_ids_unique(es: Seq<EdgeModel>) -> bool {
    forall|i: int, j: int|
        #![trigger es[i], es[j]]
        0 <= i < es.len() && 0 <= j < es.len() && i != j ==> encode_utf8(es[i].id) != encode_utf8(
            es[j].id,
        )
}

/// The invariants that every committed state keeps:
/// one label entry per node and one per edge, in record order (I1, I2);
/// one outgoing and one incoming entry per edge (I3); both endpoints of
/// every edge are stored nodes (I4); ids are unique (I5) and hold no
/// separator, so that every key names its record unambiguously.
pub open spec fn well_formed(m: TablesModel) -> bool {
    &&& m.node_labels == Seq::new(m.nodes.len(), |i: int| node_entry(m.nodes[i]))
    &&& m.edge_labels == Seq::new(m.edges.len(), |i: int| label_entry(m.edges[i]))
    &&& m.out_edges == Seq::new(m.edges.len(), |i: int| out_entry(m.edges[i]))
    &&& m.in_edges == Seq::new(m.edges.len(), |i: int| in_entry(m.edges[i]))
    &&& node_ids_unique(m.nodes)
    &&& edge_ids_unique(m.edges)
    &&& forall|i: int| 0 <= i < m.nodes.len() ==> separator_free(encode_utf8(#[trigger] m.nodes[i].id))
    &&& forall|i: int| 0 <= i < m.edges.len() ==> separator_free(encode_utf8(#[trigger] m.edges[i].id))
    &&& forall|i: int|
        0 <= i < m.edges.len() ==> find_node(m.nodes, encode_utf8(#[trigger] m.edges[i].from_node)) is Some
            && find_node(m.nodes, encode_utf8(m.edges[i].to_node)) is Some
}

// ---------------------------------------------------------------------------
// Checking the invariants
// ---------------------------------------------------------------------------

/// Whether no byte of `b` is the separator.
fn no_separator(b: &[u8]) -> (r: bool)
    ensures
        r == separator_free(b@),
{
    let mut i: usize = 0;
    while i < b.len()
        invariant
            i <= b@.len(),
            forall|j: int| 0 <= j < i ==> b@[j] != crate::keys::SEPARATOR,
        decreases b@.len() - i,
    {
        if b[i] == crate::keys::SEPARATOR {
            return false;
        }
        i = i + 1;
    }
    true
}

/// Whether two key lists hold the same keys in the same order.
fn same_keys(a: &Vec<Vec<u8>>, b: &Vec<Vec<u8>>) -> (r: bool)
    ensures
        r == (keys_model(a@) == keys_model(b@)),
{
    if a.len() != b.len() {
        assert(keys_model(a@).len() != keys_model(b@).len());
        return false;
    }
    let mut i: usize = 0;
    while i < a.len()
        invariant
            i <= a@.len(),
            a@.len() == b@.len(),
            forall|j: int| 0 <= j < i ==> a@[j]@ == b@[j]@,
        decreases a@.len() - i,
    {
        if !bytes_eq(a[i].as_slice(), b[i].as_slice()) {
            assert(keys_model(a@)[i as int] != keys_model(b@)[i as int]);
            return false;
        }
        i = i + 1;
    }
    assert(keys_model(a@) =~= keys_model(b@));
    true
}

impl Tables {
    /// Whether the tables keep every invariant of `well_formed`, as tables
    /// read back from disk must before they are used.
    pub fn check_well_formed(&self) -> (r: bool)
        ensures
            r == well_formed(self.model()),
    {
        let ghost m = self.model();
        // The index tables, recomputed from the records.
        let mut node_keys: Vec<Vec<u8>> = Vec::new();
        let mut i: usize = 0;
        while i < self.nodes.len()
            invariant
                i <= self.nodes@.len(),
                m == self.model(),
                node_keys@.len() == i,
                forall|j: int| 0 <= j < i ==> #[trigger] node_keys@[j]@ == node_entry(m.nodes[j]),
            decreases self.nodes@.len() - i,
        {
            node_keys.push(node_label_key(self.nodes[i].label.as_str(), self.nodes[i].id.as_str()));
            i = i + 1;
        }
        assert(keys_model(node_keys@) =~= Seq::new(m.nodes.len(), |i: int| node_entry(m.nodes[i])));
        let mut label_keys: Vec<Vec<u8>> = Vec::new();
        let mut out_keys: Vec<Vec<u8>> = Vec::new();
        let mut in_keys: Vec<Vec<u8>> = Vec::new();
        let mut k: usize = 0;
        while k < self.edges.len()
            invariant
                k <= self.edges@.len(),
                m == self.model(),
                label_keys@.len() == k,
                out_keys@.len() == k,
                in_keys@.len() == k,
                forall|j: int| 0 <= j < k ==> #[trigger] label_keys@[j]@ == label_entry(m.edges[j]),
                forall|j: int| 0 <= j < k ==> #[trigger] out_keys@[j]@ == out_entry(m.edges[j]),
                forall|j: int| 0 <= j < k ==> #[trigger] in_keys@[j]@ == in_entry(m.edges[j]),
            decreases self.edges@.len() - k,
        {
            let e = &self.edges[k];
            label_keys.push(edge_label_key(e.label.as_str(), e.id.as_str()));
            out_keys.push(out_edge_key(e.from_node.as_str(), e.id.as_str()));
            in_keys.push(in_edge_key(e.to_node.as_str(), e.id.as_str()));
            k = k + 1;
        }
        assert(keys_model(label_keys@) =~= Seq::new(m.edges.len(), |i: int| label_entry(m.edges[i])));
        assert(keys_model(out_keys@) =~= Seq::new(m.edges.len(), |i: int| out_entry(m.edges[i])));
        assert(keys_model(in_keys@) =~= Seq::new(m.edges.len(), |i: int| in_entry(m.edges[i])));
        if !same_keys(&self.node_labels, &node_keys) || !same_keys(&self.edge_labels, &label_keys)
            || !same_keys(&self.out_edges, &out_keys) || !same_keys(&self.in_edges, &in_keys) {
            return false;
        }
        // Node ids: no separator, no repeat.
        let mut a: usize = 0;
        while a < self.nodes.len()
            invariant
                a <= self.nodes@.len(),
                m == self.model(),
                forall|x: int| 0 <= x < a ==> separator_free(encode_utf8(#[trigger] m.nodes[x].id)),
                forall|x: int, y: int|
                    #![trigger m.nodes[x], m.nodes[y]]
                    0 <= x < a && 0 <= y < m.nodes.len() && x != y ==> encode_utf8(m.nodes[x].id)
                        != encode_utf8(m.nodes[y].id),
            decreases self.nodes@.len() - a,
        {
            let ida = self.nodes[a].id.as_str().as_bytes();
            if !no_separator(ida) {
                assert(!separator_free(encode_utf8(m.nodes[a as int].id)));
                return false;
            }
            let mut b: usize = 0;
            while b < self.nodes.len()
                invariant
                    a < self.nodes@.len(),
                    b <= self.nodes@.len(),
                    m == self.model(),
                    ida@ == encode_utf8(m.nodes[a as int].id),
                    forall|y: int|
                        0 <= y < b && y != a ==> encode_utf8(m.nodes[a as int].id) != encode_utf8(
                            #[trigger] m.nodes[y].id,
                        ),
                decreases self.nodes@.len() - b,
            {
                if b != a && bytes_eq(ida, self.nodes[b].id.as_str().as_bytes()) {
                    assert(m.nodes[b as int].id == self.nodes@[b as int].id@);
                    assert(encode_utf8(m.nodes[a as int].id) == encode_utf8(m.nodes[b as int].id));
                    assert(m.nodes[a as int] == m.nodes[a as int] && m.nodes[b as int]
                        == m.nodes[b as int]);
                    assert(!node_ids_unique(m.nodes));
                    return false;
                }
                b = b + 1;
            }
            assert forall|x: int, y: int|
                #![trigger m.nodes[x], m.nodes[y]]
                0 <= x < a + 1 && 0 <= y < m.nodes.len() && x != y implies encode_utf8(
                    m.nodes[x].id,
                ) != encode_utf8(m.nodes[y].id) by {
                if x == a {
                    assert(encode_utf8(m.nodes[a as int].id) != encode_utf8(m.nodes[y].id));
                }
            }
            a = a + 1;
        }
        // Edge ids: no separator, no repeat; endpoints stored.
        let mut a: usize = 0;
        while a < self.edges.len()
            invariant
                a <= self.edges@.len(),
                m == self.model(),
                forall|x: int| 0 <= x < a ==> separator_free(encode_utf8(#[trigger] m.edges[x].id)),
                forall|x: int|
                    0 <= x < a ==> find_node(m.nodes, encode_utf8(#[trigger] m.edges[x].from_node)) is Some
                        && find_node(m.nodes, encode_utf8(m.edges[x].to_node)) is Some,
                forall|x: int, y: int|
                    #![trigger m.edges[x], m.edges[y]]
                    0 <= x < a && 0 <= y < m.edges.len() && x != y ==> encode_utf8(m.edges[x].id)
                        != encode_utf8(m.edges[y].id),
            decreases self.edges@.len() - a,
        {
            let e = &self.edges[a];
            let ida = e.id.as_str().as_bytes();
            if !no_separator(ida) {
                assert(!separator_free(encode_utf8(m.edges[a as int].id)));
                return false;
            }
            if node_index(&self.nodes, e.from_node.as_str().as_bytes()).is_none() || node_index(
                &self.nodes,
                e.to_node.as_str().as_bytes(),
            ).is_none() {
                assert(m.edges[a as int] == e.model());
                assert(find_node(m.nodes, encode_utf8(m.edges[a as int].from_node)) is None
                    || find_node(m.nodes, encode_utf8(m.edges[a as int].to_node)) is None);
                return false;
            }
            let mut b: usize = 0;
            while b < self.edges.len()
                invariant
                    a < self.edges@.len(),
                    b <= self.edges@.len(),
                    m == self.model(),
                    ida@ == encode_utf8(m.edges[a as int].id),
                    forall|y: int|
                        0 <= y < b && y != a ==> encode_utf8(m.edges[a as int].id) != encode_utf8(
                            #[trigger] m.edges[y].id,
                        ),
                decreases self.edges@.len() - b,
            {
                if b != a && bytes_eq(ida, self.edges[b].id.as_str().as_bytes()) {
                    assert(m.edges[b as int].id == self.edges@[b as int].id@);
                    assert(encode_utf8(m.edges[a as int].id) == encode_utf8(m.edges[b as int].id));
                    assert(m.edges[a as int] == m.edges[a as int] && m.edges[b as int]
                        == m.edges[b as int]);
                    assert(!edge_ids_unique(m.edges));
                    return false;
                }
                b = b + 1;
            }
            assert forall|x: int, y: int|
                #![trigger m.edges[x], m.edges[y]]
                0 <= x < a + 1 && 0 <= y < m.edges.len() && x != y implies encode_utf8(
                    m.edges[x].id,
                ) != encode_utf8(m.edges[y].id) by {
                if x == a {
                    assert(encode_utf8(m.edges[a as int].id) != encode_utf8(m.edges[y].id));
                }
            }
            a = a + 1;
        }
        true
    }
}

// ---------------------------------------------------------------------------
// Transactions and the engine handle
// ---------------------------------------------------------------------------

/// A read transaction: a snapshot of the tables as they were committed when
/// it began.
pub struct RoTxn {
    pub tables: Tables,
}

/// A write transaction: a private working copy of the tables, published by
/// `HelixGraphStorage::commit` and dropped without trace otherwise. It
/// remembers the version of the store it began from.
pub struct RwTxn {
    pub txn: RoTxn,
    pub base: u64,
}

impl RoTxn {
    pub open spec fn model(&self) -> TablesModel {
        self.tables.model()
    }
}

impl RwTxn {
    pub open spec fn model(&self) -> TablesModel {
        self.txn.tables.model()
    }

    /// Reads through a write transaction see its own writes.
    pub fn read(&self) -> (r: &RoTxn)
        ensures
            r.model() == self.model(),
    {
        &self.txn
    }
}

/// The graph store. Writers work on copies and publish them whole on commit;
/// a read transaction keeps the snapshot it began with. `version` counts the
/// commits: of two writers begun from the same version only the first can
/// commit, the second fails fast with `TransactionBusy`.
pub struct HelixGraphStorage {
    pub path: String,
    pub committed: Tables,
    pub version: u64,
}

impl HelixGraphStorage {
    pub open spec fn model(&self) -> TablesModel {
        self.committed.model()
    }

    /// An empty store. `path` names the directory that the store is kept in
    /// on disk by whoever persists it; this constructor touches no file.
    pub fn new(path: &str) -> (r: Result<HelixGraphStorage, GraphError>)
        ensures
            r matches Ok(s) && s.model() == empty_model() && s.path@ == path@ && s.version == 0,
            r matches Ok(s) && well_formed(s.model()),
    {
        proof {
            crate::invariants::lemma_empty_well_formed();
        }
        Ok(HelixGraphStorage { path: path.to_owned(), committed: Tables::empty(), version: 0 })
    }

    /// A store for the directory `path` whose committed tables are `tables`.
    pub fn with_tables(path: &str, tables: Tables) -> (r: HelixGraphStorage)
        ensures
            r.model() == tables.model(),
            r.path@ == path@,
            r.version == 0,
    {
        HelixGraphStorage { path: path.to_owned(), committed: tables, version: 0 }
    }

    /// Begins a read transaction on the committed tables.
    pub fn read_txn(&self) -> (r: RoTxn)
        ensures
            r.model() == self.model(),
    {
        RoTxn { tables: self.committed.duplicate() }
    }

    /// Begins a write transaction on a copy of the committed tables.
    pub fn write_txn(&self) -> (r: RwTxn)
        ensures
            r.model() == self.model(),
            r.base == self.version,
    {
        RwTxn { txn: RoTxn { tables: self.committed.duplicate() }, base: self.version }
    }

    /// Publishes the tables of a write transaction, unless another writer
    /// committed since it began (or the commit count is exhausted); then it
    /// fails with `TransactionBusy` and the store is unchanged.
    pub fn commit(&mut self, txn: RwTxn) -> (r: Result<(), GraphError>)
        ensures
            final(self).path == old(self).path,
            if txn.base == old(self).version && old(self).version < u64::MAX {
                &&& r is Ok
                &&& final(self).model() == txn.model()
                &&& final(self).version == old(self).version + 1
            } else {
                &&& r matches Err(e) && e is TransactionBusy
                &&& final(self).model() == old(self).model()
                &&& final(self).version == old(self).version
            },
    {
        if txn.base != self.version || self.version == u64::MAX {
            return Err(GraphError::TransactionBusy);
        }
        self.committed = txn.txn.tables;
        self.version = self.version + 1;
        Ok(())
    }

    /// Whether a node with id `id` exists.
    pub fn check_exists(&self, txn: &RoTxn, id: &str) -> (r: Result<bool, GraphError>)
        ensures
            r == Ok::<bool, GraphError>(find_node(txn.model().nodes, encode_utf8(id@)) is Some),
    {
        let p = node_index(&txn.tables.nodes, id.as_bytes());
        Ok(p.is_some())
    }

    /// The node with id `id`.
    pub fn get_node(&self, txn: &RoTxn, id: &str) -> (r: Result<Node, GraphError>)
        ensures
            match r {
                Ok(n) => find_node(txn.model().nodes, encode_utf8(id@)) == Some(n.model()),
                Err(e) => find_node(txn.model().nodes, encode_utf8(id@)) is None
                    && e is NodeNotFound,
            },
    {
        match node_index(&txn.tables.nodes, id.as_bytes()) {
            Some(p) => Ok(txn.tables.nodes[p].duplicate()),
            None => Err(GraphError::NodeNotFound),
        }
    }

    /// The edge with id `id`.
    pub fn get_edge(&self, txn: &RoTxn, id: &str) -> (r: Result<Edge, GraphError>)
        ensures
            match r {
                Ok(e) => find_edge(txn.model().edges, encode_utf8(id@)) == Some(e.model()),
                Err(e) => find_edge(txn.model().edges, encode_utf8(id@)) is None
                    && e is EdgeNotFound,
            },
    {
        match edge_index(&txn.tables.edges, id.as_bytes()) {
            Some(p) => Ok(txn.tables.edges[p].duplicate()),
            None => Err(GraphError::EdgeNotFound),
        }
    }

    /// Every node, in key order.
    pub fn get_all_nodes(&self, txn: &RoTxn) -> (r: Result<Vec<Node>, GraphError>)
        ensures
            r matches Ok(ns) && nodes_model(ns@) == all_nodes(txn.model()),
    {
        let ns = &txn.tables.nodes;
        let mut ids: Vec<Vec<u8>> = Vec::new();
        let mut i: usize = 0;
        while i < ns.len()
            invariant
                i <= ns@.len(),
                ids@.len() == i,
                keys_model(ids@) == node_ids(nodes_model(ns@)).subrange(0, i as int),
            decreases ns@.len() - i,
        {
            let ghost before = keys_model(ids@);
            ids.push(copy_bytes(ns[i].id.as_str().as_bytes()));
            assert(nodes_model(ns@)[i as int].id == ns@[i as int].id@);
            assert(keys_model(ids@)[i as int] == node_ids(nodes_model(ns@))[i as int]);
            assert(keys_model(ids@) =~= node_ids(nodes_model(ns@)).subrange(0, i + 1));
            i = i + 1;
        }
        assert(node_ids(nodes_model(ns@)).subrange(0, i as int) =~= node_ids(nodes_model(ns@)));
        Ok(nodes_for_ids(&txn.tables, &sort_ids(&ids)))
    }

    /// Every edge, in key order.
    pub fn get_all_edges(&self, txn: &RoTxn) -> (r: Result<Vec<Edge>, GraphError>)
        ensures
            r matches Ok(es) && edges_model(es@) == all_edges(txn.model()),
    {
        let es = &txn.tables.edges;
        let mut ids: Vec<Vec<u8>> = Vec::new();
        let mut i: usize = 0;
        while i < es.len()
            invariant
                i <= es@.len(),
                ids@.len() == i,
                keys_model(ids@) == edge_ids(edges_model(es@)).subrange(0, i as int),
            decreases es@.len() - i,
        {
            ids.push(copy_bytes(es[i].id.as_str().as_bytes()));
            assert(edges_model(es@)[i as int].id == es@[i as int].id@);
            assert(keys_model(ids@)[i as int] == edge_ids(edges_model(es@))[i as int]);
            assert(keys_model(ids@) =~= edge_ids(edges_model(es@)).subrange(0, i + 1));
            i = i + 1;
        }
        assert(edge_ids(edges_model(es@)).subrange(0, i as int) =~= edge_ids(edges_model(es@)));
        let any_label = String::new();
        Ok(edges_for_ids(&txn.tables, &sort_ids(&ids), &any_label))
    }

    /// The edges leaving `node_id` whose label is `edge_label` (any label
    /// when it is empty), in index order.
    pub fn get_out_edges(&self, txn: &RoTxn, node_id: &str, edge_label: &str) -> (r: Result<
        Vec<Edge>,
        GraphError,
    >)
        ensures
            r matches Ok(es) && edges_model(es@) == adjacent_edges(
                txn.model(),
                node_id@,
                edge_label@,
                true,
            ),
    {
        let prefix = prefix_of(node_id, true);
        let ids = sort_ids(&scan_ids(&txn.tables.out_edges, prefix.as_slice()));
        Ok(edges_for_ids(&txn.tables, &ids, &edge_label.to_owned()))
    }

    /// The edges entering `node_id` whose label is `edge_label` (any label
    /// when it is empty), in index order.
    pub fn get_in_edges(&self, txn: &RoTxn, node_id: &str, edge_label: &str) -> (r: Result<
        Vec<Edge>,
        GraphError,
    >)
        ensures
            r matches Ok(es) && edges_model(es@) == adjacent_edges(
                txn.model(),
                node_id@,
                edge_label@,
                false,
            ),
    {
        let prefix = prefix_of(node_id, false);
        let ids = sort_ids(&scan_ids(&txn.tables.in_edges, prefix.as_slice()));
        Ok(edges_for_ids(&txn.tables, &ids, &edge_label.to_owned()))
    }

    /// The sink of each matching out-edge of `node_id`; dangling sinks are
    /// passed over.
    pub fn get_out_nodes(&self, txn: &RoTxn, node_id: &str, edge_label: &str) -> (r: Result<
        Vec<Node>,
        GraphError,
    >)
        ensures
            r matches Ok(ns) && nodes_model(ns@) == adjacent_nodes(
                txn.model(),
                node_id@,
                edge_label@,
                true,
            ),
    {
        let prefix = prefix_of(node_id, true);
        let ids = sort_ids(&scan_ids(&txn.tables.out_edges, prefix.as_slice()));
        Ok(ends_for_ids(&txn.tables, &ids, &edge_label.to_owned(), true))
    }

    /// The source of each matching in-edge of `node_id`; dangling sources
    /// are passed over.
    pub fn get_in_nodes(&self, txn: &RoTxn, node_id: &str, edge_label: &str) -> (r: Result<
        Vec<Node>,
        GraphError,
    >)
        ensures
            r matches Ok(ns) && nodes_model(ns@) == adjacent_nodes(
                txn.model(),
                node_id@,
                edge_label@,
                false,
            ),
    {
        let prefix = prefix_of(node_id, false);
        let ids = sort_ids(&scan_ids(&txn.tables.in_edges, prefix.as_slice()));
        Ok(ends_for_ids(&txn.tables, &ids, &edge_label.to_owned(), false))
    }

    /// The nodes whose label is one of `types`, label by label, each in id
    /// order. Fails with `NodeNotFound` exactly when a scanned label entry
    /// names no stored node.
    pub fn get_nodes_by_types(&self, txn: &RoTxn, types: &Vec<String>) -> (r: Result<
        Vec<Node>,
        GraphError,
    >)
        ensures
            ({
                let lm = Seq::new(types@.len(), |i: int| types@[i]@);
                if labels_resolve(txn.model(), lm) {
                    r matches Ok(ns) && nodes_model(ns@) == nodes_of_labels(txn.model(), lm)
                } else {
                    r matches Err(e) && e is NodeNotFound
                }
            }),
    {
        let ghost lm = Seq::new(types@.len(), |i: int| types@[i]@);
        let mut out: Vec<Node> = Vec::new();
        let mut i: usize = 0;
        assert(nodes_model(out@) =~= Seq::<NodeModel>::empty());
        assert(lm.subrange(0, 0) =~= Seq::<Seq<char>>::empty());
        while i < types.len()
            invariant
                i <= types.len(),
                lm == Seq::new(types@.len(), |i: int| types@[i]@),
                nodes_model(out@) == nodes_of_labels(txn.model(), lm.subrange(0, i as int)),
                forall|k: int|
                    0 <= k < i ==> all_resolve(label_ids(txn.model(), #[trigger] lm[k]), txn.model().nodes),
            decreases types.len() - i,
        {
            assert(lm.subrange(0, i + 1).drop_last() =~= lm.subrange(0, i as int));
            let prefix = node_label_prefix(types[i].as_str());
            let ids = sort_ids(&scan_ids(&txn.tables.node_labels, prefix.as_slice()));
            assert(keys_model(ids@) == label_ids(txn.model(), lm[i as int]));
            let mut found = match nodes_for_ids_strict(&txn.tables, &ids) {
                Some(found) => found,
                None => {
                    assert(!labels_resolve(txn.model(), lm));
                    return Err(GraphError::NodeNotFound);
                },
            };
            let ghost before = out@;
            let ghost fm = found@;
            out.append(&mut found);
            assert(nodes_model(out@) =~= nodes_model(before) + nodes_model(fm));
            i = i + 1;
        }
        assert(lm.subrange(0, i as int) =~= lm);
        Ok(out)
    }

    /// A node record with a fresh id; nothing is stored.
    pub fn new_node(label: &str, properties: Vec<(String, Value)>) -> (r: Node)
        ensures
            is_generated_id(r.id@),
            r.label@ == label@,
            r.model().properties == props_merge(Seq::empty(), props_model(properties@)),
    {
        Node { id: fresh_id(), label: label.to_owned(), properties: props_from_pairs(properties) }
    }

    /// An edge record with a fresh id; nothing is stored.
    pub fn new_edge(
        label: &str,
        from_node: &str,
        to_node: &str,
        properties: Vec<(String, Value)>,
    ) -> (r: Edge)
        ensures
            is_generated_id(r.id@),
            r.label@ == label@,
            r.from_node@ == from_node@,
            r.to_node@ == to_node@,
            r.model().properties == props_merge(Seq::empty(), props_model(properties@)),
    {
        Edge {
            id: fresh_id(),
            label: label.to_owned(),
            from_node: from_node.to_owned(),
            to_node: to_node.to_owned(),
            properties: props_from_pairs(properties),
        }
    }

    /// Stores node `id` with its label-index entry, unless a node with that
    /// id exists.
    pub fn insert_node(
        &self,
        txn: &mut RwTxn,
        id: String,
        label: &str,
        properties: Vec<(String, Value)>,
    ) -> (r: Result<Node, GraphError>)
        ensures
            final(txn).base == old(txn).base,
            match r {
                Ok(n) => {
                    &&& find_node(old(txn).model().nodes, encode_utf8(id@)) is None
                    &&& n.id@ == id@
                    &&& n.label@ == label@
                    &&& n.model().properties == props_merge(
                        Seq::empty(),
                        props_model(properties@),
                    )
                    &&& final(txn).model() == add_node(old(txn).model(), n.model())
                    &&& find_node(final(txn).model().nodes, encode_utf8(id@)) == Some(n.model())
                    &&& forall|idb: Seq<u8>|
                        #[trigger] find_node(old(txn).model().nodes, idb) is Some ==> find_node(
                            final(txn).model().nodes,
                            idb,
                        ) == find_node(old(txn).model().nodes, idb)
                },
                Err(e) => {
                    &&& find_node(old(txn).model().nodes, encode_utf8(id@)) is Some
                    &&& e is DuplicateId
                    &&& final(txn).model() == old(txn).model()
                },
            },
            (well_formed(old(txn).model()) && separator_free(encode_utf8(id@))) ==> well_formed(
                final(txn).model(),
            ),
    {
        if node_index(&txn.txn.tables.nodes, id.as_str().as_bytes()).is_some() {
            return Err(GraphError::DuplicateId);
        }
        let node = Node { id, label: label.to_owned(), properties: props_from_pairs(properties) };
        let key = node_label_key(node.label.as_str(), node.id.as_str());
        let ghost m = txn.model();
        txn.txn.tables.nodes.push(node.duplicate());
        txn.txn.tables.node_labels.push(key);
        assert(txn.model().nodes =~= add_node(m, node.model()).nodes);
        assert(txn.model().node_labels =~= add_node(m, node.model()).node_labels);
        proof {
            if well_formed(m) && separator_free(encode_utf8(node.id@)) {
                crate::invariants::lemma_add_node_well_formed(m, node.model());
            }
            crate::invariants::lemma_node_push(m.nodes, node.model());
        }
        Ok(node)
    }

    /// Stores a new node under a fresh random id, and its label-index entry.
    /// Fails with `DuplicateId` only when the drawn id is taken, so never
    /// while no stored node has an id of the generated shape.
    pub fn create_node(&self, txn: &mut RwTxn, label: &str, properties: Vec<(String, Value)>) -> (r:
        Result<Node, GraphError>)
        ensures
            final(txn).base == old(txn).base,
            match r {
                Ok(n) => {
                    &&& is_generated_id(n.id@)
                    &&& n.label@ == label@
                    &&& n.model().properties == props_merge(
                        Seq::empty(),
                        props_model(properties@),
                    )
                    &&& find_node(old(txn).model().nodes, encode_utf8(n.id@)) is None
                    &&& final(txn).model() == add_node(old(txn).model(), n.model())
                    &&& find_node(final(txn).model().nodes, encode_utf8(n.id@)) == Some(n.model())
                    &&& forall|idb: Seq<u8>|
                        #[trigger] find_node(old(txn).model().nodes, idb) is Some ==> find_node(
                            final(txn).model().nodes,
                            idb,
                        ) == find_node(old(txn).model().nodes, idb)
                },
                Err(e) => {
                    &&& e is DuplicateId
                    &&& final(txn).model() == old(txn).model()
                    &&& exists|j: int|
                        0 <= j < old(txn).model().nodes.len() && is_generated_id(
                            (#[trigger] old(txn).model().nodes[j]).id,
                        )
                },
            },
            well_formed(old(txn).model()) ==> well_formed(final(txn).model()),
    {
        let id = fresh_id();
        let ghost idv = id@;
        proof {
            crate::invariants::lemma_generated_id_separator_free(id@);
        }
        let r = self.insert_node(txn, id, label, properties);
        proof {
            if r is Err {
                crate::invariants::lemma_found_node_id(old(txn).model().nodes, idv);
            }
        }
        r
    }

    /// Stores edge `id` from `from_node` to `to_node`, with its label-index
    /// entry and both adjacency entries. Both endpoints must exist and the id
    /// must be free.
    pub fn insert_edge(
        &self,
        txn: &mut RwTxn,
        id: String,
        label: &str,
        from_node: &str,
        to_node: &str,
        properties: Vec<(String, Value)>,
    ) -> (r: Result<Edge, GraphError>)
        ensures
            final(txn).base == old(txn).base,
            match r {
                Ok(e) => {
                    &&& find_node(old(txn).model().nodes, encode_utf8(from_node@)) is Some
                    &&& find_node(old(txn).model().nodes, encode_utf8(to_node@)) is Some
                    &&& find_edge(old(txn).model().edges, encode_utf8(id@)) is None
                    &&& e.id@ == id@
                    &&& e.label@ == label@
                    &&& e.from_node@ == from_node@
                    &&& e.to_node@ == to_node@
                    &&& e.model().properties == props_merge(
                        Seq::empty(),
                        props_model(properties@),
                    )
                    &&& final(txn).model() == add_edge(old(txn).model(), e.model())
                    &&& find_edge(final(txn).model().edges, encode_utf8(e.id@)) == Some(e.model())
                    &&& forall|idb: Seq<u8>|
                        #[trigger] find_edge(old(txn).model().edges, idb) is Some ==> find_edge(
                            final(txn).model().edges,
                            idb,
                        ) == find_edge(old(txn).model().edges, idb)
                },
                Err(err) => {
                    &&& final(txn).model() == old(txn).model()
                    &&& (err is NodeNotFound <==> (find_node(
                        old(txn).model().nodes,
                        encode_utf8(from_node@),
                    ) is None || find_node(old(txn).model().nodes, encode_utf8(to_node@)) is None))
                    &&& (err is DuplicateId <==> (!(err is NodeNotFound) && find_edge(
                        old(txn).model().edges,
                        encode_utf8(id@),
                    ) is Some))
                    &&& (err is NodeNotFound || err is DuplicateId)
                },
            },
            (well_formed(old(txn).model()) && separator_free(encode_utf8(id@))) ==> well_formed(
                final(txn).model(),
            ),
    {
        if node_index(&txn.txn.tables.nodes, from_node.as_bytes()).is_none() || node_index(
            &txn.txn.tables.nodes,
            to_node.as_bytes(),
        ).is_none() {
            return Err(GraphError::NodeNotFound);
        }
        if edge_index(&txn.txn.tables.edges, id.as_str().as_bytes()).is_some() {
            return Err(GraphError::DuplicateId);
        }
        let edge = Edge {
            id,
            label: label.to_owned(),
            from_node: from_node.to_owned(),
            to_node: to_node.to_owned(),
            properties: props_from_pairs(properties),
        };
        let label_key = edge_label_key(edge.label.as_str(), edge.id.as_str());
        let out_key = out_edge_key(edge.from_node.as_str(), edge.id.as_str());
        let in_key = in_edge_key(edge.to_node.as_str(), edge.id.as_str());
        let ghost m = txn.model();
        txn.txn.tables.edges.push(edge.duplicate());
        txn.txn.tables.edge_labels.push(label_key);
        txn.txn.tables.out_edges.push(out_key);
        txn.txn.tables.in_edges.push(in_key);
        assert(txn.model().edges =~= add_edge(m, edge.model()).edges);
        assert(txn.model().edge_labels =~= add_edge(m, edge.model()).edge_labels);
        assert(txn.model().out_edges =~= add_edge(m, edge.model()).out_edges);
        assert(txn.model().in_edges =~= add_edge(m, edge.model()).in_edges);
        proof {
            if well_formed(m) && separator_free(encode_utf8(edge.id@)) {
                crate::invariants::lemma_add_edge_well_formed(m, edge.model());
            }
            crate::invariants::lemma_edge_push(m.edges, edge.model());
        }
        Ok(edge)
    }

    /// Stores a new edge under a fresh random id, with its label-index entry
    /// and both adjacency entries. Fails with `NodeNotFound` exactly when an
    /// endpoint is missing, and with `DuplicateId` only when the drawn id is
    /// taken, so never while no stored edge has an id of the generated shape.
    pub fn create_edge(
        &self,
        txn: &mut RwTxn,
        label: &str,
        from_node: &str,
        to_node: &str,
        properties: Vec<(String, Value)>,
    ) -> (r: Result<Edge, GraphError>)
        ensures
            final(txn).base == old(txn).base,
            match r {
                Ok(e) => {
                    &&& find_node(old(txn).model().nodes, encode_utf8(from_node@)) is Some
                    &&& find_node(old(txn).model().nodes, encode_utf8(to_node@)) is Some
                    &&& is_generated_id(e.id@)
                    &&& e.label@ == label@
                    &&& e.from_node@ == from_node@
                    &&& e.to_node@ == to_node@
                    &&& e.model().properties == props_merge(
                        Seq::empty(),
                        props_model(properties@),
                    )
                    &&& find_edge(old(txn).model().edges, encode_utf8(e.id@)) is None
                    &&& final(txn).model() == add_edge(old(txn).model(), e.model())
                    &&& find_edge(final(txn).model().edges, encode_utf8(e.id@)) == Some(e.model())
                    &&& forall|idb: Seq<u8>|
                        #[trigger] find_edge(old(txn).model().edges, idb) is Some ==> find_edge(
                            final(txn).model().edges,
                            idb,
                        ) == find_edge(old(txn).model().edges, idb)
                },
                Err(err) => {
                    &&& final(txn).model() == old(txn).model()
                    &&& (err is NodeNotFound <==> (find_node(
                        old(txn).model().nodes,
                        encode_utf8(from_node@),
                    ) is None || find_node(old(txn).model().nodes, encode_utf8(to_node@)) is None))
                    &&& (err is NodeNotFound || err is DuplicateId)
                    &&& err is DuplicateId ==> exists|j: int|
                        0 <= j < old(txn).model().edges.len() && is_generated_id(
                            (#[trigger] old(txn).model().edges[j]).id,
                        )
                },
            },
            well_formed(old(txn).model()) ==> well_formed(final(txn).model()),
    {
        let id = fresh_id();
        let ghost idv = id@;
        proof {
            crate::invariants::lemma_generated_id_separator_free(id@);
        }
        let r = self.insert_edge(txn, id, label, from_node, to_node, properties);
        proof {
            if r is Err && r->Err_0 is DuplicateId {
                crate::invariants::lemma_found_edge_id(old(txn).model().edges, idv);
            }
        }
        r
    }

    /// Merges `props` into the properties of node `id`, each key set or
    /// overwritten; the id, the label and every index entry stay as they are.
    pub fn update_node_props(&self, txn: &mut RwTxn, id: &str, props: Vec<(String, Value)>) -> (r:
        Result<Node, GraphError>)
        ensures
            final(txn).base == old(txn).base,
            match update_node_effect(old(txn).model(), encode_utf8(id@), props_model(props@)) {
                Some(m2) => r matches Ok(u) && final(txn).model() == m2 && u.model() == merged_node(
                    find_node(old(txn).model().nodes, encode_utf8(id@))->0,
                    props_model(props@),
                ),
                None => r matches Err(e) && e is NodeNotFound && final(txn).model() == old(
                    txn,
                ).model(),
            },
            well_formed(old(txn).model()) ==> well_formed(final(txn).model()),
    {
        let p = match node_index(&txn.txn.tables.nodes, id.as_bytes()) {
            Some(p) => p,
            None => return Err(GraphError::NodeNotFound),
        };
        let ghost m = txn.model();
        let mut node = txn.txn.tables.nodes[p].duplicate();
        merge_props(&mut node.properties, props);
        let ghost u = node.model();
        txn.txn.tables.nodes.set(p, node.duplicate());
        proof {
            assert(txn.model().nodes =~= m.nodes.update(p as int, u));
            assert(txn.model().node_labels == m.node_labels);
            if well_formed(m) {
                crate::invariants::lemma_update_node_well_formed(m, p as int, u);
            }
        }
        Ok(node)
    }

    /// Merges `props` into the properties of edge `id`, each key set or
    /// overwritten; the id, the label, the endpoints and every index entry
    /// stay as they are.
    pub fn update_edge_props(&self, txn: &mut RwTxn, id: &str, props: Vec<(String, Value)>) -> (r:
        Result<Edge, GraphError>)
        ensures
            final(txn).base == old(txn).base,
            match update_edge_effect(old(txn).model(), encode_utf8(id@), props_model(props@)) {
                Some(m2) => r matches Ok(u) && final(txn).model() == m2 && u.model() == merged_edge(
                    find_edge(old(txn).model().edges, encode_utf8(id@))->0,
                    props_model(props@),
                ),
                None => r matches Err(e) && e is EdgeNotFound && final(txn).model() == old(
                    txn,
                ).model(),
            },
            well_formed(old(txn).model()) ==> well_formed(final(txn).model()),
    {
        let p = match edge_index(&txn.txn.tables.edges, id.as_bytes()) {
            Some(p) => p,
            None => return Err(GraphError::EdgeNotFound),
        };
        let ghost m = txn.model();
        let mut edge = txn.txn.tables.edges[p].duplicate();
        merge_props(&mut edge.properties, props);
        let ghost u = edge.model();
        txn.txn.tables.edges.set(p, edge.duplicate());
        proof {
            assert(txn.model().edges =~= m.edges.update(p as int, u));
            if well_formed(m) {
                crate::invariants::lemma_update_edge_well_formed(m, p as int, u);
            }
        }
        Ok(edge)
    }

    /// Removes an edge: its record, its label entry and both adjacency entries.
    pub fn drop_edge(&self, txn: &mut RwTxn, edge_id: &str) -> (r: Result<(), GraphError>)
        ensures
            final(txn).base == old(txn).base,
            match find_edge(old(txn).model().edges, encode_utf8(edge_id@)) {
                Some(e) => r is Ok && final(txn).model() == unlink_edge(old(txn).model(), e),
                None => r matches Err(err) && err is EdgeNotFound && final(txn).model() == old(
                    txn,
                ).model(),
            },
            well_formed(old(txn).model()) ==> well_formed(final(txn).model()),
    {
        match edge_index(&txn.txn.tables.edges, edge_id.as_bytes()) {
            Some(p) => {
                let e = txn.txn.tables.edges[p].duplicate();
                proof {
                    if well_formed(txn.model()) {
                        crate::invariants::lemma_drop_edge_well_formed(
                            txn.model(),
                            encode_utf8(edge_id@),
                            e.model(),
                        );
                    }
                }
                unlink(&mut txn.txn.tables, &e);
                Ok(())
            },
            None => Err(GraphError::EdgeNotFound),
        }
    }

    /// Removes a node, cascading to every edge listed under it in either
    /// adjacency index, then its record and its label entry.
    pub fn drop_node(&self, txn: &mut RwTxn, id: &str) -> (r: Result<(), GraphError>)
        ensures
            final(txn).base == old(txn).base,
            match find_node(old(txn).model().nodes, encode_utf8(id@)) {
                Some(n) => r is Ok && final(txn).model() == drop_node_effect(
                    old(txn).model(),
                    id@,
                    n,
                ),
                None => r matches Err(err) && err is NodeNotFound && final(txn).model() == old(
                    txn,
                ).model(),
            },
            well_formed(old(txn).model()) ==> {
                &&& well_formed(final(txn).model())
                &&& find_node(final(txn).model().nodes, encode_utf8(id@)) is None
                &&& forall|q: int|
                    0 <= q < final(txn).model().edges.len() ==> encode_utf8(
                        (#[trigger] final(txn).model().edges[q]).from_node,
                    ) != encode_utf8(id@) && encode_utf8(final(txn).model().edges[q].to_node)
                        != encode_utf8(id@)
            },
    {
        let p = match node_index(&txn.txn.tables.nodes, id.as_bytes()) {
            Some(p) => p,
            None => return Err(GraphError::NodeNotFound),
        };
        let node = txn.txn.tables.nodes[p].duplicate();
        let ghost m0 = txn.model();
        proof {
            if well_formed(m0) {
                crate::invariants::lemma_drop_node_well_formed(m0, id@, node.model());
            }
        }
        let any_label = String::new();
        let out_ids = sort_ids(&scan_ids(&txn.txn.tables.out_edges, prefix_of(id, true).as_slice()));
        let mut incident = edges_for_ids(&txn.txn.tables, &out_ids, &any_label);
        let in_ids = sort_ids(&scan_ids(&txn.txn.tables.in_edges, prefix_of(id, false).as_slice()));
        let mut incoming = edges_for_ids(&txn.txn.tables, &in_ids, &any_label);
        let ghost outm = edges_model(incident@);
        let ghost inm = edges_model(incoming@);
        incident.append(&mut incoming);
        let ghost cm = incident_edges(m0, id@);
        assert(edges_model(incident@) =~= outm + inm);
        assert(edges_model(incident@) == cm);
        let mut i: usize = 0;
        assert(cm.subrange(0, 0) =~= Seq::<EdgeModel>::empty());
        while i < incident.len()
            invariant
                i <= incident.len(),
                cm == edges_model(incident@),
                txn.model() == unlink_edges(m0, cm.subrange(0, i as int)),
                txn.base == old(txn).base,
            decreases incident.len() - i,
        {
            assert(cm.subrange(0, i + 1).drop_last() =~= cm.subrange(0, i as int));
            unlink(&mut txn.txn.tables, &incident[i]);
            i = i + 1;
        }
        assert(cm.subrange(0, i as int) =~= cm);
        let label_key = node_label_key(node.label.as_str(), id);
        remove_node_records(&mut txn.txn.tables.nodes, id.as_bytes());
        remove_key(&mut txn.txn.tables.node_labels, label_key.as_slice());
        Ok(())
    }

    /// A shortest directed path from `from_id` to `to_id`, found by a
    /// breadth-first search over out-edges in key order; see `path_found`
    /// and `path_failure`. Equal ids give the node alone and no edge.
    pub fn shortest_path(&self, txn: &RoTxn, from_id: &str, to_id: &str) -> (r: Result<
        (Vec<Node>, Vec<Edge>),
        GraphError,
    >)
        ensures
            match r {
                Ok((ns, es)) => path_found(
                    txn.model(),
                    encode_utf8(from_id@),
                    encode_utf8(to_id@),
                    nodes_model(ns@),
                    edges_model(es@),
                ),
                Err(e) => path_failure(txn.model(), encode_utf8(from_id@), encode_utf8(to_id@), e),
            },
    {
        let t = &txn.tables;
        let ghost m = t.model();
        let ghost fb = encode_utf8(from_id@);
        let target = to_id.as_bytes();
        if bytes_eq(from_id.as_bytes(), target) {
            let start = self.get_node(txn, from_id)?;
            let mut ns: Vec<Node> = Vec::new();
            ns.push(start);
            let es: Vec<Edge> = Vec::new();
            assert(edges_model(es@) =~= Seq::<EdgeModel>::empty());
            assert(nodes_model(ns@).last() == ns@[0].model());
            return Ok((ns, es));
        }
        let mut ids: Vec<Vec<u8>> = Vec::new();
        ids.push(copy_bytes(from_id.as_bytes()));
        let mut par: Vec<usize> = Vec::new();
        let mut via: Vec<Edge> = Vec::new();
        let ghost mut dep: Seq<nat> = seq![0nat];
        let any_label = String::new();
        let bound = t.edges.len();
        let mut head: usize = 0;
        assert(keys_model(ids@) =~= seq![fb]);
        while head < ids.len()
            invariant
                m == t.model(),
                m == txn.model(),
                search_tree(m, keys_model(ids@), par@, edges_model(via@), fb),
                layered(par@, dep),
                all_distinct(keys_model(ids@)),
                forall|j: int| 0 <= j < ids@.len() ==> keys_model(ids@)[j] != target@,
                head <= ids@.len() <= bound + 1,
                head < ids@.len() ==> forall|j: int|
                    0 <= j < dep.len() ==> #[trigger] dep[j] <= dep[head as int] + 1,
                bound == t.edges@.len(),
                target@ == encode_utf8(to_id@),
                fb == encode_utf8(from_id@),
                fb != target@,
                any_label@ == Seq::<char>::empty(),
                well_formed(m) ==> closed_upto(m, keys_model(ids@), dep, head as int),
            decreases bound + 1 - head,
        {
            let prefix = out_prefix_of_bytes(ids[head].as_slice());
            let found = sort_ids(&scan_ids(&t.out_edges, prefix.as_slice()));
            let candidates = edges_for_ids(t, &found, &any_label);
            let ghost here = keys_model(ids@)[head as int];
            let ghost level = dep[head as int];
            proof {
                lemma_resolved_edges_stored(keys_model(found@), m.edges, any_label@);
                assert forall|i: int| 0 <= i < candidates@.len() implies m.edges.contains(
                    #[trigger] candidates@[i].model(),
                ) by {
                    assert(edges_model(candidates@)[i] == candidates@[i].model());
                }
            }
            let mut c: usize = 0;
            while c < candidates.len()
                invariant
                    m == t.model(),
                    m == txn.model(),
                    search_tree(m, keys_model(ids@), par@, edges_model(via@), fb),
                    layered(par@, dep),
                    all_distinct(keys_model(ids@)),
                    forall|j: int| 0 <= j < ids@.len() ==> keys_model(ids@)[j] != target@,
                    head < ids@.len() <= bound + 1,
                    here == keys_model(ids@)[head as int],
                    level == dep[head as int],
                    forall|j: int| 0 <= j < dep.len() ==> #[trigger] dep[j] <= level + 1,
                    bound == t.edges@.len(),
                    target@ == encode_utf8(to_id@),
                    fb == encode_utf8(from_id@),
                    fb != target@,
                    well_formed(m) ==> closed_upto(m, keys_model(ids@), dep, head as int),
                    forall|i: int|
                        0 <= i < candidates@.len() ==> m.edges.contains(
                            #[trigger] candidates@[i].model(),
                        ),
                    forall|i: int|
                        0 <= i < c && encode_utf8(candidates@[i].model().from_node) == here
                            ==> exists|w: int|
                            0 <= w < keys_model(ids@).len() && #[trigger] keys_model(ids@)[w]
                                == encode_utf8(candidates@[i].model().to_node) && dep[w] <= level
                                + 1,
                decreases candidates.len() - c,
            {
                let e = &candidates[c];
                let to_bytes = e.to_node.as_str().as_bytes();
                if bytes_eq(e.from_node.as_str().as_bytes(), ids[head].as_slice()) {
                    if !contains_bytes(&ids, to_bytes) {
                        let ghost im0 = keys_model(ids@);
                        let ghost vm0 = edges_model(via@);
                        let ghost pm0 = par@;
                        let ghost dep0 = dep;
                        proof {
                            assert(!im0.contains(to_bytes@));
                            lemma_tree_bound(m, im0, pm0, vm0, fb, e.model());
                        }
                        ids.push(copy_bytes(to_bytes));
                        par.push(head);
                        via.push(e.duplicate());
                        proof {
                            dep = dep0.push(level + 1);
                            let im = keys_model(ids@);
                            let vm = edges_model(via@);
                            assert(im =~= im0.push(to_bytes@));
                            assert(vm =~= vm0.push(e.model()));
                            assert(par@ =~= pm0.push(head));
                            assert forall|j: int| 0 <= j < par@.len() implies {
                                &&& #[trigger] par@[j] <= j
                                &&& encode_utf8(vm[j].from_node) == im[par@[j] as int]
                                &&& encode_utf8(vm[j].to_node) == im[j + 1]
                                &&& m.edges.contains(vm[j])
                            } by {
                                if j < pm0.len() {
                                    assert(par@[j] == pm0[j]);
                                    assert(vm[j] == vm0[j]);
                                }
                            }
                            assert forall|j: int| 0 <= j < par@.len() implies #[trigger] dep[j + 1]
                                == dep[par@[j] as int] + 1 by {
                                if j < pm0.len() {
                                    assert(par@[j] == pm0[j]);
                                    assert(dep[j + 1] == dep0[j + 1]);
                                    assert(dep[pm0[j] as int] == dep0[pm0[j] as int]);
                                }
                            }
                            assert forall|a: int, b: int| 0 <= a <= b < dep.len() implies #[trigger] dep[a]
                                <= #[trigger] dep[b] by {
                                if b < dep0.len() {
                                    assert(dep[a] == dep0[a] && dep[b] == dep0[b]);
                                } else if a < dep0.len() {
                                    assert(dep[a] == dep0[a]);
                                    assert(dep0[a] <= level + 1);
                                }
                            }
                            assert(all_distinct(im)) by {
                                assert forall|a: int, b: int|
                                    0 <= a < im.len() && 0 <= b < im.len() && a != b implies #[trigger] im[a]
                                        != #[trigger] im[b] by {
                                    if a < im0.len() && b < im0.len() {
                                    } else if a < im0.len() {
                                        assert(im0[a] == im[a]);
                                    } else {
                                        assert(im0[b] == im[b]);
                                    }
                                }
                            }
                            if well_formed(m) {
                                lemma_closed_grows(m, im0, dep0, to_bytes@, level + 1, head as int);
                            }
                            assert forall|i: int|
                                0 <= i < c + 1 && encode_utf8(candidates@[i].model().from_node)
                                    == here implies exists|w: int|
                                0 <= w < im.len() && #[trigger] im[w] == encode_utf8(
                                    candidates@[i].model().to_node,
                                ) && dep[w] <= level + 1 by {
                                if i < c {
                                    let w = choose|w: int|
                                        0 <= w < im0.len() && #[trigger] im0[w] == encode_utf8(
                                            candidates@[i].model().to_node,
                                        ) && dep0[w] <= level + 1;
                                    assert(im[w] == im0[w] && dep[w] == dep0[w]);
                                } else {
                                    assert(im[im.len() - 1] == to_bytes@);
                                    assert(dep[im.len() - 1] == level + 1);
                                }
                            }
                            assert forall|j: int| 0 <= j < dep.len() implies #[trigger] dep[j]
                                <= level + 1 by {
                                if j < dep0.len() {
                                    assert(dep[j] == dep0[j]);
                                }
                            }
                        }
                        if bytes_eq(to_bytes, target) {
                            let k = ids.len() - 1;
                            assert(ids@[k as int]@ == target@);
                            let path = walk_back(
                                &ids,
                                &par,
                                &via,
                                k,
                                Ghost(m),
                                Ghost(fb),
                                Ghost(dep),
                            );
                            proof {
                                if well_formed(m) {
                                    assert forall|p: Seq<EdgeModel>|
                                        is_path(m, p, fb, target@) implies p.len() >= path@.len() by {
                                        lemma_no_shorter_path(m, im0, dep0, head as int, p, fb, target@);
                                    }
                                }
                            }
                            proof {
                                if well_formed(m) {
                                    let em = edges_model(path@);
                                    assert forall|i: int| 0 <= i < path@.len() implies find_node(
                                        m.nodes,
                                        encode_utf8(#[trigger] path@[i].model().to_node),
                                    ) is Some by {
                                        assert(em[i] == path@[i].model());
                                        assert(m.edges.contains(em[i]));
                                        let q = choose|q: int| 0 <= q < m.edges.len() && m.edges[q] == em[i];
                                        assert(find_node(m.nodes, encode_utf8(m.edges[q].to_node)) is Some);
                                    }
                                    let l = em.len() - 1;
                                    assert(m.edges.contains(em[l]));
                                    let q = choose|q: int| 0 <= q < m.edges.len() && m.edges[q] == em[l];
                                    assert(find_node(m.nodes, encode_utf8(m.edges[q].from_node)) is Some);
                                }
                            }
                            let nodes = self.path_nodes(txn, &path, from_id);
                            return match nodes {
                                Ok(ns) => Ok((ns, path)),
                                Err(err) => Err(err),
                            };
                        }
                        proof {
                            let im = keys_model(ids@);
                            assert forall|j: int| 0 <= j < im.len() implies im[j] != target@ by {
                                if j < im0.len() {
                                    assert(im[j] == im0[j]);
                                }
                            }
                        }
                    } else {
                        proof {
                            let im = keys_model(ids@);
                            let w = choose|w: int| 0 <= w < ids@.len() && ids@[w]@ == to_bytes@;
                            assert(im[w] == to_bytes@);
                            assert(dep[w] <= level + 1);
                        }
                    }
                }
                c = c + 1;
            }
            proof {
                let im = keys_model(ids@);
                if well_formed(m) {
                    assert forall|i: int|
                        0 <= i < m.edges.len() && encode_utf8(m.edges[i].from_node) == im[head as int]
                            implies exists|w: int|
                        0 <= w < im.len() && #[trigger] im[w] == encode_utf8(
                            #[trigger] m.edges[i].to_node,
                        ) && dep[w] <= dep[head as int] + 1 by {
                        lemma_edge_listed_bytes(m, i, here);
                        let q = choose|q: int|
                            0 <= q < edges_model(candidates@).len() && edges_model(candidates@)[q]
                                == m.edges[i];
                        assert(candidates@[q].model() == m.edges[i]);
                    }
                    lemma_closed_step(m, im, dep, head as int);
                }
                if head + 1 < ids@.len() {
                    assert(dep[head as int] <= dep[head + 1]);
                }
            }
            head = head + 1;
        }
        proof {
            if well_formed(m) {
                assert(keys_model(ids@)[0] == fb);
                assert(!keys_model(ids@).contains(target@));
                lemma_closed_unreachable(m, keys_model(ids@), dep, fb, target@);
            }
        }
        Err(GraphError::PathNotFound)
    }

    /// The node at the head of each edge of a reverse path, then the start.
    fn path_nodes(&self, txn: &RoTxn, path: &Vec<Edge>, from_id: &str) -> (r: Result<
        Vec<Node>,
        GraphError,
    >)
        ensures
            match r {
                Ok(ns) => {
                    let em = edges_model(path@);
                    let nm = nodes_model(ns@);
                    &&& nm.len() == em.len() + 1
                    &&& forall|i: int|
                        0 <= i < em.len() ==> find_node(
                            txn.model().nodes,
                            encode_utf8(#[trigger] em[i].to_node),
                        ) == Some(nm[i])
                    &&& find_node(txn.model().nodes, encode_utf8(from_id@)) == Some(nm.last())
                },
                Err(e) => {
                    &&& e is NodeNotFound
                    &&& !((forall|i: int|
                        0 <= i < path@.len() ==> find_node(
                            txn.model().nodes,
                            encode_utf8(#[trigger] path@[i].model().to_node),
                        ) is Some) && find_node(txn.model().nodes, encode_utf8(from_id@)) is Some)
                },
            },
    {
        let ghost em = edges_model(path@);
        let mut out: Vec<Node> = Vec::new();
        let mut i: usize = 0;
        while i < path.len()
            invariant
                i <= path.len(),
                em == edges_model(path@),
                out@.len() == i,
                forall|j: int|
                    0 <= j < i ==> find_node(txn.model().nodes, encode_utf8(#[trigger] em[j].to_node))
                        == Some(out@[j].model()),
            decreases path.len() - i,
        {
            assert(em[i as int] == path@[i as int].model());
            let n = match self.get_node(txn, path[i].to_node.as_str()) {
                Ok(n) => n,
                Err(e) => {
                    assert(find_node(
                        txn.model().nodes,
                        encode_utf8(path@[i as int].model().to_node),
                    ) is None);
                    return Err(e);
                },
            };
            out.push(n);
            i = i + 1;
        }
        let start = self.get_node(txn, from_id)?;
        out.push(start);
        proof {
            let nm = nodes_model(out@);
            assert forall|j: int| 0 <= j < em.len() implies find_node(
                txn.model().nodes,
                encode_utf8(#[trigger] em[j].to_node),
            ) == Some(nm[j]) by {
                assert(nm[j] == out@[j].model());
            }
        }
        Ok(out)
    }
}

} // verus!
