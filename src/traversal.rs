//! The traversal engine: the value carried between steps, and the builder
//! whose steps read and write the store through a transaction.
use vstd::prelude::*;
use vstd::utf8::encode_utf8;
use crate::value::{props_merge, Value, ValueModel, Node, Edge, NodeModel, EdgeModel, PropModel, nodes_model, edges_model, props_model, prop_lookup, get_prop};
use crate::storage::{
    HelixGraphStorage, RoTxn, RwTxn, GraphError, TablesModel, adjacent_nodes, adjacent_edges,
    find_node, well_formed, all_nodes, all_edges,
    update_node_effect, update_edge_effect, merged_node, merged_edge, find_edge,
    is_generated_id, path_found, path_failure,
};

verus! {

broadcast use vstd::std_specs::vec::group_vec_axioms;

/// A number of items.
#[derive(Clone, Debug, PartialEq)]
pub struct Count {
    pub value: usize,
}

impl Count {
    pub fn new(value: usize) -> (r: Count)
        ensures
            r.value == value,
    {
        Count { value }
    }

    pub fn value(&self) -> (r: usize)
        ensures
            r == self.value,
    {
        self.value
    }
}

/// The value carried from one traversal step to the next.
#[derive(Debug, PartialEq)]
pub enum TraversalValue {
    Empty,
    SingleNode(Node),
    NodeArray(Vec<Node>),
    SingleEdge(Edge),
    EdgeArray(Vec<Edge>),
    SingleValue((String, Value)),
    ValueArray(Vec<(String, Value)>),
    Count(Count),
}

pub enum StepModel {
    Empty,
    SingleNode(NodeModel),
    NodeArray(Seq<NodeModel>),
    SingleEdge(EdgeModel),
    EdgeArray(Seq<EdgeModel>),
    SingleValue((Seq<char>, ValueModel)),
    ValueArray(PropModel),
    Count(nat),
}

impl TraversalValue {
    pub open spec fn model(&self) -> StepModel {
        match self {
            TraversalValue::Empty => StepModel::Empty,
            TraversalValue::SingleNode(n) => StepModel::SingleNode(n.model()),
            TraversalValue::NodeArray(ns) => StepModel::NodeArray(nodes_model(ns@)),
            TraversalValue::SingleEdge(e) => StepModel::SingleEdge(e.model()),
            TraversalValue::EdgeArray(es) => StepModel::EdgeArray(edges_model(es@)),
            TraversalValue::SingleValue(kv) => StepModel::SingleValue((kv.0@, kv.1.model())),
            TraversalValue::ValueArray(vs) => StepModel::ValueArray(props_model(vs@)),
            TraversalValue::Count(c) => StepModel::Count(c.value as nat),
        }
    }

    /// A deep copy.
    pub fn duplicate(&self) -> (r: TraversalValue)
        ensures
            r.model() == self.model(),
    {
        match self {
            TraversalValue::Empty => TraversalValue::Empty,
            TraversalValue::SingleNode(n) => TraversalValue::SingleNode(n.duplicate()),
            TraversalValue::NodeArray(ns) => TraversalValue::NodeArray(copy_node_vec(ns)),
            TraversalValue::SingleEdge(e) => TraversalValue::SingleEdge(e.duplicate()),
            TraversalValue::EdgeArray(es) => TraversalValue::EdgeArray(copy_edge_vec(es)),
            TraversalValue::SingleValue(kv) => TraversalValue::SingleValue(
                (kv.0.clone(), kv.1.duplicate()),
            ),
            TraversalValue::ValueArray(vs) => TraversalValue::ValueArray(
                crate::value::duplicate_props(vs),
            ),
            TraversalValue::Count(c) => TraversalValue::Count(Count { value: c.value }),
        }
    }
}

fn copy_node_vec(ns: &Vec<Node>) -> (r: Vec<Node>)
    ensures
        nodes_model(r@) == nodes_model(ns@),
{
    let mut out: Vec<Node> = Vec::new();
    let mut i: usize = 0;
    while i < ns.len()
        invariant
            i <= ns.len(),
            out@.len() == i,
            forall|j: int| 0 <= j < i ==> out@[j].model() == ns@[j].model(),
        decreases ns.len() - i,
    {
        out.push(ns[i].duplicate());
        i = i + 1;
    }
    assert(nodes_model(out@) =~= nodes_model(ns@));
    out
}

fn copy_edge_vec(es: &Vec<Edge>) -> (r: Vec<Edge>)
    ensures
        edges_model(r@) == edges_model(es@),
{
    let mut out: Vec<Edge> = Vec::new();
    let mut i: usize = 0;
    while i < es.len()
        invariant
            i <= es.len(),
            out@.len() == i,
            forall|j: int| 0 <= j < i ==> out@[j].model() == es@[j].model(),
        decreases es.len() - i,
    {
        out.push(es[i].duplicate());
        i = i + 1;
    }
    assert(edges_model(out@) =~= edges_model(es@));
    out
}

pub open spec fn steps_model(s: Seq<TraversalValue>) -> Seq<StepModel> {
    Seq::new(s.len(), |i: int| s[i].model())
}

/// What one value contributes to the flattened stream: nothing for
/// `Empty`, each element of an array as a singleton, itself otherwise.
pub open spec fn flat_one(v: StepModel) -> Seq<StepModel> {
    match v {
        StepModel::Empty => Seq::empty(),
        StepModel::NodeArray(ns) => Seq::new(ns.len(), |i: int| StepModel::SingleNode(ns[i])),
        StepModel::EdgeArray(es) => Seq::new(es.len(), |i: int| StepModel::SingleEdge(es[i])),
        StepModel::ValueArray(vs) => Seq::new(vs.len(), |i: int| StepModel::SingleValue(vs[i])),
        _ => seq![v],
    }
}

/// The flattened stream of a current step.
pub open spec fn flatten(s: Seq<StepModel>) -> Seq<StepModel>
    decreases s.len(),
{
    if s.len() == 0 {
        Seq::empty()
    } else {
        flatten(s.drop_last()) + flat_one(s.last())
    }
}

/// Appends what `v` contributes to the flattened stream.
fn push_flat(out: &mut Vec<TraversalValue>, v: &TraversalValue)
    ensures
        steps_model(final(out)@) == steps_model(old(out)@) + flat_one(v.model()),
{
    let ghost start = steps_model(out@);
    match v {
        TraversalValue::Empty => {
            assert(steps_model(out@) =~= start + flat_one(v.model()));
        },
        TraversalValue::NodeArray(ns) => {
            let mut i: usize = 0;
            while i < ns.len()
                invariant
                    i <= ns.len(),
                    *v == TraversalValue::NodeArray(*ns),
                    steps_model(out@) == start + flat_one(v.model()).subrange(0, i as int),
                decreases ns.len() - i,
            {
                let ghost before = steps_model(out@);
                out.push(TraversalValue::SingleNode(ns[i].duplicate()));
                assert(steps_model(out@) =~= before.push(flat_one(v.model())[i as int]));
                assert(flat_one(v.model()).subrange(0, i + 1) =~= flat_one(v.model()).subrange(
                    0,
                    i as int,
                ).push(flat_one(v.model())[i as int]));
                i = i + 1;
            }
            assert(flat_one(v.model()).subrange(0, i as int) =~= flat_one(v.model()));
        },
        TraversalValue::EdgeArray(es) => {
            let mut i: usize = 0;
            while i < es.len()
                invariant
                    i <= es.len(),
                    *v == TraversalValue::EdgeArray(*es),
                    steps_model(out@) == start + flat_one(v.model()).subrange(0, i as int),
                decreases es.len() - i,
            {
                let ghost before = steps_model(out@);
                out.push(TraversalValue::SingleEdge(es[i].duplicate()));
                assert(steps_model(out@) =~= before.push(flat_one(v.model())[i as int]));
                assert(flat_one(v.model()).subrange(0, i + 1) =~= flat_one(v.model()).subrange(
                    0,
                    i as int,
                ).push(flat_one(v.model())[i as int]));
                i = i + 1;
            }
            assert(flat_one(v.model()).subrange(0, i as int) =~= flat_one(v.model()));
        },
        TraversalValue::ValueArray(vs) => {
            let mut i: usize = 0;
            while i < vs.len()
                invariant
                    i <= vs.len(),
                    *v == TraversalValue::ValueArray(*vs),
                    steps_model(out@) == start + flat_one(v.model()).subrange(0, i as int),
                decreases vs.len() - i,
            {
                let ghost before = steps_model(out@);
                out.push(TraversalValue::SingleValue((vs[i].0.clone(), vs[i].1.duplicate())));
                assert(steps_model(out@) =~= before.push(flat_one(v.model())[i as int]));
                assert(flat_one(v.model()).subrange(0, i + 1) =~= flat_one(v.model()).subrange(
                    0,
                    i as int,
                ).push(flat_one(v.model())[i as int]));
                i = i + 1;
            }
            assert(flat_one(v.model()).subrange(0, i as int) =~= flat_one(v.model()));
        },
        _ => {
            let ghost before = steps_model(out@);
            out.push(v.duplicate());
            assert(steps_model(out@) =~= before + flat_one(v.model()));
        },
    }
}

/// The flattened stream of `s`, as singletons.
pub fn flatten_values(s: &Vec<TraversalValue>) -> (r: Vec<TraversalValue>)
    ensures
        steps_model(r@) == flatten(steps_model(s@)),
{
    let ghost sm = steps_model(s@);
    let mut out: Vec<TraversalValue> = Vec::new();
    let mut i: usize = 0;
    assert(steps_model(out@) =~= Seq::<StepModel>::empty());
    assert(sm.subrange(0, 0) =~= Seq::<StepModel>::empty());
    while i < s.len()
        invariant
            i <= s.len(),
            sm == steps_model(s@),
            steps_model(out@) == flatten(sm.subrange(0, i as int)),
        decreases s.len() - i,
    {
        assert(sm.subrange(0, i + 1).drop_last() =~= sm.subrange(0, i as int));
        push_flat(&mut out, &s[i]);
        i = i + 1;
    }
    assert(sm.subrange(0, i as int) =~= sm);
    out
}

// ---------------------------------------------------------------------------
// Navigation from nodes
// ---------------------------------------------------------------------------

/// The navigation steps that start from nodes.
#[derive(Clone, Copy, PartialEq, Eq, Structural)]
pub enum NodeStep {
    Out,
    OutE,
    In,
    InE,
    Both,
    BothE,
    Mutual,
}

/// `[NodeArray(ns)]`, or `[Empty]` when `ns` is empty.
pub open spec fn wrap_nodes(ns: Seq<NodeModel>) -> Seq<StepModel> {
    if ns.len() == 0 {
        seq![StepModel::Empty]
    } else {
        seq![StepModel::NodeArray(ns)]
    }
}

/// `[EdgeArray(es)]`, or `[Empty]` when `es` is empty.
pub open spec fn wrap_edges(es: Seq<EdgeModel>) -> Seq<StepModel> {
    if es.len() == 0 {
        seq![StepModel::Empty]
    } else {
        seq![StepModel::EdgeArray(es)]
    }
}

/// `[NodeArray(ns)]`, or nothing when `ns` is empty.
pub open spec fn some_nodes(ns: Seq<NodeModel>) -> Seq<StepModel> {
    if ns.len() == 0 {
        Seq::empty()
    } else {
        seq![StepModel::NodeArray(ns)]
    }
}

/// `[EdgeArray(es)]`, or nothing when `es` is empty.
pub open spec fn some_edges(es: Seq<EdgeModel>) -> Seq<StepModel> {
    if es.len() == 0 {
        Seq::empty()
    } else {
        seq![StepModel::EdgeArray(es)]
    }
}

/// Whether some node of `ns` has id bytes `idb`.
pub open spec fn has_id(ns: Seq<NodeModel>, idb: Seq<u8>) -> bool {
    exists|i: int| 0 <= i < ns.len() && encode_utf8(ns[i].id) == idb
}

/// The nodes of `outs` whose id also occurs in `ins`, each id once, in the
/// order of `outs`.
pub open spec fn mutual_nodes(outs: Seq<NodeModel>, ins: Seq<NodeModel>) -> Seq<NodeModel>
    decreases outs.len(),
{
    if outs.len() == 0 {
        Seq::empty()
    } else {
        let rest = mutual_nodes(outs.drop_last(), ins);
        let o = outs.last();
        if has_id(ins, encode_utf8(o.id)) && !has_id(rest, encode_utf8(o.id)) {
            rest.push(o)
        } else {
            rest
        }
    }
}

/// What a navigation step produces for one node.
pub open spec fn node_step(m: TablesModel, label: Seq<char>, kind: NodeStep, n: NodeModel) -> Seq<
    StepModel,
> {
    match kind {
        NodeStep::Out => wrap_nodes(adjacent_nodes(m, n.id, label, true)),
        NodeStep::OutE => wrap_edges(adjacent_edges(m, n.id, label, true)),
        NodeStep::In => wrap_nodes(adjacent_nodes(m, n.id, label, false)),
        NodeStep::InE => wrap_edges(adjacent_edges(m, n.id, label, false)),
        NodeStep::Both => {
            let ins = adjacent_nodes(m, n.id, label, false);
            let outs = adjacent_nodes(m, n.id, label, true);
            if ins.len() == 0 && outs.len() == 0 {
                seq![StepModel::Empty]
            } else {
                some_nodes(ins) + some_nodes(outs)
            }
        },
        NodeStep::BothE => {
            let ins = adjacent_edges(m, n.id, label, false);
            let outs = adjacent_edges(m, n.id, label, true);
            if ins.len() == 0 && outs.len() == 0 {
                seq![StepModel::Empty]
            } else {
                some_edges(ins) + some_edges(outs)
            }
        },
        NodeStep::Mutual => wrap_nodes(
            mutual_nodes(adjacent_nodes(m, n.id, label, true), adjacent_nodes(m, n.id, label, false)),
        ),
    }
}

/// Whether some node of `ns` has id bytes `idb`.
fn holds_id(ns: &Vec<Node>, idb: &[u8]) -> (r: bool)
    ensures
        r == has_id(nodes_model(ns@), idb@),
{
    let p = crate::storage::node_index(ns, idb);
    proof {
        crate::storage::lemma_node_pos_range(nodes_model(ns@), idb@);
    }
    p.is_some()
}

/// The nodes of `outs` whose id also occurs in `ins`, each id once.
fn mutual_of(outs: &Vec<Node>, ins: &Vec<Node>) -> (r: Vec<Node>)
    ensures
        nodes_model(r@) == mutual_nodes(nodes_model(outs@), nodes_model(ins@)),
{
    let ghost om = nodes_model(outs@);
    let mut out: Vec<Node> = Vec::new();
    let mut i: usize = 0;
    assert(om.subrange(0, 0) =~= Seq::<NodeModel>::empty());
    assert(nodes_model(out@) =~= Seq::<NodeModel>::empty());
    while i < outs.len()
        invariant
            i <= outs@.len(),
            om == nodes_model(outs@),
            nodes_model(out@) == mutual_nodes(om.subrange(0, i as int), nodes_model(ins@)),
        decreases outs@.len() - i,
    {
        assert(om.subrange(0, i + 1).drop_last() =~= om.subrange(0, i as int));
        let idb = outs[i].id.as_str().as_bytes();
        assert(om[i as int].id == outs@[i as int].id@);
        if holds_id(ins, idb) && !holds_id(&out, idb) {
            let ghost before = nodes_model(out@);
            out.push(outs[i].duplicate());
            assert(nodes_model(out@) =~= before.push(om[i as int]));
        }
        i = i + 1;
    }
    assert(om.subrange(0, i as int) =~= om);
    out
}

/// A navigation step applied to each node of `ns`, in order.
pub open spec fn expand_nodes(
    m: TablesModel,
    label: Seq<char>,
    kind: NodeStep,
    ns: Seq<NodeModel>,
) -> Seq<StepModel>
    decreases ns.len(),
{
    if ns.len() == 0 {
        Seq::empty()
    } else {
        expand_nodes(m, label, kind, ns.drop_last()) + node_step(m, label, kind, ns.last())
    }
}

/// A navigation step applied element-wise to a current step; `Empty`
/// elements contribute nothing.
pub open spec fn navigate(m: TablesModel, label: Seq<char>, kind: NodeStep, s: Seq<StepModel>) -> Seq<
    StepModel,
>
    decreases s.len(),
{
    if s.len() == 0 {
        Seq::empty()
    } else {
        navigate(m, label, kind, s.drop_last()) + match s.last() {
            StepModel::SingleNode(n) => node_step(m, label, kind, n),
            StepModel::NodeArray(ns) => expand_nodes(m, label, kind, ns),
            _ => Seq::empty(),
        }
    }
}

/// The node-source guard: the first value holds nodes.
pub open spec fn node_guard(s: Seq<StepModel>) -> bool {
    s.len() > 0 && (s[0] is SingleNode || s[0] is NodeArray)
}

/// The edge-source guard: the first value holds edges.
pub open spec fn edge_guard(s: Seq<StepModel>) -> bool {
    s.len() > 0 && (s[0] is SingleEdge || s[0] is EdgeArray)
}

/// Every value holds nodes or is `Empty`.
pub open spec fn node_sources(s: Seq<StepModel>) -> bool {
    forall|i: int|
        0 <= i < s.len() ==> (s[i] is SingleNode || s[i] is NodeArray || s[i] is Empty)
}

/// Every value holds edges or is `Empty`.
pub open spec fn edge_sources(s: Seq<StepModel>) -> bool {
    forall|i: int|
        0 <= i < s.len() ==> (s[i] is SingleEdge || s[i] is EdgeArray || s[i] is Empty)
}

fn wrap_node_vec(ns: Vec<Node>, keep_empty: bool) -> (r: Vec<TraversalValue>)
    ensures
        steps_model(r@) == if keep_empty {
            wrap_nodes(nodes_model(ns@))
        } else {
            some_nodes(nodes_model(ns@))
        },
{
    let mut out: Vec<TraversalValue> = Vec::new();
    if ns.len() == 0 {
        if keep_empty {
            out.push(TraversalValue::Empty);
        }
    } else {
        out.push(TraversalValue::NodeArray(ns));
    }
    assert(steps_model(out@) =~= if keep_empty {
        wrap_nodes(nodes_model(ns@))
    } else {
        some_nodes(nodes_model(ns@))
    });
    out
}

fn wrap_edge_vec(es: Vec<Edge>, keep_empty: bool) -> (r: Vec<TraversalValue>)
    ensures
        steps_model(r@) == if keep_empty {
            wrap_edges(edges_model(es@))
        } else {
            some_edges(edges_model(es@))
        },
{
    let mut out: Vec<TraversalValue> = Vec::new();
    if es.len() == 0 {
        if keep_empty {
            out.push(TraversalValue::Empty);
        }
    } else {
        out.push(TraversalValue::EdgeArray(es));
    }
    assert(steps_model(out@) =~= if keep_empty {
        wrap_edges(edges_model(es@))
    } else {
        some_edges(edges_model(es@))
    });
    out
}

/// Appends `more` to `out`.
fn append_steps(out: &mut Vec<TraversalValue>, more: Vec<TraversalValue>)
    ensures
        steps_model(final(out)@) == steps_model(old(out)@) + steps_model(more@),
{
    let ghost a = out@;
    let ghost b = more@;
    let mut more = more;
    out.append(&mut more);
    assert(steps_model(out@) =~= steps_model(a) + steps_model(b));
}

// ---------------------------------------------------------------------------
// Navigation from edges
// ---------------------------------------------------------------------------

/// The navigation steps that start from edges.
#[derive(Clone, Copy, PartialEq, Eq, Structural)]
pub enum EdgeStep {
    OutV,
    InV,
    BothV,
}

/// What an edge step produces for one edge; `None` when an endpoint it
/// needs has no record.
pub open spec fn edge_step(m: TablesModel, kind: EdgeStep, e: EdgeModel) -> Option<Seq<StepModel>> {
    let from = find_node(m.nodes, encode_utf8(e.from_node));
    let to = find_node(m.nodes, encode_utf8(e.to_node));
    match kind {
        EdgeStep::OutV => match from {
            Some(n) => Some(seq![StepModel::SingleNode(n)]),
            None => None,
        },
        EdgeStep::InV => match to {
            Some(n) => Some(seq![StepModel::SingleNode(n)]),
            None => None,
        },
        EdgeStep::BothV => match (to, from) {
            (Some(a), Some(b)) => Some(seq![StepModel::NodeArray(seq![a, b])]),
            _ => None,
        },
    }
}

/// Concatenation that fails when either part failed.
pub open spec fn join(a: Option<Seq<StepModel>>, b: Option<Seq<StepModel>>) -> Option<Seq<StepModel>> {
    match (a, b) {
        (Some(x), Some(y)) => Some(x + y),
        _ => None,
    }
}

/// An edge step applied to each edge of `es`, in order.
pub open spec fn expand_edges(m: TablesModel, kind: EdgeStep, es: Seq<EdgeModel>) -> Option<
    Seq<StepModel>,
>
    decreases es.len(),
{
    if es.len() == 0 {
        Some(Seq::empty())
    } else {
        join(expand_edges(m, kind, es.drop_last()), edge_step(m, kind, es.last()))
    }
}

/// An edge step applied element-wise to a current step; `Empty` elements
/// contribute nothing.
pub open spec fn navigate_edges(m: TablesModel, kind: EdgeStep, s: Seq<StepModel>) -> Option<
    Seq<StepModel>,
>
    decreases s.len(),
{
    if s.len() == 0 {
        Some(Seq::empty())
    } else {
        join(
            navigate_edges(m, kind, s.drop_last()),
            match s.last() {
                StepModel::SingleEdge(e) => edge_step(m, kind, e),
                StepModel::EdgeArray(es) => expand_edges(m, kind, es),
                _ => Some(Seq::empty()),
            },
        )
    }
}

proof fn lemma_expand_edges_fails(m: TablesModel, kind: EdgeStep, es: Seq<EdgeModel>, k: int)
    requires
        0 <= k <= es.len(),
        expand_edges(m, kind, es.subrange(0, k)) is None,
    ensures
        expand_edges(m, kind, es) is None,
    decreases es.len() - k,
{
    if k < es.len() {
        assert(es.subrange(0, k + 1).drop_last() =~= es.subrange(0, k));
        lemma_expand_edges_fails(m, kind, es, k + 1);
    } else {
        assert(es.subrange(0, k) =~= es);
    }
}

proof fn lemma_navigate_edges_fails(m: TablesModel, kind: EdgeStep, s: Seq<StepModel>, k: int)
    requires
        0 <= k <= s.len(),
        navigate_edges(m, kind, s.subrange(0, k)) is None,
    ensures
        navigate_edges(m, kind, s) is None,
    decreases s.len() - k,
{
    if k < s.len() {
        assert(s.subrange(0, k + 1).drop_last() =~= s.subrange(0, k));
        lemma_navigate_edges_fails(m, kind, s, k + 1);
    } else {
        assert(s.subrange(0, k) =~= s);
    }
}

// ---------------------------------------------------------------------------
// Terminal and utility steps
// ---------------------------------------------------------------------------

/// The nodes among the items of a flattened stream, in order.
pub open spec fn node_items(f: Seq<StepModel>) -> Seq<NodeModel>
    decreases f.len(),
{
    if f.len() == 0 {
        Seq::empty()
    } else {
        match f.last() {
            StepModel::SingleNode(n) => node_items(f.drop_last()).push(n),
            _ => node_items(f.drop_last()),
        }
    }
}

/// The edges among the items of a flattened stream, in order.
pub open spec fn edge_items(f: Seq<StepModel>) -> Seq<EdgeModel>
    decreases f.len(),
{
    if f.len() == 0 {
        Seq::empty()
    } else {
        match f.last() {
            StepModel::SingleEdge(e) => edge_items(f.drop_last()).push(e),
            _ => edge_items(f.drop_last()),
        }
    }
}

/// The nodes `ns[i]` with `keep[i]`, as singletons, in order.
pub open spec fn select_nodes(ns: Seq<NodeModel>, keep: Seq<bool>) -> Seq<StepModel>
    decreases ns.len(),
{
    if ns.len() == 0 || keep.len() != ns.len() {
        Seq::empty()
    } else if keep.last() {
        select_nodes(ns.drop_last(), keep.drop_last()).push(StepModel::SingleNode(ns.last()))
    } else {
        select_nodes(ns.drop_last(), keep.drop_last())
    }
}

/// The edges `es[i]` with `keep[i]`, as singletons, in order.
pub open spec fn select_edges(es: Seq<EdgeModel>, keep: Seq<bool>) -> Seq<StepModel>
    decreases es.len(),
{
    if es.len() == 0 || keep.len() != es.len() {
        Seq::empty()
    } else if keep.last() {
        select_edges(es.drop_last(), keep.drop_last()).push(StepModel::SingleEdge(es.last()))
    } else {
        select_edges(es.drop_last(), keep.drop_last())
    }
}

/// For each key of `keys` that `ps` holds, in order, the key with its value.
pub open spec fn props_of(ps: PropModel, keys: Seq<Seq<char>>) -> Seq<StepModel>
    decreases keys.len(),
{
    if keys.len() == 0 {
        Seq::empty()
    } else {
        let rest = props_of(ps, keys.drop_last());
        match prop_lookup(ps, keys.last()) {
            Some(v) => rest.push(StepModel::SingleValue((keys.last(), v))),
            None => rest,
        }
    }
}

/// `get_properties` over a flattened stream: the requested properties of
/// each node and edge; other items contribute nothing.
pub open spec fn properties_step(f: Seq<StepModel>, keys: Seq<Seq<char>>) -> Seq<StepModel>
    decreases f.len(),
{
    if f.len() == 0 {
        Seq::empty()
    } else {
        properties_step(f.drop_last(), keys) + match f.last() {
            StepModel::SingleNode(n) => props_of(n.properties, keys),
            StepModel::SingleEdge(e) => props_of(e.properties, keys),
            _ => Seq::empty(),
        }
    }
}

/// The `start..end` slice of a flattened stream of length `len`, with `end`
/// clamped to `len` and `start` to the clamped end.
pub open spec fn clamp_range(start: int, end: int, len: int) -> (int, int) {
    let e = if end < len {
        end
    } else {
        len
    };
    let b = if start < e {
        start
    } else {
        e
    };
    (b, e)
}

/// `range(start, end)`: the clamped slice of the flattened stream; an empty
/// stream leaves the current step as it is.
pub open spec fn range_step(s: Seq<StepModel>, start: int, end: int) -> Seq<StepModel> {
    let f = flatten(s);
    let (b, e) = clamp_range(start, end, f.len() as int);
    if f.len() == 0 {
        s
    } else {
        f.subrange(b, e)
    }
}

/// The first node that a current step holds, if its first value holds one.
pub open spec fn first_node(s: Seq<StepModel>) -> Option<NodeModel> {
    if s.len() == 0 {
        None
    } else {
        match s[0] {
            StepModel::SingleNode(n) => Some(n),
            StepModel::NodeArray(ns) => if ns.len() > 0 {
                Some(ns[0])
            } else {
                None
            },
            _ => None,
        }
    }
}

/// The value a finished traversal hands back: its only value; `Empty` when
/// there is none; the nodes (or the edges) of the flattened stream when there
/// are several; `None` when several values mix kinds.
pub open spec fn collapse(s: Seq<StepModel>) -> Option<StepModel> {
    if s.len() == 0 {
        Some(StepModel::Empty)
    } else if s.len() == 1 {
        Some(s[0])
    } else {
        let f = flatten(s);
        if node_items(f).len() == f.len() {
            Some(StepModel::NodeArray(node_items(f)))
        } else if edge_items(f).len() == f.len() {
            Some(StepModel::EdgeArray(edge_items(f)))
        } else {
            None
        }
    }
}

/// Ends a traversal: hands back its value. A write transaction that the
/// steps used is then committed by the caller, through
/// `HelixGraphStorage::commit`, or dropped.
pub trait WTraversalBuilderMethods: Sized {
    /// The current step of the traversal.
    spec fn steps(&self) -> Seq<StepModel>;

    /// The value the traversal hands back; see `collapse`.
    fn result(self) -> (r: Result<TraversalValue, GraphError>)
        ensures
            match collapse(self.steps()) {
                Some(v) => r matches Ok(t) && t.model() == v,
                None => r matches Err(e) && e is TraversalError,
            },
    ;

    /// Ends the traversal, keeping only whether it could be collapsed.
    fn execute(self) -> (r: Result<(), GraphError>)
        ensures
            r is Ok <==> collapse(self.steps()) is Some,
            r matches Err(e) ==> e is TraversalError,
    ;
}

/// What `update_props` does to one item: a node or an edge takes the
/// updates in the tables and is replaced by its updated record; another item
/// passes through. `None` when the record is gone.
pub open spec fn update_item(m: TablesModel, v: StepModel, ps: PropModel) -> Option<
    (TablesModel, StepModel),
> {
    match v {
        StepModel::SingleNode(n) => match update_node_effect(m, encode_utf8(n.id), ps) {
            Some(m2) => Some(
                (m2, StepModel::SingleNode(merged_node(find_node(m.nodes, encode_utf8(n.id))->0, ps))),
            ),
            None => None,
        },
        StepModel::SingleEdge(e) => match update_edge_effect(m, encode_utf8(e.id), ps) {
            Some(m2) => Some(
                (m2, StepModel::SingleEdge(merged_edge(find_edge(m.edges, encode_utf8(e.id))->0, ps))),
            ),
            None => None,
        },
        other => Some((m, other)),
    }
}

/// `update_props` over a flattened stream, item by item in order.
pub open spec fn update_step(m: TablesModel, f: Seq<StepModel>, ps: PropModel) -> Option<
    (TablesModel, Seq<StepModel>),
>
    decreases f.len(),
{
    if f.len() == 0 {
        Some((m, Seq::empty()))
    } else {
        match update_step(m, f.drop_last(), ps) {
            None => None,
            Some((m1, out)) => match update_item(m1, f.last(), ps) {
                Some((m2, v)) => Some((m2, out.push(v))),
                None => None,
            },
        }
    }
}

proof fn lemma_update_step_fails(m: TablesModel, f: Seq<StepModel>, ps: PropModel, k: int)
    requires
        0 <= k <= f.len(),
        update_step(m, f.subrange(0, k), ps) is None,
    ensures
        update_step(m, f, ps) is None,
    decreases f.len() - k,
{
    if k < f.len() {
        assert(f.subrange(0, k + 1).drop_last() =~= f.subrange(0, k));
        lemma_update_step_fails(m, f, ps, k + 1);
    } else {
        assert(f.subrange(0, k) =~= f);
    }
}

/// The flattened stream `f` with its `k`-th node replaced by `rs[k]`;
/// other items stay.
pub open spec fn replace_nodes(f: Seq<StepModel>, rs: Seq<NodeModel>) -> Seq<StepModel>
    decreases f.len(),
{
    if f.len() == 0 {
        Seq::empty()
    } else {
        match f.last() {
            StepModel::SingleNode(_) => replace_nodes(f.drop_last(), rs.drop_last()).push(
                StepModel::SingleNode(rs.last()),
            ),
            other => replace_nodes(f.drop_last(), rs).push(other),
        }
    }
}

/// The flattened stream `f` with its `k`-th edge replaced by `rs[k]`;
/// other items stay.
pub open spec fn replace_edges(f: Seq<StepModel>, rs: Seq<EdgeModel>) -> Seq<StepModel>
    decreases f.len(),
{
    if f.len() == 0 {
        Seq::empty()
    } else {
        match f.last() {
            StepModel::SingleEdge(_) => replace_edges(f.drop_last(), rs.drop_last()).push(
                StepModel::SingleEdge(rs.last()),
            ),
            other => replace_edges(f.drop_last(), rs).push(other),
        }
    }
}

// ---------------------------------------------------------------------------
// The builder
// ---------------------------------------------------------------------------

/// A traversal in progress: the current step, and named sub-results.
pub struct TraversalBuilder<'a> {
    pub variables: Vec<(String, TraversalValue)>,
    pub current_step: Vec<TraversalValue>,
    pub storage: &'a HelixGraphStorage,
}

impl<'a> TraversalBuilder<'a> {
    pub open spec fn current(&self) -> Seq<StepModel> {
        steps_model(self.current_step@)
    }

    /// A builder over `storage` whose current step is `start_nodes`.
    pub fn new(storage: &'a HelixGraphStorage, start_nodes: Vec<TraversalValue>) -> (r: Self)
        ensures
            r.current() == steps_model(start_nodes@),
            r.variables@.len() == 0,
    {
        TraversalBuilder { variables: Vec::new(), current_step: start_nodes, storage }
    }

    /// The node-source guard. The error names the step that was refused.
    pub fn check_is_valid_node_traversal(&self, function_name: &str) -> (r: Result<(), GraphError>)
        ensures
            r is Ok <==> node_guard(self.current()),
            r matches Err(e) ==> e is TraversalError,
    {
        if self.current_step.len() > 0 {
            match &self.current_step[0] {
                TraversalValue::NodeArray(_) => {
                    return Ok(());
                },
                TraversalValue::SingleNode(_) => {
                    return Ok(());
                },
                _ => {},
            }
        }
        Err(GraphError::TraversalError(function_name.to_owned()))
    }

    /// The edge-source guard. The error names the step that was refused.
    pub fn check_is_valid_edge_traversal(&self, function_name: &str) -> (r: Result<(), GraphError>)
        ensures
            r is Ok <==> edge_guard(self.current()),
            r matches Err(e) ==> e is TraversalError,
    {
        if self.current_step.len() > 0 {
            match &self.current_step[0] {
                TraversalValue::EdgeArray(_) => {
                    return Ok(());
                },
                TraversalValue::SingleEdge(_) => {
                    return Ok(());
                },
                _ => {},
            }
        }
        Err(GraphError::TraversalError(function_name.to_owned()))
    }

    /// What `kind` produces for node `n`.
    fn step_from_node(&self, txn: &RoTxn, label: &str, kind: NodeStep, n: &Node) -> (r: Vec<
        TraversalValue,
    >)
        ensures
            steps_model(r@) == node_step(txn.model(), label@, kind, n.model()),
    {
        let id = n.id.as_str();
        match kind {
            NodeStep::Out => {
                let Ok(ns) = self.storage.get_out_nodes(txn, id, label) else { return Vec::new() };
                wrap_node_vec(ns, true)
            },
            NodeStep::In => {
                let Ok(ns) = self.storage.get_in_nodes(txn, id, label) else { return Vec::new() };
                wrap_node_vec(ns, true)
            },
            NodeStep::OutE => {
                let Ok(es) = self.storage.get_out_edges(txn, id, label) else { return Vec::new() };
                wrap_edge_vec(es, true)
            },
            NodeStep::InE => {
                let Ok(es) = self.storage.get_in_edges(txn, id, label) else { return Vec::new() };
                wrap_edge_vec(es, true)
            },
            NodeStep::Both => {
                let Ok(ins) = self.storage.get_in_nodes(txn, id, label) else { return Vec::new() };
                let Ok(outs) = self.storage.get_out_nodes(txn, id, label) else {
                    return Vec::new()
                };
                if ins.len() == 0 && outs.len() == 0 {
                    let mut r: Vec<TraversalValue> = Vec::new();
                    r.push(TraversalValue::Empty);
                    assert(steps_model(r@) =~= seq![StepModel::Empty]);
                    r
                } else {
                    let mut r = wrap_node_vec(ins, false);
                    append_steps(&mut r, wrap_node_vec(outs, false));
                    r
                }
            },
            NodeStep::BothE => {
                let Ok(ins) = self.storage.get_in_edges(txn, id, label) else { return Vec::new() };
                let Ok(outs) = self.storage.get_out_edges(txn, id, label) else {
                    return Vec::new()
                };
                if ins.len() == 0 && outs.len() == 0 {
                    let mut r: Vec<TraversalValue> = Vec::new();
                    r.push(TraversalValue::Empty);
                    assert(steps_model(r@) =~= seq![StepModel::Empty]);
                    r
                } else {
                    let mut r = wrap_edge_vec(ins, false);
                    append_steps(&mut r, wrap_edge_vec(outs, false));
                    r
                }
            },
            NodeStep::Mutual => {
                let Ok(outs) = self.storage.get_out_nodes(txn, id, label) else {
                    return Vec::new()
                };
                let Ok(ins) = self.storage.get_in_nodes(txn, id, label) else { return Vec::new() };
                wrap_node_vec(mutual_of(&outs, &ins), true)
            },
        }
    }

    /// Applies a navigation step element-wise, after the node-source guard.
    fn navigate_from_nodes(&mut self, txn: &RoTxn, label: &str, kind: NodeStep, name: &str) -> (r:
        Result<(), GraphError>)
        ensures
            final(self).storage == old(self).storage,
            final(self).variables == old(self).variables,
            if node_guard(old(self).current()) && node_sources(old(self).current()) {
                r is Ok && final(self).current() == navigate(
                    txn.model(),
                    label@,
                    kind,
                    old(self).current(),
                )
            } else {
                r matches Err(e) && e is TraversalError && final(self).current() == old(
                    self,
                ).current()
            },
    {
        self.check_is_valid_node_traversal(name)?;
        let ghost sm = self.current();
        let ghost m = txn.model();
        let mut out: Vec<TraversalValue> = Vec::new();
        let mut i: usize = 0;
        assert(steps_model(out@) =~= Seq::<StepModel>::empty());
        assert(sm.subrange(0, 0) =~= Seq::<StepModel>::empty());
        while i < self.current_step.len()
            invariant
                i <= self.current_step@.len(),
                sm == self.current(),
                m == txn.model(),
                node_guard(sm),
                steps_model(out@) == navigate(m, label@, kind, sm.subrange(0, i as int)),
                forall|j: int| 0 <= j < i ==> (sm[j] is SingleNode || sm[j] is NodeArray || sm[j] is Empty),
            decreases self.current_step@.len() - i,
        {
            assert(sm.subrange(0, i + 1).drop_last() =~= sm.subrange(0, i as int));
            assert(sm[i as int] == self.current_step@[i as int].model());
            match &self.current_step[i] {
                TraversalValue::SingleNode(n) => {
                    let more = self.step_from_node(txn, label, kind, n);
                    append_steps(&mut out, more);
                },
                TraversalValue::NodeArray(ns) => {
                    let ghost nm = nodes_model(ns@);
                    let mut k: usize = 0;
                    let ghost base = steps_model(out@);
                    assert(nm.subrange(0, 0) =~= Seq::<NodeModel>::empty());
                    assert(base =~= base + expand_nodes(m, label@, kind, nm.subrange(0, 0)));
                    while k < ns.len()
                        invariant
                            k <= ns@.len(),
                            nm == nodes_model(ns@),
                            m == txn.model(),
                            steps_model(out@) == base + expand_nodes(
                                m,
                                label@,
                                kind,
                                nm.subrange(0, k as int),
                            ),
                        decreases ns@.len() - k,
                    {
                        assert(nm.subrange(0, k + 1).drop_last() =~= nm.subrange(0, k as int));
                        let more = self.step_from_node(txn, label, kind, &ns[k]);
                        append_steps(&mut out, more);
                        assert(steps_model(out@) =~= base + expand_nodes(
                            m,
                            label@,
                            kind,
                            nm.subrange(0, k + 1),
                        ));
                        k = k + 1;
                    }
                    assert(nm.subrange(0, k as int) =~= nm);
                },
                TraversalValue::Empty => {
                    assert(steps_model(out@) =~= navigate(m, label@, kind, sm.subrange(0, i + 1)));
                },
                _ => {
                    return Err(GraphError::TraversalError(name.to_owned()));
                },
            }
            i = i + 1;
        }
        assert(sm.subrange(0, i as int) =~= sm);
        self.current_step = out;
        Ok(())
    }

    /// Every node.
    pub fn v(&mut self, txn: &RoTxn) -> (r: Result<(), GraphError>)
        ensures
            final(self).storage == old(self).storage,
            r is Ok,
            final(self).current() == seq![StepModel::NodeArray(all_nodes(txn.model()))],
    {
        let nodes = self.storage.get_all_nodes(txn)?;
        self.current_step = vec![TraversalValue::NodeArray(nodes)];
        assert(self.current() =~= seq![StepModel::NodeArray(all_nodes(txn.model()))]);
        Ok(())
    }

    /// Every edge.
    pub fn e(&mut self, txn: &RoTxn) -> (r: Result<(), GraphError>)
        ensures
            final(self).storage == old(self).storage,
            r is Ok,
            final(self).current() == seq![StepModel::EdgeArray(all_edges(txn.model()))],
    {
        let edges = self.storage.get_all_edges(txn)?;
        self.current_step = vec![TraversalValue::EdgeArray(edges)];
        assert(self.current() =~= seq![StepModel::EdgeArray(all_edges(txn.model()))]);
        Ok(())
    }

    /// The node with id `node_id`.
    pub fn v_from_id(&mut self, txn: &RoTxn, node_id: &str) -> (r: Result<(), GraphError>)
        ensures
            final(self).storage == old(self).storage,
            match find_node(txn.model().nodes, encode_utf8(node_id@)) {
                Some(n) => r is Ok && final(self).current() == seq![StepModel::SingleNode(n)],
                None => r matches Err(e) && e is NodeNotFound && final(self).current() == old(
                    self,
                ).current(),
            },
    {
        let node = self.storage.get_node(txn, node_id)?;
        self.current_step = vec![TraversalValue::SingleNode(node)];
        assert(self.current() =~= seq![StepModel::SingleNode(node.model())]);
        Ok(())
    }

    /// The edge with id `edge_id`.
    pub fn e_from_id(&mut self, txn: &RoTxn, edge_id: &str) -> (r: Result<(), GraphError>)
        ensures
            final(self).storage == old(self).storage,
            match crate::storage::find_edge(txn.model().edges, encode_utf8(edge_id@)) {
                Some(e) => r is Ok && final(self).current() == seq![StepModel::SingleEdge(e)],
                None => r matches Err(err) && err is EdgeNotFound && final(self).current() == old(
                    self,
                ).current(),
            },
    {
        let edge = self.storage.get_edge(txn, edge_id)?;
        self.current_step = vec![TraversalValue::SingleEdge(edge)];
        assert(self.current() =~= seq![StepModel::SingleEdge(edge.model())]);
        Ok(())
    }

    /// The nodes with the given ids, in order; fails on the first missing one.
    pub fn v_from_ids(&mut self, txn: &RoTxn, node_ids: &Vec<String>) -> (r: Result<(), GraphError>)
        ensures
            final(self).storage == old(self).storage,
            if forall|i: int|
                0 <= i < node_ids@.len() ==> find_node(
                    txn.model().nodes,
                    encode_utf8(#[trigger] node_ids@[i]@),
                ) is Some {
                r is Ok && final(self).current() == seq![
                    StepModel::NodeArray(
                        Seq::new(
                            node_ids@.len(),
                            |i: int| find_node(txn.model().nodes, encode_utf8(node_ids@[i]@))->0,
                        ),
                    ),
                ]
            } else {
                r matches Err(e) && e is NodeNotFound && final(self).current() == old(
                    self,
                ).current()
            },
    {
        let ghost m = txn.model();
        let mut nodes: Vec<Node> = Vec::new();
        let mut i: usize = 0;
        while i < node_ids.len()
            invariant
                i <= node_ids@.len(),
                m == txn.model(),
                nodes@.len() == i,
                forall|j: int|
                    0 <= j < i ==> find_node(m.nodes, encode_utf8(#[trigger] node_ids@[j]@)) == Some(
                        nodes@[j].model(),
                    ),
            decreases node_ids@.len() - i,
        {
            let n = self.storage.get_node(txn, node_ids[i].as_str())?;
            nodes.push(n);
            i = i + 1;
        }
        let ghost want = Seq::new(
            node_ids@.len(),
            |i: int| find_node(m.nodes, encode_utf8(node_ids@[i]@))->0,
        );
        assert(nodes_model(nodes@) =~= want);
        self.current_step = vec![TraversalValue::NodeArray(nodes)];
        assert(self.current() =~= seq![StepModel::NodeArray(want)]);
        Ok(())
    }

    /// The nodes whose label is one of `node_labels`, label by label.
    pub fn v_from_types(&mut self, txn: &RoTxn, node_labels: &Vec<String>) -> (r: Result<
        (),
        GraphError,
    >)
        ensures
            final(self).storage == old(self).storage,
            ({
                let lm = Seq::new(node_labels@.len(), |i: int| node_labels@[i]@);
                if crate::storage::labels_resolve(txn.model(), lm) {
                    r is Ok && final(self).current() == seq![
                        StepModel::NodeArray(crate::storage::nodes_of_labels(txn.model(), lm)),
                    ]
                } else {
                    r matches Err(e) && e is NodeNotFound && final(self).current() == old(
                        self,
                    ).current()
                }
            }),
    {
        let nodes = self.storage.get_nodes_by_types(txn, node_labels)?;
        self.current_step = vec![TraversalValue::NodeArray(nodes)];
        assert(self.current() =~= seq![StepModel::NodeArray(nodes_model(nodes@))]);
        Ok(())
    }

    /// Creates a node; the current step becomes that node.
    pub fn add_v(&mut self, txn: &mut RwTxn, node_label: &str, props: Vec<(String, Value)>) -> (r:
        Result<(), GraphError>)
        ensures
            final(txn).base == old(txn).base,
            final(self).storage == old(self).storage,
            match r {
                Ok(()) => exists|n: NodeModel|
                    {
                        &&& final(self).current() == seq![StepModel::SingleNode(n)]
                        &&& n.label == node_label@
                        &&& is_generated_id(n.id)
                        &&& n.properties == props_merge(Seq::empty(), props_model(props@))
                        &&& find_node(old(txn).model().nodes, encode_utf8(n.id)) is None
                        &&& final(txn).model() == crate::storage::add_node(old(txn).model(), n)
                    },
                Err(e) => {
                    &&& e is DuplicateId
                    &&& final(txn).model() == old(txn).model()
                    &&& final(self).current() == old(self).current()
                    &&& exists|j: int|
                        0 <= j < old(txn).model().nodes.len() && is_generated_id(
                            (#[trigger] old(txn).model().nodes[j]).id,
                        )
                },
            },
            well_formed(old(txn).model()) ==> well_formed(final(txn).model()),
    {
        let node = self.storage.create_node(txn, node_label, props)?;
        let ghost nm = node.model();
        self.current_step = vec![TraversalValue::SingleNode(node)];
        assert(self.current() =~= seq![StepModel::SingleNode(nm)]);
        Ok(())
    }

    /// Creates an edge; the current step becomes that edge.
    pub fn add_e(
        &mut self,
        txn: &mut RwTxn,
        edge_label: &str,
        from_id: &str,
        to_id: &str,
        props: Vec<(String, Value)>,
    ) -> (r: Result<(), GraphError>)
        ensures
            final(txn).base == old(txn).base,
            final(self).storage == old(self).storage,
            match r {
                Ok(()) => exists|e: EdgeModel|
                    {
                        &&& final(self).current() == seq![StepModel::SingleEdge(e)]
                        &&& e.label == edge_label@
                        &&& e.from_node == from_id@
                        &&& e.to_node == to_id@
                        &&& is_generated_id(e.id)
                        &&& e.properties == props_merge(Seq::empty(), props_model(props@))
                        &&& find_edge(old(txn).model().edges, encode_utf8(e.id)) is None
                        &&& final(txn).model() == crate::storage::add_edge(old(txn).model(), e)
                    },
                Err(err) => {
                    &&& final(txn).model() == old(txn).model()
                    &&& final(self).current() == old(self).current()
                    &&& (err is NodeNotFound <==> (find_node(
                        old(txn).model().nodes,
                        encode_utf8(from_id@),
                    ) is None || find_node(old(txn).model().nodes, encode_utf8(to_id@)) is None))
                    &&& (err is NodeNotFound || err is DuplicateId)
                    &&& err is DuplicateId ==> exists|j: int|
                        0 <= j < old(txn).model().edges.len() && is_generated_id(
                            (#[trigger] old(txn).model().edges[j]).id,
                        )
                },
            },
            well_formed(old(txn).model()) ==> well_formed(final(txn).model()),
    {
        let edge = self.storage.create_edge(txn, edge_label, from_id, to_id, props)?;
        let ghost em = edge.model();
        self.current_step = vec![TraversalValue::SingleEdge(edge)];
        assert(self.current() =~= seq![StepModel::SingleEdge(em)]);
        Ok(())
    }

    /// For each node of the current step, the nodes that are both a sink of
    /// one of its out-edges and a source of one of its in-edges whose label is
    /// `edge_label` (any label when it is empty), each once.
    pub fn mutual(&mut self, txn: &RoTxn, edge_label: &str) -> (r: Result<(), GraphError>)
        ensures
            final(self).storage == old(self).storage,
            if node_guard(old(self).current()) && node_sources(old(self).current()) {
                r is Ok && final(self).current() == navigate(
                    txn.model(),
                    edge_label@,
                    NodeStep::Mutual,
                    old(self).current(),
                )
            } else {
                r matches Err(e) && e is TraversalError && final(self).current() == old(
                    self,
                ).current()
            },
    {
        self.navigate_from_nodes(txn, edge_label, NodeStep::Mutual, "mutual")
    }

    /// For each node of the current step, the sink nodes of the out-edges whose label is
    /// `edge_label` (any label when it is empty).
    pub fn out(&mut self, txn: &RoTxn, edge_label: &str) -> (r: Result<(), GraphError>)
        ensures
            final(self).storage == old(self).storage,
            if node_guard(old(self).current()) && node_sources(old(self).current()) {
                r is Ok && final(self).current() == navigate(
                    txn.model(),
                    edge_label@,
                    NodeStep::Out,
                    old(self).current(),
                )
            } else {
                r matches Err(e) && e is TraversalError && final(self).current() == old(
                    self,
                ).current()
            },
    {
        self.navigate_from_nodes(txn, edge_label, NodeStep::Out, "out")
    }

    /// For each node of the current step, the out-edges whose label is
    /// `edge_label` (any label when it is empty).
    pub fn out_e(&mut self, txn: &RoTxn, edge_label: &str) -> (r: Result<(), GraphError>)
        ensures
            final(self).storage == old(self).storage,
            if node_guard(old(self).current()) && node_sources(old(self).current()) {
                r is Ok && final(self).current() == navigate(
                    txn.model(),
                    edge_label@,
                    NodeStep::OutE,
                    old(self).current(),
                )
            } else {
                r matches Err(e) && e is TraversalError && final(self).current() == old(
                    self,
                ).current()
            },
    {
        self.navigate_from_nodes(txn, edge_label, NodeStep::OutE, "out_e")
    }

    /// For each node of the current step, the source nodes of the in-edges whose label is
    /// `edge_label` (any label when it is empty).
    pub fn in_(&mut self, txn: &RoTxn, edge_label: &str) -> (r: Result<(), GraphError>)
        ensures
            final(self).storage == old(self).storage,
            if node_guard(old(self).current()) && node_sources(old(self).current()) {
                r is Ok && final(self).current() == navigate(
                    txn.model(),
                    edge_label@,
                    NodeStep::In,
                    old(self).current(),
                )
            } else {
                r matches Err(e) && e is TraversalError && final(self).current() == old(
                    self,
                ).current()
            },
    {
        self.navigate_from_nodes(txn, edge_label, NodeStep::In, "in_")
    }

    /// For each node of the current step, the in-edges whose label is
    /// `edge_label` (any label when it is empty).
    pub fn in_e(&mut self, txn: &RoTxn, edge_label: &str) -> (r: Result<(), GraphError>)
        ensures
            final(self).storage == old(self).storage,
            if node_guard(old(self).current()) && node_sources(old(self).current()) {
                r is Ok && final(self).current() == navigate(
                    txn.model(),
                    edge_label@,
                    NodeStep::InE,
                    old(self).current(),
                )
            } else {
                r matches Err(e) && e is TraversalError && final(self).current() == old(
                    self,
                ).current()
            },
    {
        self.navigate_from_nodes(txn, edge_label, NodeStep::InE, "in_e")
    }

    /// For each node of the current step, the source nodes of the in-edges, then the sink nodes of the out-edges whose label is
    /// `edge_label` (any label when it is empty).
    pub fn both(&mut self, txn: &RoTxn, edge_label: &str) -> (r: Result<(), GraphError>)
        ensures
            final(self).storage == old(self).storage,
            if node_guard(old(self).current()) && node_sources(old(self).current()) {
                r is Ok && final(self).current() == navigate(
                    txn.model(),
                    edge_label@,
                    NodeStep::Both,
                    old(self).current(),
                )
            } else {
                r matches Err(e) && e is TraversalError && final(self).current() == old(
                    self,
                ).current()
            },
    {
        self.navigate_from_nodes(txn, edge_label, NodeStep::Both, "both")
    }

    /// For each node of the current step, the in-edges, then the out-edges whose label is
    /// `edge_label` (any label when it is empty).
    pub fn both_e(&mut self, txn: &RoTxn, edge_label: &str) -> (r: Result<(), GraphError>)
        ensures
            final(self).storage == old(self).storage,
            if node_guard(old(self).current()) && node_sources(old(self).current()) {
                r is Ok && final(self).current() == navigate(
                    txn.model(),
                    edge_label@,
                    NodeStep::BothE,
                    old(self).current(),
                )
            } else {
                r matches Err(e) && e is TraversalError && final(self).current() == old(
                    self,
                ).current()
            },
    {
        self.navigate_from_nodes(txn, edge_label, NodeStep::BothE, "both_e")
    }

    /// Whether every value of the current step holds edges or is `Empty`.
    fn holds_edges_only(&self) -> (r: bool)
        ensures
            r == edge_sources(self.current()),
    {
        let mut i: usize = 0;
        while i < self.current_step.len()
            invariant
                i <= self.current_step@.len(),
                forall|j: int|
                    0 <= j < i ==> (self.current()[j] is SingleEdge || self.current()[j] is EdgeArray
                        || self.current()[j] is Empty),
            decreases self.current_step@.len() - i,
        {
            assert(self.current()[i as int] == self.current_step@[i as int].model());
            match &self.current_step[i] {
                TraversalValue::SingleEdge(_) => {},
                TraversalValue::EdgeArray(_) => {},
                TraversalValue::Empty => {},
                _ => {
                    return false;
                },
            }
            i = i + 1;
        }
        true
    }

    /// What `kind` produces for edge `e`.
    fn step_from_edge(&self, txn: &RoTxn, kind: EdgeStep, e: &Edge) -> (r: Result<
        Vec<TraversalValue>,
        GraphError,
    >)
        ensures
            match edge_step(txn.model(), kind, e.model()) {
                Some(ss) => r matches Ok(v) && steps_model(v@) == ss,
                None => r matches Err(err) && err is NodeNotFound,
            },
    {
        let mut out: Vec<TraversalValue> = Vec::new();
        match kind {
            EdgeStep::OutV => {
                let n = self.storage.get_node(txn, e.from_node.as_str())?;
                out.push(TraversalValue::SingleNode(n));
            },
            EdgeStep::InV => {
                let n = self.storage.get_node(txn, e.to_node.as_str())?;
                out.push(TraversalValue::SingleNode(n));
            },
            EdgeStep::BothV => {
                let sink = self.storage.get_node(txn, e.to_node.as_str())?;
                let source = self.storage.get_node(txn, e.from_node.as_str())?;
                let pair = vec![sink, source];
                assert(nodes_model(pair@) =~= seq![pair@[0].model(), pair@[1].model()]);
                out.push(TraversalValue::NodeArray(pair));
            },
        }
        assert(steps_model(out@) =~= edge_step(txn.model(), kind, e.model())->0);
        Ok(out)
    }

    /// Applies an edge step element-wise, after the edge-source guard.
    fn navigate_from_edges(&mut self, txn: &RoTxn, kind: EdgeStep, name: &str) -> (r: Result<
        (),
        GraphError,
    >)
        ensures
            final(self).storage == old(self).storage,
            if edge_guard(old(self).current()) && edge_sources(old(self).current()) {
                match navigate_edges(txn.model(), kind, old(self).current()) {
                    Some(ss) => r is Ok && final(self).current() == ss,
                    None => r matches Err(e) && e is NodeNotFound && final(self).current() == old(
                        self,
                    ).current(),
                }
            } else {
                r matches Err(e) && e is TraversalError && final(self).current() == old(
                    self,
                ).current()
            },
    {
        self.check_is_valid_edge_traversal(name)?;
        if !self.holds_edges_only() {
            return Err(GraphError::TraversalError(name.to_owned()));
        }
        let ghost sm = self.current();
        let ghost m = txn.model();
        let mut out: Vec<TraversalValue> = Vec::new();
        let mut i: usize = 0;
        assert(steps_model(out@) =~= Seq::<StepModel>::empty());
        assert(sm.subrange(0, 0) =~= Seq::<StepModel>::empty());
        while i < self.current_step.len()
            invariant
                i <= self.current_step@.len(),
                sm == self.current(),
                m == txn.model(),
                edge_guard(sm),
                edge_sources(sm),
                navigate_edges(m, kind, sm.subrange(0, i as int)) == Some(steps_model(out@)),
                forall|j: int| 0 <= j < i ==> (sm[j] is SingleEdge || sm[j] is EdgeArray || sm[j] is Empty),
            decreases self.current_step@.len() - i,
        {
            assert(sm.subrange(0, i + 1).drop_last() =~= sm.subrange(0, i as int));
            assert(sm[i as int] == self.current_step@[i as int].model());
            match &self.current_step[i] {
                TraversalValue::SingleEdge(e) => {
                    match self.step_from_edge(txn, kind, e) {
                        Ok(more) => append_steps(&mut out, more),
                        Err(err) => {
                            proof {
                                assert(sm.subrange(0, i + 1).last() == sm[i as int]);
                                assert(navigate_edges(m, kind, sm.subrange(0, i + 1)) is None);
                                lemma_navigate_edges_fails(m, kind, sm, i + 1);
                            }
                            return Err(err);
                        },
                    }
                },
                TraversalValue::EdgeArray(es) => {
                    let ghost em = edges_model(es@);
                    let mut k: usize = 0;
                    let ghost base = steps_model(out@);
                    assert(em.subrange(0, 0) =~= Seq::<EdgeModel>::empty());
                    assert(base =~= base + Seq::<StepModel>::empty());
                    while k < es.len()
                        invariant
                            k <= es@.len(),
                            em == edges_model(es@),
                            m == txn.model(),
                            i < self.current_step@.len(),
                            sm == self.current(),
                            sm[i as int] == StepModel::EdgeArray(em),
                            edge_guard(sm),
                            edge_sources(sm),
                            sm.subrange(0, i + 1).drop_last() == sm.subrange(0, i as int),
                            navigate_edges(m, kind, sm.subrange(0, i as int)) == Some(base),
                            expand_edges(m, kind, em.subrange(0, k as int)) matches Some(x)
                                && steps_model(out@) == base + x,
                        decreases es@.len() - k,
                    {
                        assert(em.subrange(0, k + 1).drop_last() =~= em.subrange(0, k as int));
                        match self.step_from_edge(txn, kind, &es[k]) {
                            Ok(more) => {
                                let ghost x = expand_edges(m, kind, em.subrange(0, k as int))->0;
                                append_steps(&mut out, more);
                                assert(steps_model(out@) =~= base + (x + steps_model(more@)));
                            },
                            Err(err) => {
                                proof {
                                    lemma_expand_edges_fails(m, kind, em, k + 1);
                                    assert(sm.subrange(0, i + 1).last() == sm[i as int]);
                                    assert(navigate_edges(m, kind, sm.subrange(0, i + 1)) is None);
                                    lemma_navigate_edges_fails(m, kind, sm, i + 1);
                                }
                                return Err(err);
                            },
                        }
                        k = k + 1;
                    }
                    assert(em.subrange(0, k as int) =~= em);
                    assert(steps_model(out@) =~= steps_model(out@));
                },
                TraversalValue::Empty => {
                    assert(steps_model(out@) =~= steps_model(out@) + Seq::<StepModel>::empty());
                },
                _ => {
                    return Err(GraphError::TraversalError(name.to_owned()));
                },
            }
            i = i + 1;
        }
        assert(sm.subrange(0, i as int) =~= sm);
        self.current_step = out;
        Ok(())
    }

    /// The source node of each edge of the current step.
    pub fn out_v(&mut self, txn: &RoTxn) -> (r: Result<(), GraphError>)
        ensures
            final(self).storage == old(self).storage,
            if edge_guard(old(self).current()) && edge_sources(old(self).current()) {
                match navigate_edges(txn.model(), EdgeStep::OutV, old(self).current()) {
                    Some(ss) => r is Ok && final(self).current() == ss,
                    None => r matches Err(e) && e is NodeNotFound && final(self).current() == old(
                        self,
                    ).current(),
                }
            } else {
                r matches Err(e) && e is TraversalError && final(self).current() == old(
                    self,
                ).current()
            },
    {
        self.navigate_from_edges(txn, EdgeStep::OutV, "out_v")
    }

    /// The sink node of each edge of the current step.
    pub fn in_v(&mut self, txn: &RoTxn) -> (r: Result<(), GraphError>)
        ensures
            final(self).storage == old(self).storage,
            if edge_guard(old(self).current()) && edge_sources(old(self).current()) {
                match navigate_edges(txn.model(), EdgeStep::InV, old(self).current()) {
                    Some(ss) => r is Ok && final(self).current() == ss,
                    None => r matches Err(e) && e is NodeNotFound && final(self).current() == old(
                        self,
                    ).current(),
                }
            } else {
                r matches Err(e) && e is TraversalError && final(self).current() == old(
                    self,
                ).current()
            },
    {
        self.navigate_from_edges(txn, EdgeStep::InV, "in_v")
    }

    /// For each edge of the current step, its sink and source nodes.
    pub fn both_v(&mut self, txn: &RoTxn) -> (r: Result<(), GraphError>)
        ensures
            final(self).storage == old(self).storage,
            if edge_guard(old(self).current()) && edge_sources(old(self).current()) {
                match navigate_edges(txn.model(), EdgeStep::BothV, old(self).current()) {
                    Some(ss) => r is Ok && final(self).current() == ss,
                    None => r matches Err(e) && e is NodeNotFound && final(self).current() == old(
                        self,
                    ).current(),
                }
            } else {
                r matches Err(e) && e is TraversalError && final(self).current() == old(
                    self,
                ).current()
            },
    {
        self.navigate_from_edges(txn, EdgeStep::BothV, "both_v")
    }

    /// Replaces the current step with the number of items of its flattened
    /// stream.
    pub fn count(&mut self) -> (r: Result<(), GraphError>)
        ensures
            final(self).storage == old(self).storage,
            r is Ok,
            final(self).current() == seq![StepModel::Count(flatten(old(self).current()).len())],
    {
        let flat = flatten_values(&self.current_step);
        let n = flat.len();
        self.current_step = vec![TraversalValue::Count(Count::new(n))];
        assert(self.current() =~= seq![StepModel::Count(n as nat)]);
        Ok(())
    }

    /// Keeps the `start..end` slice of the flattened stream, `end` clamped to
    /// its length. An empty stream is left as it is.
    pub fn range(&mut self, start: usize, end: usize) -> (r: Result<(), GraphError>)
        ensures
            final(self).storage == old(self).storage,
            r is Ok,
            final(self).current() == range_step(old(self).current(), start as int, end as int),
    {
        let mut flat = flatten_values(&self.current_step);
        if flat.len() == 0 {
            return Ok(());
        }
        let e = if end < flat.len() {
            end
        } else {
            flat.len()
        };
        let b = if start < e {
            start
        } else {
            e
        };
        let ghost fm = steps_model(flat@);
        flat.truncate(e);
        let kept = flat.split_off(b);
        assert(steps_model(kept@) =~= fm.subrange(b as int, e as int));
        self.current_step = kept;
        Ok(())
    }

    /// Keeps the nodes of the flattened stream for which `predicate` holds;
    /// other items are dropped. A predicate error ends the step with
    /// `TraversalError`, leaving the current step as it was.
    pub fn filter_nodes<F>(&mut self, predicate: F) -> (r: Result<(), GraphError>) where
        F: Fn(&Node) -> Result<bool, GraphError>,

        requires
            forall|n: &Node| #[trigger] predicate.requires((n,)),
        ensures
            final(self).storage == old(self).storage,
            ({
                let ns = node_items(flatten(old(self).current()));
                match r {
                    Ok(()) => exists|keep: Seq<bool>, seen: Seq<Node>|
                        {
                            &&& keep.len() == ns.len()
                            &&& seen.len() == ns.len()
                            &&& final(self).current() == select_nodes(ns, keep)
                            &&& forall|i: int|
                                0 <= i < ns.len() ==> #[trigger] seen[i].model() == ns[i]
                                    && predicate.ensures((&seen[i],), Ok(keep[i]))
                        },
                    Err(e) => e is TraversalError && final(self).current() == old(self).current()
                        && exists|x: &Node, g: GraphError| predicate.ensures((x,), Err(g)),
                }
            }),
    {
        let flat = flatten_values(&self.current_step);
        let ghost fm = steps_model(flat@);
        let ghost mut keep: Seq<bool> = Seq::empty();
        let ghost mut called: Seq<Node> = Seq::empty();
        let ghost mut got: Seq<NodeModel> = Seq::empty();
        let mut out: Vec<TraversalValue> = Vec::new();
        let mut i: usize = 0;
        assert(fm.subrange(0, 0) =~= Seq::<StepModel>::empty());
        assert(steps_model(out@) =~= Seq::<StepModel>::empty());
        while i < flat.len()
            invariant
                i <= flat@.len(),
                fm == steps_model(flat@),
                forall|n: &Node| #[trigger] predicate.requires((n,)),
                keep.len() == node_items(fm.subrange(0, i as int)).len(),
                called.len() == keep.len(),
                steps_model(out@) == select_nodes(node_items(fm.subrange(0, i as int)), keep),
                got == node_items(fm.subrange(0, i as int)),
                forall|j: int|
                    0 <= j < keep.len() ==> (#[trigger] called[j]).model() == got[j]
                        && predicate.ensures((&called[j],), Ok(keep[j])),
            decreases flat@.len() - i,
        {
            let ghost seen = node_items(fm.subrange(0, i as int));
            assert(fm.subrange(0, i + 1).drop_last() =~= fm.subrange(0, i as int));
            assert(fm[i as int] == flat@[i as int].model());
            match &flat[i] {
                TraversalValue::SingleNode(n) => {
                    let verdict = predicate(n);
                    match verdict {
                        Ok(b) => {
                            proof {
                                let now = node_items(fm.subrange(0, i + 1));
                                assert(now == seen.push(n.model()));
                                let nk = keep.push(b);
                                let nc = called.push(*n);
                                assert(nk.drop_last() =~= keep);
                                assert(now.drop_last() =~= seen);
                                assert forall|j: int| 0 <= j < nk.len() implies #[trigger] nc[j].model()
                                    == now[j] && predicate.ensures((&nc[j],), Ok(nk[j])) by {
                                    if j < keep.len() {
                                        assert(now[j] == seen[j]);
                                        assert(nk[j] == keep[j]);
                                        assert(nc[j] == called[j]);
                                        assert(called[j].model() == seen[j]);
                                        assert(predicate.ensures((&called[j],), Ok(keep[j])));
                                    } else {
                                        assert(now[j] == n.model());
                                        assert(nc[j] == *n);
                                        assert(nk[j] == b);
                                        assert(predicate.ensures((n,), Ok(b)));
                                    }
                                }
                                keep = nk;
                                called = nc;
                                got = now;
                            }
                            if b {
                                out.push(TraversalValue::SingleNode(n.duplicate()));
                            }
                        },
                        Err(g) => {
                            assert(predicate.ensures((n,), Err(g)));
                            return Err(GraphError::TraversalError("filter_nodes".to_owned()));
                        },
                    }
                },
                _ => {
                    assert(node_items(fm.subrange(0, i + 1)) == seen);
                },
            }
            i = i + 1;
        }
        assert(fm.subrange(0, i as int) =~= fm);
        self.current_step = out;
        proof {
            let ns = node_items(fm);
            assert(keep.len() == ns.len());
            assert(self.current() == select_nodes(ns, keep));
            assert(called.len() == ns.len());
        }
        Ok(())
    }

    /// Keeps the edges of the flattened stream for which `predicate` holds;
    /// other items are dropped. A predicate error ends the step with
    /// `TraversalError`, leaving the current step as it was.
    pub fn filter_edges<F>(&mut self, predicate: F) -> (r: Result<(), GraphError>) where
        F: Fn(&Edge) -> Result<bool, GraphError>,

        requires
            forall|e: &Edge| #[trigger] predicate.requires((e,)),
        ensures
            final(self).storage == old(self).storage,
            ({
                let ns = edge_items(flatten(old(self).current()));
                match r {
                    Ok(()) => exists|keep: Seq<bool>, seen: Seq<Edge>|
                        {
                            &&& keep.len() == ns.len()
                            &&& seen.len() == ns.len()
                            &&& final(self).current() == select_edges(ns, keep)
                            &&& forall|i: int|
                                0 <= i < ns.len() ==> #[trigger] seen[i].model() == ns[i]
                                    && predicate.ensures((&seen[i],), Ok(keep[i]))
                        },
                    Err(e) => e is TraversalError && final(self).current() == old(self).current()
                        && exists|x: &Edge, g: GraphError| predicate.ensures((x,), Err(g)),
                }
            }),
    {
        let flat = flatten_values(&self.current_step);
        let ghost fm = steps_model(flat@);
        let ghost mut keep: Seq<bool> = Seq::empty();
        let ghost mut called: Seq<Edge> = Seq::empty();
        let ghost mut got: Seq<EdgeModel> = Seq::empty();
        let mut out: Vec<TraversalValue> = Vec::new();
        let mut i: usize = 0;
        assert(fm.subrange(0, 0) =~= Seq::<StepModel>::empty());
        assert(steps_model(out@) =~= Seq::<StepModel>::empty());
        while i < flat.len()
            invariant
                i <= flat@.len(),
                fm == steps_model(flat@),
                forall|e: &Edge| #[trigger] predicate.requires((e,)),
                keep.len() == edge_items(fm.subrange(0, i as int)).len(),
                called.len() == keep.len(),
                steps_model(out@) == select_edges(edge_items(fm.subrange(0, i as int)), keep),
                got == edge_items(fm.subrange(0, i as int)),
                forall|j: int|
                    0 <= j < keep.len() ==> (#[trigger] called[j]).model() == got[j]
                        && predicate.ensures((&called[j],), Ok(keep[j])),
            decreases flat@.len() - i,
        {
            let ghost seen = edge_items(fm.subrange(0, i as int));
            assert(fm.subrange(0, i + 1).drop_last() =~= fm.subrange(0, i as int));
            assert(fm[i as int] == flat@[i as int].model());
            match &flat[i] {
                TraversalValue::SingleEdge(n) => {
                    let verdict = predicate(n);
                    match verdict {
                        Ok(b) => {
                            proof {
                                let now = edge_items(fm.subrange(0, i + 1));
                                assert(now == seen.push(n.model()));
                                let nk = keep.push(b);
                                let nc = called.push(*n);
                                assert(nk.drop_last() =~= keep);
                                assert(now.drop_last() =~= seen);
                                assert forall|j: int| 0 <= j < nk.len() implies #[trigger] nc[j].model()
                                    == now[j] && predicate.ensures((&nc[j],), Ok(nk[j])) by {
                                    if j < keep.len() {
                                        assert(now[j] == seen[j]);
                                        assert(nk[j] == keep[j]);
                                        assert(nc[j] == called[j]);
                                        assert(called[j].model() == seen[j]);
                                        assert(predicate.ensures((&called[j],), Ok(keep[j])));
                                    } else {
                                        assert(now[j] == n.model());
                                        assert(nc[j] == *n);
                                        assert(nk[j] == b);
                                        assert(predicate.ensures((n,), Ok(b)));
                                    }
                                }
                                keep = nk;
                                called = nc;
                                got = now;
                            }
                            if b {
                                out.push(TraversalValue::SingleEdge(n.duplicate()));
                            }
                        },
                        Err(g) => {
                            assert(predicate.ensures((n,), Err(g)));
                            return Err(GraphError::TraversalError("filter_edges".to_owned()));
                        },
                    }
                },
                _ => {
                    assert(edge_items(fm.subrange(0, i + 1)) == seen);
                },
            }
            i = i + 1;
        }
        assert(fm.subrange(0, i as int) =~= fm);
        self.current_step = out;
        proof {
            let ns = edge_items(fm);
            assert(keep.len() == ns.len());
            assert(self.current() == select_edges(ns, keep));
            assert(called.len() == ns.len());
        }
        Ok(())
    }

    /// For each node and edge of the flattened stream, and each key of
    /// `keys` that it holds, in that order, the key with its value.
    pub fn get_properties(&mut self, keys: &Vec<String>) -> (r: Result<(), GraphError>)
        ensures
            final(self).storage == old(self).storage,
            r is Ok,
            final(self).current() == properties_step(
                flatten(old(self).current()),
                Seq::new(keys@.len(), |i: int| keys@[i]@),
            ),
    {
        let ghost km = Seq::new(keys@.len(), |i: int| keys@[i]@);
        let flat = flatten_values(&self.current_step);
        let ghost fm = steps_model(flat@);
        let mut out: Vec<TraversalValue> = Vec::new();
        let mut i: usize = 0;
        assert(fm.subrange(0, 0) =~= Seq::<StepModel>::empty());
        assert(steps_model(out@) =~= Seq::<StepModel>::empty());
        while i < flat.len()
            invariant
                i <= flat@.len(),
                fm == steps_model(flat@),
                km == Seq::new(keys@.len(), |i: int| keys@[i]@),
                steps_model(out@) == properties_step(fm.subrange(0, i as int), km),
            decreases flat@.len() - i,
        {
            assert(fm.subrange(0, i + 1).drop_last() =~= fm.subrange(0, i as int));
            assert(fm[i as int] == flat@[i as int].model());
            match &flat[i] {
                TraversalValue::SingleNode(n) => {
                    let more = values_for_keys(&n.properties, keys);
                    append_steps(&mut out, more);
                },
                TraversalValue::SingleEdge(e) => {
                    let more = values_for_keys(&e.properties, keys);
                    append_steps(&mut out, more);
                },
                _ => {
                    assert(steps_model(out@) =~= properties_step(fm.subrange(0, i + 1), km));
                },
            }
            i = i + 1;
        }
        assert(fm.subrange(0, i as int) =~= fm);
        self.current_step = out;
        Ok(())
    }

    /// The shortest path from `from_id` to `to_id`: the current step becomes
    /// its nodes and its edges, both end-first (see `path_found`).
    pub fn shortest_path_between(&mut self, txn: &RoTxn, from_id: &str, to_id: &str) -> (r: Result<
        (),
        GraphError,
    >)
        ensures
            final(self).storage == old(self).storage,
            match r {
                Ok(()) => exists|ns: Seq<NodeModel>, es: Seq<EdgeModel>|
                    {
                        &&& final(self).current() == seq![
                            StepModel::NodeArray(ns),
                            StepModel::EdgeArray(es),
                        ]
                        &&& path_found(
                            txn.model(),
                            encode_utf8(from_id@),
                            encode_utf8(to_id@),
                            ns,
                            es,
                        )
                    },
                Err(e) => final(self).current() == old(self).current() && path_failure(
                    txn.model(),
                    encode_utf8(from_id@),
                    encode_utf8(to_id@),
                    e,
                ),
            },
    {
        let (nodes, edges) = self.storage.shortest_path(txn, from_id, to_id)?;
        let ghost nm = nodes_model(nodes@);
        let ghost em = edges_model(edges@);
        self.current_step = vec![TraversalValue::NodeArray(nodes), TraversalValue::EdgeArray(edges)];
        assert(self.current() =~= seq![StepModel::NodeArray(nm), StepModel::EdgeArray(em)]);
        Ok(())
    }

    /// The id of the first node the current step holds.
    fn first_node_id(&self, name: &str) -> (r: Result<String, GraphError>)
        ensures
            match first_node(self.current()) {
                Some(n) => r matches Ok(id) && id@ == n.id,
                None => r matches Err(e) && e is TraversalError,
            },
    {
        if self.current_step.len() > 0 {
            assert(self.current()[0] == self.current_step@[0].model());
            match &self.current_step[0] {
                TraversalValue::SingleNode(n) => {
                    return Ok(n.id.clone());
                },
                TraversalValue::NodeArray(ns) => {
                    if ns.len() > 0 {
                        assert(nodes_model(ns@)[0] == ns@[0].model());
                        return Ok(ns[0].id.clone());
                    }
                },
                _ => {},
            }
        }
        Err(GraphError::TraversalError(name.to_owned()))
    }

    /// The shortest path from the current node to `to_id`.
    pub fn shortest_path_to(&mut self, txn: &RoTxn, to_id: &str) -> (r: Result<(), GraphError>)
        ensures
            final(self).storage == old(self).storage,
            match first_node(old(self).current()) {
                None => r matches Err(e) && e is TraversalError && final(self).current() == old(
                    self,
                ).current(),
                Some(n) => match r {
                    Ok(()) => exists|ns: Seq<NodeModel>, es: Seq<EdgeModel>|
                        {
                            &&& final(self).current() == seq![
                                StepModel::NodeArray(ns),
                                StepModel::EdgeArray(es),
                            ]
                            &&& path_found(
                                txn.model(),
                                encode_utf8(n.id),
                                encode_utf8(to_id@),
                                ns,
                                es,
                            )
                        },
                    Err(e) => final(self).current() == old(self).current() && path_failure(
                        txn.model(),
                        encode_utf8(n.id),
                        encode_utf8(to_id@),
                        e,
                    ),
                },
            },
    {
        let from = self.first_node_id("shortest_path_to")?;
        self.shortest_path_between(txn, from.as_str(), to_id)
    }

    /// The shortest path from `from_id` to the current node.
    pub fn shortest_path_from(&mut self, txn: &RoTxn, from_id: &str) -> (r: Result<(), GraphError>)
        ensures
            final(self).storage == old(self).storage,
            match first_node(old(self).current()) {
                None => r matches Err(e) && e is TraversalError && final(self).current() == old(
                    self,
                ).current(),
                Some(n) => match r {
                    Ok(()) => exists|ns: Seq<NodeModel>, es: Seq<EdgeModel>|
                        {
                            &&& final(self).current() == seq![
                                StepModel::NodeArray(ns),
                                StepModel::EdgeArray(es),
                            ]
                            &&& path_found(
                                txn.model(),
                                encode_utf8(from_id@),
                                encode_utf8(n.id),
                                ns,
                                es,
                            )
                        },
                    Err(e) => final(self).current() == old(self).current() && path_failure(
                        txn.model(),
                        encode_utf8(from_id@),
                        encode_utf8(n.id),
                        e,
                    ),
                },
            },
    {
        let to = self.first_node_id("shortest_path_from")?;
        self.shortest_path_between(txn, from_id, to.as_str())
    }

    /// The value this traversal hands back; see `collapse`.
    pub fn collapse_step(self) -> (r: Result<TraversalValue, GraphError>)
        ensures
            match collapse(self.current()) {
                Some(v) => r matches Ok(t) && t.model() == v,
                None => r matches Err(e) && e is TraversalError,
            },
    {
        let sm = Ghost(self.current());
        let mut steps = self.current_step;
        if steps.len() == 0 {
            return Ok(TraversalValue::Empty);
        }
        if steps.len() == 1 {
            let v = steps.pop().unwrap();
            assert(v.model() == sm@[0]);
            return Ok(v);
        }
        let flat = flatten_values(&steps);
        let ghost fm = steps_model(flat@);
        let mut nodes: Vec<Node> = Vec::new();
        let mut edges: Vec<Edge> = Vec::new();
        let mut i: usize = 0;
        assert(fm.subrange(0, 0) =~= Seq::<StepModel>::empty());
        assert(nodes_model(nodes@) =~= Seq::<NodeModel>::empty());
        assert(edges_model(edges@) =~= Seq::<EdgeModel>::empty());
        while i < flat.len()
            invariant
                i <= flat@.len(),
                fm == steps_model(flat@),
                nodes_model(nodes@) == node_items(fm.subrange(0, i as int)),
                edges_model(edges@) == edge_items(fm.subrange(0, i as int)),
                node_items(fm.subrange(0, i as int)).len() + edge_items(fm.subrange(0, i as int)).len() <= i,
            decreases flat@.len() - i,
        {
            assert(fm.subrange(0, i + 1).drop_last() =~= fm.subrange(0, i as int));
            assert(fm[i as int] == flat@[i as int].model());
            match &flat[i] {
                TraversalValue::SingleNode(n) => {
                    let ghost before = nodes_model(nodes@);
                    nodes.push(n.duplicate());
                    assert(nodes_model(nodes@) =~= before.push(n.model()));
                },
                TraversalValue::SingleEdge(e) => {
                    let ghost before = edges_model(edges@);
                    edges.push(e.duplicate());
                    assert(edges_model(edges@) =~= before.push(e.model()));
                },
                _ => {},
            }
            i = i + 1;
        }
        assert(fm.subrange(0, i as int) =~= fm);
        if nodes.len() == flat.len() {
            Ok(TraversalValue::NodeArray(nodes))
        } else if edges.len() == flat.len() {
            Ok(TraversalValue::EdgeArray(edges))
        } else {
            Err(GraphError::TraversalError("result".to_owned()))
        }
    }

    /// What `update_props` does to one item.
    fn update_one(&self, txn: &mut RwTxn, item: &TraversalValue, props: &Vec<(String, Value)>) -> (r:
        Result<TraversalValue, GraphError>)
        ensures
            final(txn).base == old(txn).base,
            match update_item(old(txn).model(), item.model(), props_model(props@)) {
                Some((m2, v)) => r matches Ok(t) && t.model() == v && final(txn).model() == m2,
                None => r is Err,
            },
            well_formed(old(txn).model()) ==> well_formed(final(txn).model()),
    {
        match item {
            TraversalValue::SingleNode(n) => {
                let u = self.storage.update_node_props(
                    txn,
                    n.id.as_str(),
                    crate::value::duplicate_props(props),
                )?;
                Ok(TraversalValue::SingleNode(u))
            },
            TraversalValue::SingleEdge(e) => {
                let u = self.storage.update_edge_props(
                    txn,
                    e.id.as_str(),
                    crate::value::duplicate_props(props),
                )?;
                Ok(TraversalValue::SingleEdge(u))
            },
            _ => Ok(item.duplicate()),
        }
    }

    /// Merges `props` into every node and edge of the flattened stream, each
    /// key set or overwritten, and re-stores them; the current step becomes
    /// the updated records, other items kept in place. On an error the write
    /// transaction should be dropped.
    pub fn update_props(&mut self, txn: &mut RwTxn, props: Vec<(String, Value)>) -> (r: Result<
        (),
        GraphError,
    >)
        ensures
            final(txn).base == old(txn).base,
            final(self).storage == old(self).storage,
            match update_step(
                old(txn).model(),
                flatten(old(self).current()),
                props_model(props@),
            ) {
                Some((m2, out)) => r is Ok && final(txn).model() == m2 && final(self).current()
                    == out,
                None => r is Err && final(self).current() == old(self).current(),
            },
            well_formed(old(txn).model()) ==> well_formed(final(txn).model()),
    {
        let ghost m0 = txn.model();
        let ghost pm = props_model(props@);
        let flat = flatten_values(&self.current_step);
        let ghost fm = steps_model(flat@);
        let mut out: Vec<TraversalValue> = Vec::new();
        let mut i: usize = 0;
        assert(fm.subrange(0, 0) =~= Seq::<StepModel>::empty());
        assert(steps_model(out@) =~= Seq::<StepModel>::empty());
        while i < flat.len()
            invariant
                i <= flat@.len(),
                fm == steps_model(flat@),
                pm == props_model(props@),
                m0 == old(txn).model(),
                txn.base == old(txn).base,
                fm == flatten(old(self).current()),
                self.current() == old(self).current(),
                self.storage == old(self).storage,
                update_step(m0, fm.subrange(0, i as int), pm) == Some(
                    (txn.model(), steps_model(out@)),
                ),
                well_formed(m0) ==> well_formed(txn.model()),
            decreases flat@.len() - i,
        {
            assert(fm.subrange(0, i + 1).drop_last() =~= fm.subrange(0, i as int));
            assert(fm[i as int] == flat@[i as int].model());
            let ghost before = steps_model(out@);
            let ghost m1 = txn.model();
            match self.update_one(txn, &flat[i], &props) {
                Ok(v) => {
                    out.push(v);
                    assert(steps_model(out@) =~= before.push(v.model()));
                },
                Err(e) => {
                    proof {
                        assert(fm.subrange(0, i + 1).last() == fm[i as int]);
                        assert(update_item(m1, fm[i as int], pm) is None);
                        assert(update_step(m0, fm.subrange(0, i + 1), pm) is None);
                        lemma_update_step_fails(m0, fm, pm, i + 1);
                    }
                    return Err(e);
                },
            }
            i = i + 1;
        }
        assert(fm.subrange(0, i as int) =~= fm);
        self.current_step = out;
        Ok(())
    }

    /// Replaces each node of the flattened stream by what `map_fn` returns
    /// for it; other items stay. An error of `map_fn` ends the step with
    /// `TraversalError`, leaving the current step as it was.
    pub fn map_nodes<F>(&mut self, map_fn: F) -> (r: Result<(), GraphError>) where
        F: Fn(&Node) -> Result<Node, GraphError>,

        requires
            forall|n: &Node| #[trigger] map_fn.requires((n,)),
        ensures
            final(self).storage == old(self).storage,
            ({
                let f = flatten(old(self).current());
                let ns = node_items(f);
                match r {
                    Ok(()) => exists|given: Seq<Node>, got: Seq<Node>|
                        {
                            &&& given.len() == ns.len()
                            &&& got.len() == ns.len()
                            &&& final(self).current() == replace_nodes(
                                f,
                                Seq::new(got.len(), |i: int| got[i].model()),
                            )
                            &&& forall|i: int|
                                0 <= i < ns.len() ==> (#[trigger] given[i]).model() == ns[i]
                                    && map_fn.ensures((&given[i],), Ok(got[i]))
                        },
                    Err(e) => e is TraversalError && final(self).current() == old(self).current()
                        && exists|x: &Node, g: GraphError| map_fn.ensures((x,), Err(g)),
                }
            }),
    {
        let flat = flatten_values(&self.current_step);
        let ghost fm = steps_model(flat@);
        let ghost mut given: Seq<Node> = Seq::empty();
        let ghost mut got: Seq<Node> = Seq::empty();
        let mut out: Vec<TraversalValue> = Vec::new();
        let mut i: usize = 0;
        assert(fm.subrange(0, 0) =~= Seq::<StepModel>::empty());
        assert(steps_model(out@) =~= Seq::<StepModel>::empty());
        while i < flat.len()
            invariant
                i <= flat@.len(),
                fm == steps_model(flat@),
                fm == flatten(old(self).current()),
                self.current() == old(self).current(),
                self.storage == old(self).storage,
                forall|n: &Node| #[trigger] map_fn.requires((n,)),
                given.len() == node_items(fm.subrange(0, i as int)).len(),
                got.len() == given.len(),
                steps_model(out@) == replace_nodes(
                    fm.subrange(0, i as int),
                    Seq::new(got.len(), |k: int| got[k].model()),
                ),
                forall|k: int|
                    0 <= k < given.len() ==> (#[trigger] given[k]).model() == node_items(
                        fm.subrange(0, i as int),
                    )[k] && map_fn.ensures((&given[k],), Ok(got[k])),
            decreases flat@.len() - i,
        {
            let ghost seen = node_items(fm.subrange(0, i as int));
            let ghost gm = Seq::new(got.len(), |k: int| got[k].model());
            assert(fm.subrange(0, i + 1).drop_last() =~= fm.subrange(0, i as int));
            assert(fm[i as int] == flat@[i as int].model());
            let ghost before = steps_model(out@);
            match &flat[i] {
                TraversalValue::SingleNode(n) => {
                    match map_fn(n) {
                        Ok(m) => {
                            proof {
                                let now = node_items(fm.subrange(0, i + 1));
                                assert(now == seen.push(n.model()));
                                let ng = given.push(*n);
                                let nr = got.push(m);
                                assert(now.drop_last() =~= seen);
                                let nrm = Seq::new(nr.len(), |k: int| nr[k].model());
                                assert(nrm.drop_last() =~= gm);
                                assert forall|k: int| 0 <= k < ng.len() implies (#[trigger] ng[k]).model()
                                    == now[k] && map_fn.ensures((&ng[k],), Ok(nr[k])) by {
                                    if k < given.len() {
                                        assert(ng[k] == given[k] && nr[k] == got[k]);
                                        assert(given[k].model() == seen[k]);
                                        assert(now[k] == seen[k]);
                                    } else {
                                        assert(ng[k] == *n && nr[k] == m);
                                    }
                                }
                                given = ng;
                                got = nr;
                            }
                            out.push(TraversalValue::SingleNode(m));
                            assert(steps_model(out@) =~= replace_nodes(
                                fm.subrange(0, i + 1),
                                Seq::new(got.len(), |k: int| got[k].model()),
                            ));
                        },
                        Err(g) => {
                            assert(map_fn.ensures((n,), Err(g)));
                            return Err(GraphError::TraversalError("map_nodes".to_owned()));
                        },
                    }
                },
                other => {
                    assert(node_items(fm.subrange(0, i + 1)) == seen);
                    out.push(other.duplicate());
                    assert(steps_model(out@) =~= replace_nodes(fm.subrange(0, i + 1), gm));
                },
            }
            i = i + 1;
        }
        assert(fm.subrange(0, i as int) =~= fm);
        self.current_step = out;
        Ok(())
    }

    /// Calls `visit` on each node of the flattened stream, in order, and
    /// leaves the current step as it is; the first error of `visit` ends the
    /// step with `TraversalError`.
    pub fn for_each_node<F>(&mut self, visit: F) -> (r: Result<(), GraphError>) where
        F: Fn(&Node) -> Result<(), GraphError>,

        requires
            forall|n: &Node| #[trigger] visit.requires((n,)),
        ensures
            final(self).storage == old(self).storage,
            final(self).current() == old(self).current(),
            r is Ok ==> exists|given: Seq<Node>|
                #![trigger given.len()]
                {
                    &&& given.len() == node_items(flatten(old(self).current())).len()
                    &&& forall|i: int|
                        0 <= i < given.len() ==> (#[trigger] given[i]).model() == node_items(
                            flatten(old(self).current()),
                        )[i] && visit.ensures((&given[i],), Ok(()))
                },
            r matches Err(e) ==> e is TraversalError && exists|x: &Node, g: GraphError|
                visit.ensures((x,), Err(g)),
    {
        let flat = flatten_values(&self.current_step);
        let ghost fm = steps_model(flat@);
        let ghost mut given: Seq<Node> = Seq::empty();
        let mut i: usize = 0;
        assert(fm.subrange(0, 0) =~= Seq::<StepModel>::empty());
        while i < flat.len()
            invariant
                i <= flat@.len(),
                fm == steps_model(flat@),
                fm == flatten(old(self).current()),
                self.current() == old(self).current(),
                self.storage == old(self).storage,
                forall|n: &Node| #[trigger] visit.requires((n,)),
                given.len() == node_items(fm.subrange(0, i as int)).len(),
                forall|k: int|
                    0 <= k < given.len() ==> (#[trigger] given[k]).model() == node_items(
                        fm.subrange(0, i as int),
                    )[k] && visit.ensures((&given[k],), Ok(())),
            decreases flat@.len() - i,
        {
            let ghost seen = node_items(fm.subrange(0, i as int));
            assert(fm.subrange(0, i + 1).drop_last() =~= fm.subrange(0, i as int));
            assert(fm[i as int] == flat@[i as int].model());
            match &flat[i] {
                TraversalValue::SingleNode(n) => {
                    let verdict = visit(n);
                    match verdict {
                        Ok(u) => {
                            proof {
                                let now = node_items(fm.subrange(0, i + 1));
                                assert(now == seen.push(n.model()));
                                let ng = given.push(*n);
                                assert forall|k: int| 0 <= k < ng.len() implies (#[trigger] ng[k]).model()
                                    == now[k] && visit.ensures((&ng[k],), Ok(())) by {
                                    if k < given.len() {
                                        assert(ng[k] == given[k]);
                                        assert(given[k].model() == seen[k]);
                                        assert(now[k] == seen[k]);
                                        assert(visit.ensures((&given[k],), Ok(())));
                                    } else {
                                        assert(ng[k] == *n);
                                        assert(now[k] == n.model());
                                        assert(u == ());
                                        assert(verdict == Ok::<(), GraphError>(()));
                                        assert(visit.ensures((n,), verdict));
                                    }
                                }
                                given = ng;
                            }
                        },
                        Err(g) => {
                            assert(visit.ensures((n,), Err(g)));
                            return Err(GraphError::TraversalError("for_each_node".to_owned()));
                        },
                    }
                },
                _ => {
                    assert(node_items(fm.subrange(0, i + 1)) == seen);
                },
            }
            i = i + 1;
        }
        assert(fm.subrange(0, i as int) =~= fm);
        Ok(())
    }

    /// Replaces each edge of the flattened stream by what `map_fn` returns
    /// for it; other items stay. An error of `map_fn` ends the step with
    /// `TraversalError`, leaving the current step as it was.
    pub fn map_edges<F>(&mut self, map_fn: F) -> (r: Result<(), GraphError>) where
        F: Fn(&Edge) -> Result<Edge, GraphError>,

        requires
            forall|e: &Edge| #[trigger] map_fn.requires((e,)),
        ensures
            final(self).storage == old(self).storage,
            ({
                let f = flatten(old(self).current());
                let ns = edge_items(f);
                match r {
                    Ok(()) => exists|given: Seq<Edge>, got: Seq<Edge>|
                        {
                            &&& given.len() == ns.len()
                            &&& got.len() == ns.len()
                            &&& final(self).current() == replace_edges(
                                f,
                                Seq::new(got.len(), |i: int| got[i].model()),
                            )
                            &&& forall|i: int|
                                0 <= i < ns.len() ==> (#[trigger] given[i]).model() == ns[i]
                                    && map_fn.ensures((&given[i],), Ok(got[i]))
                        },
                    Err(e) => e is TraversalError && final(self).current() == old(self).current()
                        && exists|x: &Edge, g: GraphError| map_fn.ensures((x,), Err(g)),
                }
            }),
    {
        let flat = flatten_values(&self.current_step);
        let ghost fm = steps_model(flat@);
        let ghost mut given: Seq<Edge> = Seq::empty();
        let ghost mut got: Seq<Edge> = Seq::empty();
        let mut out: Vec<TraversalValue> = Vec::new();
        let mut i: usize = 0;
        assert(fm.subrange(0, 0) =~= Seq::<StepModel>::empty());
        assert(steps_model(out@) =~= Seq::<StepModel>::empty());
        while i < flat.len()
            invariant
                i <= flat@.len(),
                fm == steps_model(flat@),
                fm == flatten(old(self).current()),
                self.current() == old(self).current(),
                self.storage == old(self).storage,
                forall|e: &Edge| #[trigger] map_fn.requires((e,)),
                given.len() == edge_items(fm.subrange(0, i as int)).len(),
                got.len() == given.len(),
                steps_model(out@) == replace_edges(
                    fm.subrange(0, i as int),
                    Seq::new(got.len(), |k: int| got[k].model()),
                ),
                forall|k: int|
                    0 <= k < given.len() ==> (#[trigger] given[k]).model() == edge_items(
                        fm.subrange(0, i as int),
                    )[k] && map_fn.ensures((&given[k],), Ok(got[k])),
            decreases flat@.len() - i,
        {
            let ghost seen = edge_items(fm.subrange(0, i as int));
            let ghost gm = Seq::new(got.len(), |k: int| got[k].model());
            assert(fm.subrange(0, i + 1).drop_last() =~= fm.subrange(0, i as int));
            assert(fm[i as int] == flat@[i as int].model());
            let ghost before = steps_model(out@);
            match &flat[i] {
                TraversalValue::SingleEdge(n) => {
                    match map_fn(n) {
                        Ok(m) => {
                            proof {
                                let now = edge_items(fm.subrange(0, i + 1));
                                assert(now == seen.push(n.model()));
                                let ng = given.push(*n);
                                let nr = got.push(m);
                                assert(now.drop_last() =~= seen);
                                let nrm = Seq::new(nr.len(), |k: int| nr[k].model());
                                assert(nrm.drop_last() =~= gm);
                                assert forall|k: int| 0 <= k < ng.len() implies (#[trigger] ng[k]).model()
                                    == now[k] && map_fn.ensures((&ng[k],), Ok(nr[k])) by {
                                    if k < given.len() {
                                        assert(ng[k] == given[k] && nr[k] == got[k]);
                                        assert(given[k].model() == seen[k]);
                                        assert(now[k] == seen[k]);
                                    } else {
                                        assert(ng[k] == *n && nr[k] == m);
                                    }
                                }
                                given = ng;
                                got = nr;
                            }
                            out.push(TraversalValue::SingleEdge(m));
                            assert(steps_model(out@) =~= replace_edges(
                                fm.subrange(0, i + 1),
                                Seq::new(got.len(), |k: int| got[k].model()),
                            ));
                        },
                        Err(g) => {
                            assert(map_fn.ensures((n,), Err(g)));
                            return Err(GraphError::TraversalError("map_edges".to_owned()));
                        },
                    }
                },
                other => {
                    assert(edge_items(fm.subrange(0, i + 1)) == seen);
                    out.push(other.duplicate());
                    assert(steps_model(out@) =~= replace_edges(fm.subrange(0, i + 1), gm));
                },
            }
            i = i + 1;
        }
        assert(fm.subrange(0, i as int) =~= fm);
        self.current_step = out;
        Ok(())
    }

    /// Calls `visit` on each edge of the flattened stream, in order, and
    /// leaves the current step as it is; the first error of `visit` ends the
    /// step with `TraversalError`.
    pub fn for_each_edge<F>(&mut self, visit: F) -> (r: Result<(), GraphError>) where
        F: Fn(&Edge) -> Result<(), GraphError>,

        requires
            forall|e: &Edge| #[trigger] visit.requires((e,)),
        ensures
            final(self).storage == old(self).storage,
            final(self).current() == old(self).current(),
            r is Ok ==> exists|given: Seq<Edge>|
                #![trigger given.len()]
                {
                    &&& given.len() == edge_items(flatten(old(self).current())).len()
                    &&& forall|i: int|
                        0 <= i < given.len() ==> (#[trigger] given[i]).model() == edge_items(
                            flatten(old(self).current()),
                        )[i] && visit.ensures((&given[i],), Ok(()))
                },
            r matches Err(e) ==> e is TraversalError && exists|x: &Edge, g: GraphError|
                visit.ensures((x,), Err(g)),
    {
        let flat = flatten_values(&self.current_step);
        let ghost fm = steps_model(flat@);
        let ghost mut given: Seq<Edge> = Seq::empty();
        let mut i: usize = 0;
        assert(fm.subrange(0, 0) =~= Seq::<StepModel>::empty());
        while i < flat.len()
            invariant
                i <= flat@.len(),
                fm == steps_model(flat@),
                fm == flatten(old(self).current()),
                self.current() == old(self).current(),
                self.storage == old(self).storage,
                forall|e: &Edge| #[trigger] visit.requires((e,)),
                given.len() == edge_items(fm.subrange(0, i as int)).len(),
                forall|k: int|
                    0 <= k < given.len() ==> (#[trigger] given[k]).model() == edge_items(
                        fm.subrange(0, i as int),
                    )[k] && visit.ensures((&given[k],), Ok(())),
            decreases flat@.len() - i,
        {
            let ghost seen = edge_items(fm.subrange(0, i as int));
            assert(fm.subrange(0, i + 1).drop_last() =~= fm.subrange(0, i as int));
            assert(fm[i as int] == flat@[i as int].model());
            match &flat[i] {
                TraversalValue::SingleEdge(n) => {
                    let verdict = visit(n);
                    match verdict {
                        Ok(u) => {
                            proof {
                                let now = edge_items(fm.subrange(0, i + 1));
                                assert(now == seen.push(n.model()));
                                let ng = given.push(*n);
                                assert forall|k: int| 0 <= k < ng.len() implies (#[trigger] ng[k]).model()
                                    == now[k] && visit.ensures((&ng[k],), Ok(())) by {
                                    if k < given.len() {
                                        assert(ng[k] == given[k]);
                                        assert(given[k].model() == seen[k]);
                                        assert(now[k] == seen[k]);
                                        assert(visit.ensures((&given[k],), Ok(())));
                                    } else {
                                        assert(ng[k] == *n);
                                        assert(now[k] == n.model());
                                        assert(u == ());
                                        assert(verdict == Ok::<(), GraphError>(()));
                                        assert(visit.ensures((n,), verdict));
                                    }
                                }
                                given = ng;
                            }
                        },
                        Err(g) => {
                            assert(visit.ensures((n,), Err(g)));
                            return Err(GraphError::TraversalError("for_each_edge".to_owned()));
                        },
                    }
                },
                _ => {
                    assert(edge_items(fm.subrange(0, i + 1)) == seen);
                },
            }
            i = i + 1;
        }
        assert(fm.subrange(0, i as int) =~= fm);
        Ok(())
    }
}

/// For each key of `keys` that `ps` holds, the key with its value.
fn values_for_keys(ps: &Vec<(String, Value)>, keys: &Vec<String>) -> (r: Vec<TraversalValue>)
    ensures
        steps_model(r@) == props_of(props_model(ps@), Seq::new(keys@.len(), |i: int| keys@[i]@)),
{
    let ghost km = Seq::new(keys@.len(), |i: int| keys@[i]@);
    let mut out: Vec<TraversalValue> = Vec::new();
    let mut k: usize = 0;
    assert(km.subrange(0, 0) =~= Seq::<Seq<char>>::empty());
    assert(steps_model(out@) =~= Seq::<StepModel>::empty());
    while k < keys.len()
        invariant
            k <= keys@.len(),
            km == Seq::new(keys@.len(), |i: int| keys@[i]@),
            steps_model(out@) == props_of(props_model(ps@), km.subrange(0, k as int)),
        decreases keys@.len() - k,
    {
        assert(km.subrange(0, k + 1).drop_last() =~= km.subrange(0, k as int));
        match get_prop(ps, &keys[k]) {
            Some(v) => {
                let ghost before = steps_model(out@);
                out.push(TraversalValue::SingleValue((keys[k].clone(), v.duplicate())));
                assert(steps_model(out@) =~= before.push(
                    StepModel::SingleValue((km[k as int], v.model())),
                ));
            },
            None => {},
        }
        k = k + 1;
    }
    assert(km.subrange(0, k as int) =~= km);
    out
}

impl<'a> WTraversalBuilderMethods for TraversalBuilder<'a> {
    open spec fn steps(&self) -> Seq<StepModel> {
        self.current()
    }

    fn result(self) -> (r: Result<TraversalValue, GraphError>) {
        self.collapse_step()
    }

    fn execute(self) -> (r: Result<(), GraphError>) {
        let _ = self.collapse_step()?;
        Ok(())
    }
}

} // verus!
