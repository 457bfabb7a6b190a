//! Byte keys of the six tables, and the prefixes that enumerate them.
//!
//! | table       | key                         |
//! |-------------|-----------------------------|
//! | nodes       | `n:` id                     |
//! | edges       | `e:` id                     |
//! | node_labels | `nl:` label `:` node id     |
//! | edge_labels | `el:` label `:` edge id     |
//! | out_edges   | `o:` source id `:` edge id  |
//! | in_edges    | `i:` sink id `:` edge id    |
use vstd::prelude::*;
use vstd::utf8::encode_utf8;

verus! {

/// The separator byte, `:`.
pub const SEPARATOR: u8 = 58;

pub open spec fn node_key_spec(id: Seq<u8>) -> Seq<u8> {
    seq![110u8, SEPARATOR] + id
}

pub open spec fn edge_key_spec(id: Seq<u8>) -> Seq<u8> {
    seq![101u8, SEPARATOR] + id
}

pub open spec fn node_label_key_spec(label: Seq<u8>, id: Seq<u8>) -> Seq<u8> {
    seq![110u8, 108u8, SEPARATOR] + label + seq![SEPARATOR] + id
}

pub open spec fn edge_label_key_spec(label: Seq<u8>, id: Seq<u8>) -> Seq<u8> {
    seq![101u8, 108u8, SEPARATOR] + label + seq![SEPARATOR] + id
}

pub open spec fn out_edge_key_spec(node: Seq<u8>, edge: Seq<u8>) -> Seq<u8> {
    seq![111u8, SEPARATOR] + node + seq![SEPARATOR] + edge
}

pub open spec fn in_edge_key_spec(node: Seq<u8>, edge: Seq<u8>) -> Seq<u8> {
    seq![105u8, SEPARATOR] + node + seq![SEPARATOR] + edge
}

/// `p` is a prefix of `k`.
pub open spec fn is_prefix(p: Seq<u8>, k: Seq<u8>) -> bool {
    p.len() <= k.len() && k.subrange(0, p.len() as int) == p
}

/// No byte of `b` is the separator.
pub open spec fn separator_free(b: Seq<u8>) -> bool {
    forall|i: int| 0 <= i < b.len() ==> b[i] != SEPARATOR
}

/// Appends `b` to `out`.
pub fn append_bytes(out: &mut Vec<u8>, b: &[u8])
    ensures
        final(out)@ == old(out)@ + b@,
{
    let ghost start = out@;
    let mut i: usize = 0;
    while i < b.len()
        invariant
            i <= b@.len(),
            out@ == start + b@.subrange(0, i as int),
        decreases b@.len() - i,
    {
        out.push(b[i]);
        assert(out@ =~= start + b@.subrange(0, i + 1));
        i = i + 1;
    }
    assert(b@.subrange(0, i as int) =~= b@);
}

/// Byte equality.
pub fn bytes_eq(a: &[u8], b: &[u8]) -> (r: bool)
    ensures
        r == (a@ == b@),
{
    if a.len() != b.len() {
        return false;
    }
    let mut i: usize = 0;
    while i < a.len()
        invariant
            i <= a@.len(),
            a@.len() == b@.len(),
            a@.subrange(0, i as int) == b@.subrange(0, i as int),
        decreases a@.len() - i,
    {
        if a[i] != b[i] {
            assert(a@[i as int] != b@[i as int]);
            return false;
        }
        assert(a@.subrange(0, i + 1) =~= a@.subrange(0, i as int).push(a@[i as int]));
        assert(b@.subrange(0, i + 1) =~= b@.subrange(0, i as int).push(b@[i as int]));
        i = i + 1;
    }
    assert(a@ =~= a@.subrange(0, i as int));
    assert(b@ =~= b@.subrange(0, i as int));
    true
}

/// Whether `p` is a prefix of `k`.
pub fn has_prefix(p: &[u8], k: &[u8]) -> (r: bool)
    ensures
        r == is_prefix(p@, k@),
{
    if p.len() > k.len() {
        return false;
    }
    let mut i: usize = 0;
    while i < p.len()
        invariant
            i <= p@.len() <= k@.len(),
            k@.subrange(0, i as int) == p@.subrange(0, i as int),
        decreases p@.len() - i,
    {
        if p[i] != k[i] {
            assert(k@.subrange(0, p@.len() as int)[i as int] != p@[i as int]);
            return false;
        }
        assert(k@.subrange(0, i + 1) =~= k@.subrange(0, i as int).push(k@[i as int]));
        assert(p@.subrange(0, i + 1) =~= p@.subrange(0, i as int).push(p@[i as int]));
        i = i + 1;
    }
    assert(p@ =~= p@.subrange(0, i as int));
    true
}

/// The bytes of `k` from position `start` on.
pub fn suffix_from(k: &[u8], start: usize) -> (r: Vec<u8>)
    requires
        start <= k@.len(),
    ensures
        r@ == k@.subrange(start as int, k@.len() as int),
{
    let mut out: Vec<u8> = Vec::new();
    let mut i: usize = start;
    while i < k.len()
        invariant
            start <= i <= k@.len(),
            out@ == k@.subrange(start as int, i as int),
        decreases k@.len() - i,
    {
        out.push(k[i]);
        assert(out@ =~= k@.subrange(start as int, i + 1));
        i = i + 1;
    }
    out
}

fn two(a: u8, b: u8) -> (r: Vec<u8>)
    ensures
        r@ == seq![a, b],
{
    let mut v: Vec<u8> = Vec::new();
    v.push(a);
    v.push(b);
    assert(v@ =~= seq![a, b]);
    v
}

fn three(a: u8, b: u8, c: u8) -> (r: Vec<u8>)
    ensures
        r@ == seq![a, b, c],
{
    let mut v: Vec<u8> = Vec::new();
    v.push(a);
    v.push(b);
    v.push(c);
    assert(v@ =~= seq![a, b, c]);
    v
}

/// `head ‖ first ‖ ":" ‖ second`.
fn joined(head: Vec<u8>, first: &str, second: &str) -> (r: Vec<u8>)
    ensures
        r@ == head@ + encode_utf8(first@) + seq![SEPARATOR] + encode_utf8(second@),
{
    let mut k = head;
    append_bytes(&mut k, first.as_bytes());
    k.push(SEPARATOR);
    append_bytes(&mut k, second.as_bytes());
    k
}

/// Key of a node record: `n:` id.
pub fn node_key(id: &str) -> (r: Vec<u8>)
    ensures
        r@ == node_key_spec(encode_utf8(id@)),
{
    let mut k = two(110u8, SEPARATOR);
    append_bytes(&mut k, id.as_bytes());
    k
}

/// Key of an edge record: `e:` id.
pub fn edge_key(id: &str) -> (r: Vec<u8>)
    ensures
        r@ == edge_key_spec(encode_utf8(id@)),
{
    let mut k = two(101u8, SEPARATOR);
    append_bytes(&mut k, id.as_bytes());
    k
}

/// Key of a node-label index entry: `nl:` label `:` id.
pub fn node_label_key(label: &str, id: &str) -> (r: Vec<u8>)
    ensures
        r@ == node_label_key_spec(encode_utf8(label@), encode_utf8(id@)),
{
    joined(three(110u8, 108u8, SEPARATOR), label, id)
}

/// Key of an edge-label index entry: `el:` label `:` id.
pub fn edge_label_key(label: &str, id: &str) -> (r: Vec<u8>)
    ensures
        r@ == edge_label_key_spec(encode_utf8(label@), encode_utf8(id@)),
{
    joined(three(101u8, 108u8, SEPARATOR), label, id)
}

/// Key of an outgoing-adjacency entry: `o:` source `:` edge id. With an
/// empty edge id it is the prefix that enumerates the source's out-edges.
pub fn out_edge_key(source_node_id: &str, edge_id: &str) -> (r: Vec<u8>)
    ensures
        r@ == out_edge_key_spec(encode_utf8(source_node_id@), encode_utf8(edge_id@)),
{
    joined(two(111u8, SEPARATOR), source_node_id, edge_id)
}

/// Key of an incoming-adjacency entry: `i:` sink `:` edge id. With an
/// empty edge id it is the prefix that enumerates the sink's in-edges.
pub fn in_edge_key(sink_node_id: &str, edge_id: &str) -> (r: Vec<u8>)
    ensures
        r@ == in_edge_key_spec(encode_utf8(sink_node_id@), encode_utf8(edge_id@)),
{
    joined(two(105u8, SEPARATOR), sink_node_id, edge_id)
}

/// The prefix `nl:` label `:` that enumerates the nodes of one label.
pub fn node_label_prefix(label: &str) -> (r: Vec<u8>)
    ensures
        r@ == node_label_key_spec(encode_utf8(label@), Seq::empty()),
{
    let mut k = three(110u8, 108u8, SEPARATOR);
    append_bytes(&mut k, label.as_bytes());
    k.push(SEPARATOR);
    assert(k@ =~= node_label_key_spec(encode_utf8(label@), Seq::empty()));
    k
}

} // verus!
