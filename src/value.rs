use vstd::prelude::*;

verus! {

broadcast use vstd::std_specs::vec::group_vec_axioms;

/// A property value. Floating-point numbers are carried as their IEEE-754
/// bit pattern, so that the library never computes with them.
#[derive(Debug, PartialEq)]
pub enum Value {
    String(String),
    Integer(i64),
    Float(u64),
    Boolean(bool),
    Array(Vec<Value>),
    Object(Vec<(String, Value)>),
    Empty,
}

/// The mathematical content of a `Value`.
#[verifier::ext_equal]
pub enum ValueModel {
    Text(Seq<char>),
    Integer(i64),
    Float(u64),
    Boolean(bool),
    Array(Seq<ValueModel>),
    Object(Seq<(Seq<char>, ValueModel)>),
    Empty,
}

/// A property list: key/value pairs in insertion order.
pub type PropModel = Seq<(Seq<char>, ValueModel)>;

impl Value {
    pub open spec fn model(&self) -> ValueModel
        decreases self,
    {
        match self {
            Value::String(s) => ValueModel::Text(s@),
            Value::Integer(i) => ValueModel::Integer(*i),
            Value::Float(f) => ValueModel::Float(*f),
            Value::Boolean(b) => ValueModel::Boolean(*b),
            Value::Array(items) => ValueModel::Array(
                Seq::new(
                    items.len() as nat,
                    |i: int|
                        if 0 <= i < items.len() {
                            items[i].model()
                        } else {
                            ValueModel::Empty
                        },
                ),
            ),
            Value::Object(entries) => ValueModel::Object(
                Seq::new(
                    entries.len() as nat,
                    |i: int|
                        if 0 <= i < entries.len() {
                            (entries[i].0@, entries[i].1.model())
                        } else {
                            (Seq::empty(), ValueModel::Empty)
                        },
                ),
            ),
            Value::Empty => ValueModel::Empty,
        }
    }

    /// A deep copy.
    pub fn duplicate(&self) -> (r: Value)
        ensures
            r.model() == self.model(),
        decreases self,
    {
        match self {
            Value::String(s) => Value::String(s.clone()),
            Value::Integer(i) => Value::Integer(*i),
            Value::Float(f) => Value::Float(*f),
            Value::Boolean(b) => Value::Boolean(*b),
            Value::Array(items) => {
                let mut out: Vec<Value> = Vec::new();
                let mut i: usize = 0;
                while i < items.len()
                    invariant
                        i <= items.len(),
                        *self == Value::Array(*items),
                        out@.len() == i,
                        forall|j: int| 0 <= j < i ==> out@[j].model() == items@[j].model(),
                    decreases items.len() - i,
                {
                    proof {
                        assert(decreases_to!(*self => (*self)->Array_0));
                        assert(decreases_to!(*items => items[i as int]));
                        assert(decreases_to!(self => items[i as int]));
                    }
                    let v = items[i].duplicate();
                    out.push(v);
                    i = i + 1;
                }
                let r = Value::Array(out);
                assert(r.model()->Array_0 =~= self.model()->Array_0);
                r
            },
            Value::Object(entries) => {
                let mut out: Vec<(String, Value)> = Vec::new();
                let mut i: usize = 0;
                while i < entries.len()
                    invariant
                        i <= entries.len(),
                        *self == Value::Object(*entries),
                        out@.len() == i,
                        forall|j: int|
                            0 <= j < i ==> out@[j].0@ == entries@[j].0@ && out@[j].1.model()
                                == entries@[j].1.model(),
                    decreases entries.len() - i,
                {
                    proof {
                        assert(decreases_to!(*self => (*self)->Object_0));
                        assert(decreases_to!(*entries => entries[i as int]));
                        assert(decreases_to!(entries[i as int] => entries[i as int].1));
                        assert(decreases_to!(self => entries[i as int].1));
                    }
                    let k = entries[i].0.clone();
                    let v = entries[i].1.duplicate();
                    out.push((k, v));
                    i = i + 1;
                }
                let r = Value::Object(out);
                assert(r.model()->Object_0 =~= self.model()->Object_0);
                r
            },
            Value::Empty => Value::Empty,
        }
    }
}

/// The model of a property list.
pub open spec fn props_model(ps: Seq<(String, Value)>) -> PropModel {
    Seq::new(ps.len(), |i: int| (ps[i].0@, ps[i].1.model()))
}

/// The value stored under `key`, if any (the first entry with that key).
pub open spec fn prop_lookup(ps: PropModel, key: Seq<char>) -> Option<ValueModel>
    decreases ps.len(),
{
    if ps.len() == 0 {
        None
    } else if ps[0].0 == key {
        Some(ps[0].1)
    } else {
        prop_lookup(ps.drop_first(), key)
    }
}

/// Sets `key` to `v`: overwrites the value of an existing key in place, or
/// appends a new entry.
pub open spec fn prop_set(ps: PropModel, key: Seq<char>, v: ValueModel) -> PropModel {
    if exists|i: int| 0 <= i < ps.len() && ps[i].0 == key {
        let i = choose|i: int|
            0 <= i < ps.len() && ps[i].0 == key && forall|j: int| 0 <= j < i ==> ps[j].0 != key;
        ps.update(i, (key, v))
    } else {
        ps.push((key, v))
    }
}

/// Applies `updates` one after another with set-or-overwrite semantics.
pub open spec fn props_merge(ps: PropModel, updates: PropModel) -> PropModel
    decreases updates.len(),
{
    if updates.len() == 0 {
        ps
    } else {
        prop_set(
            props_merge(ps, updates.drop_last()),
            updates.last().0,
            updates.last().1,
        )
    }
}

/// No key occurs twice.
pub open spec fn keys_unique(ps: PropModel) -> bool {
    forall|i: int, j: int| 0 <= i < j < ps.len() ==> ps[i].0 != ps[j].0
}

pub proof fn lemma_prop_set_unique(ps: PropModel, key: Seq<char>, v: ValueModel)
    requires
        keys_unique(ps),
    ensures
        keys_unique(prop_set(ps, key, v)),
        prop_lookup(prop_set(ps, key, v), key) == Some(v),
{
    if exists|i: int| 0 <= i < ps.len() && ps[i].0 == key {
        let i = choose|i: int|
            0 <= i < ps.len() && ps[i].0 == key && forall|j: int| 0 <= j < i ==> ps[j].0 != key;
        lemma_lookup_at(ps.update(i, (key, v)), i);
    } else {
        lemma_lookup_at(ps.push((key, v)), ps.len() as int);
    }
}

/// Merging into a list without repeated keys keeps keys unique, and each
/// merged key then holds the last value given for it.
pub proof fn lemma_props_merge_unique(ps: PropModel, updates: PropModel)
    requires
        keys_unique(ps),
    ensures
        keys_unique(props_merge(ps, updates)),
        updates.len() > 0 ==> prop_lookup(props_merge(ps, updates), updates.last().0) == Some(
            updates.last().1,
        ),
    decreases updates.len(),
{
    if updates.len() > 0 {
        lemma_props_merge_unique(ps, updates.drop_last());
        lemma_prop_set_unique(
            props_merge(ps, updates.drop_last()),
            updates.last().0,
            updates.last().1,
        );
    }
}

/// In a list without repeated keys, looking a key up finds its entry.
pub proof fn lemma_lookup_at(ps: PropModel, i: int)
    requires
        keys_unique(ps),
        0 <= i < ps.len(),
    ensures
        prop_lookup(ps, ps[i].0) == Some(ps[i].1),
    decreases i,
{
    if i > 0 {
        assert(ps[0].0 != ps[i].0);
        assert(keys_unique(ps.drop_first()));
        assert(ps.drop_first()[i - 1] == ps[i]);
        lemma_lookup_at(ps.drop_first(), i - 1);
    }
}

/// A lookup of a key that no entry holds finds nothing.
pub proof fn lemma_lookup_absent(ps: PropModel, key: Seq<char>)
    requires
        forall|i: int| 0 <= i < ps.len() ==> ps[i].0 != key,
    ensures
        prop_lookup(ps, key) == None::<ValueModel>,
    decreases ps.len(),
{
    if ps.len() > 0 {
        lemma_lookup_absent(ps.drop_first(), key);
    }
}

/// Looks a property up by key.
pub fn get_prop<'a>(ps: &'a Vec<(String, Value)>, key: &String) -> (r: Option<&'a Value>)
    ensures
        prop_lookup(props_model(ps@), key@) == match r {
            Some(v) => Some(v.model()),
            None => None::<ValueModel>,
        },
{
    let mut i: usize = 0;
    assert(props_model(ps@).subrange(0, ps@.len() as int) =~= props_model(ps@));
    while i < ps.len()
        invariant
            i <= ps.len(),
            prop_lookup(props_model(ps@), key@) == prop_lookup(
                props_model(ps@).subrange(i as int, ps@.len() as int),
                key@,
            ),
        decreases ps.len() - i,
    {
        let ghost rest = props_model(ps@).subrange(i as int, ps@.len() as int);
        if ps[i].0 == *key {
            return Some(&ps[i].1);
        }
        assert(rest.drop_first() =~= props_model(ps@).subrange(i + 1, ps@.len() as int));
        i = i + 1;
    }
    None
}

/// Sets one property in place, with set-or-overwrite semantics.
pub fn set_prop(ps: &mut Vec<(String, Value)>, key: String, v: Value)
    ensures
        props_model(final(ps)@) == prop_set(props_model(old(ps)@), key@, v.model()),
{
    let ghost m = props_model(ps@);
    let ghost ki = key@;
    let ghost vm = v.model();
    let mut i: usize = 0;
    while i < ps.len() && ps[i].0 != key
        invariant
            i <= ps.len(),
            m == props_model(ps@),
            forall|j: int| 0 <= j < i ==> m[j].0 != key@,
        decreases ps.len() - i,
    {
        i = i + 1;
    }
    if i < ps.len() {
        assert(m[i as int].0 == ki);
        ps.set(i, (key, v));
        proof {
            let c = choose|j: int|
                0 <= j < m.len() && m[j].0 == ki && forall|l: int| 0 <= l < j ==> m[l].0 != ki;
            assert(0 <= c < m.len() && m[c].0 == ki && forall|l: int| 0 <= l < c ==> m[l].0 != ki)
                by {
                assert(0 <= i < m.len() && m[i as int].0 == ki && forall|l: int|
                    0 <= l < i ==> m[l].0 != ki);
            }
            assert(c == i as int);
            assert(props_model(ps@) =~= m.update(i as int, (ki, vm)));
        }
    } else {
        ps.push((key, v));
        assert(props_model(ps@) =~= m.push((ki, vm)));
    }
}

/// Builds a property list from pairs; a later pair overwrites an earlier
/// one with the same key.
pub fn props_from_pairs(pairs: Vec<(String, Value)>) -> (r: Vec<(String, Value)>)
    ensures
        props_model(r@) == props_merge(Seq::empty(), props_model(pairs@)),
{
    let mut out: Vec<(String, Value)> = Vec::new();
    assert(props_model(out@) =~= Seq::empty());
    merge_props(&mut out, pairs);
    out
}

/// Merges `updates` into `ps`, one pair at a time.
pub fn merge_props(ps: &mut Vec<(String, Value)>, updates: Vec<(String, Value)>)
    ensures
        props_model(final(ps)@) == props_merge(props_model(old(ps)@), props_model(updates@)),
{
    let ghost base = props_model(ps@);
    let ghost um = props_model(updates@);
    let n = updates.len();
    let mut rest = updates;
    let mut done: usize = 0;
    while rest.len() > 0
        invariant
            um.len() == n,
            done + rest@.len() == um.len(),
            props_model(rest@) == um.subrange(done as int, um.len() as int),
            props_model(ps@) == props_merge(base, um.subrange(0, done as int)),
        decreases rest@.len(),
    {
        let ghost old_rest = rest@;
        let (k, v) = rest.remove(0);
        proof {
            assert(props_model(old_rest)[0] == (k@, v.model()));
            assert(um[done as int] == props_model(old_rest)[0]);
            assert(um.subrange(0, done + 1).drop_last() =~= um.subrange(0, done as int));
        }
        set_prop(ps, k, v);
        proof {
            assert(rest@ =~= old_rest.drop_first());
            assert(props_model(rest@) =~= props_model(old_rest).drop_first());
            assert(props_model(rest@) =~= um.subrange(done + 1, um.len() as int));
        }
        done = done + 1;
    }
    assert(um.subrange(0, done as int) =~= um);
}

/// A deep copy of a property list.
pub fn duplicate_props(ps: &Vec<(String, Value)>) -> (r: Vec<(String, Value)>)
    ensures
        props_model(r@) == props_model(ps@),
{
    let mut out: Vec<(String, Value)> = Vec::new();
    let mut i: usize = 0;
    while i < ps.len()
        invariant
            i <= ps.len(),
            out@.len() == i,
            props_model(out@) == props_model(ps@).subrange(0, i as int),
        decreases ps.len() - i,
    {
        let ghost prev = out@;
        let k = ps[i].0.clone();
        let v = ps[i].1.duplicate();
        out.push((k, v));
        proof {
            assert(out@ == prev.push(out@[i as int]));
            assert(props_model(out@)[i as int] == props_model(ps@)[i as int]);
            assert forall|j: int| 0 <= j < i implies props_model(out@)[j] == props_model(prev)[j] by {
                assert(out@[j] == prev[j]);
            }
            assert(props_model(out@) =~= props_model(ps@).subrange(0, i + 1));
        }
        i = i + 1;
    }
    assert(props_model(ps@).subrange(0, i as int) =~= props_model(ps@));
    out
}

/// A node record.
#[derive(Debug, PartialEq)]
pub struct Node {
    pub id: String,
    pub label: String,
    pub properties: Vec<(String, Value)>,
}

/// An edge record, directed from `from_node` to `to_node`.
#[derive(Debug, PartialEq)]
pub struct Edge {
    pub id: String,
    pub label: String,
    pub from_node: String,
    pub to_node: String,
    pub properties: Vec<(String, Value)>,
}

pub struct NodeModel {
    pub id: Seq<char>,
    pub label: Seq<char>,
    pub properties: PropModel,
}

pub struct EdgeModel {
    pub id: Seq<char>,
    pub label: Seq<char>,
    pub from_node: Seq<char>,
    pub to_node: Seq<char>,
    pub properties: PropModel,
}

impl Node {
    pub open spec fn model(&self) -> NodeModel {
        NodeModel { id: self.id@, label: self.label@, properties: props_model(self.properties@) }
    }

    /// A deep copy.
    pub fn duplicate(&self) -> (r: Node)
        ensures
            r.model() == self.model(),
    {
        Node {
            id: self.id.clone(),
            label: self.label.clone(),
            properties: duplicate_props(&self.properties),
        }
    }

    /// The value of property `key`, if the node has it.
    pub fn check_property(&self, key: &String) -> (r: Option<&Value>)
        ensures
            prop_lookup(self.model().properties, key@) == match r {
                Some(v) => Some(v.model()),
                None => None::<ValueModel>,
            },
    {
        get_prop(&self.properties, key)
    }
}

impl Edge {
    pub open spec fn model(&self) -> EdgeModel {
        EdgeModel {
            id: self.id@,
            label: self.label@,
            from_node: self.from_node@,
            to_node: self.to_node@,
            properties: props_model(self.properties@),
        }
    }

    /// A deep copy.
    pub fn duplicate(&self) -> (r: Edge)
        ensures
            r.model() == self.model(),
    {
        Edge {
            id: self.id.clone(),
            label: self.label.clone(),
            from_node: self.from_node.clone(),
            to_node: self.to_node.clone(),
            properties: duplicate_props(&self.properties),
        }
    }

    /// The value of property `key`, if the edge has it.
    pub fn check_property(&self, key: &String) -> (r: Option<&Value>)
        ensures
            prop_lookup(self.model().properties, key@) == match r {
                Some(v) => Some(v.model()),
                None => None::<ValueModel>,
            },
    {
        get_prop(&self.properties, key)
    }
}

/// The models of a sequence of nodes.
pub open spec fn nodes_model(ns: Seq<Node>) -> Seq<NodeModel> {
    Seq::new(ns.len(), |i: int| ns[i].model())
}

/// The models of a sequence of edges.
pub open spec fn edges_model(es: Seq<Edge>) -> Seq<EdgeModel> {
    Seq::new(es.len(), |i: int| es[i].model())
}

} // verus!
