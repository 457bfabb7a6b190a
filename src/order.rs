//! Byte-lexicographic order of keys, the order of a prefix scan.
use vstd::prelude::*;
use crate::keys::append_bytes;

verus! {

broadcast use vstd::std_specs::vec::group_vec_axioms;

/// `a` sorts before or equal to `b` byte by byte, a prefix first.
pub open spec fn lex_le(a: Seq<u8>, b: Seq<u8>) -> bool
    decreases a.len(),
{
    if a.len() == 0 {
        true
    } else if b.len() == 0 {
        false
    } else if a[0] != b[0] {
        a[0] < b[0]
    } else {
        lex_le(a.drop_first(), b.drop_first())
    }
}

/// `s` with `x` inserted before the first entry that does not sort before it.
pub open spec fn insert_sorted(s: Seq<Seq<u8>>, x: Seq<u8>) -> Seq<Seq<u8>>
    decreases s.len(),
{
    if s.len() == 0 {
        seq![x]
    } else if lex_le(x, s[0]) {
        seq![x] + s
    } else {
        seq![s[0]] + insert_sorted(s.drop_first(), x)
    }
}

/// The entries of `s` in byte-lexicographic order (an insertion sort).
pub open spec fn sort_keys(s: Seq<Seq<u8>>) -> Seq<Seq<u8>>
    decreases s.len(),
{
    if s.len() == 0 {
        Seq::empty()
    } else {
        insert_sorted(sort_keys(s.drop_last()), s.last())
    }
}

proof fn lemma_lex_le_skip(a: Seq<u8>, b: Seq<u8>, i: int)
    requires
        0 <= i <= a.len(),
        i <= b.len(),
        a.subrange(0, i) == b.subrange(0, i),
    ensures
        lex_le(a, b) == lex_le(a.subrange(i, a.len() as int), b.subrange(i, b.len() as int)),
    decreases i,
{
    if i > 0 {
        assert(a[0] == a.subrange(0, i)[0]);
        assert(b[0] == b.subrange(0, i)[0]);
        assert(a.drop_first().subrange(0, i - 1) =~= a.subrange(0, i).drop_first());
        assert(b.drop_first().subrange(0, i - 1) =~= b.subrange(0, i).drop_first());
        lemma_lex_le_skip(a.drop_first(), b.drop_first(), i - 1);
        assert(a.drop_first().subrange(i - 1, a.len() - 1) =~= a.subrange(i, a.len() as int));
        assert(b.drop_first().subrange(i - 1, b.len() - 1) =~= b.subrange(i, b.len() as int));
    } else {
        assert(a.subrange(0, a.len() as int) =~= a);
        assert(b.subrange(0, b.len() as int) =~= b);
    }
}

/// Whether `a` sorts before or equal to `b`.
pub fn bytes_le(a: &[u8], b: &[u8]) -> (r: bool)
    ensures
        r == lex_le(a@, b@),
{
    let mut i: usize = 0;
    while i < a.len() && i < b.len() && a[i] == b[i]
        invariant
            i <= a@.len(),
            i <= b@.len(),
            a@.subrange(0, i as int) == b@.subrange(0, i as int),
        decreases a@.len() - i,
    {
        assert(a@.subrange(0, i + 1) =~= a@.subrange(0, i as int).push(a@[i as int]));
        assert(b@.subrange(0, i + 1) =~= b@.subrange(0, i as int).push(b@[i as int]));
        i = i + 1;
    }
    proof {
        lemma_lex_le_skip(a@, b@, i as int);
        let ra = a@.subrange(i as int, a@.len() as int);
        let rb = b@.subrange(i as int, b@.len() as int);
        if i < a.len() && i < b.len() {
            assert(ra[0] == a@[i as int] && rb[0] == b@[i as int]);
        }
    }
    if i == a.len() {
        true
    } else if i == b.len() {
        false
    } else {
        a[i] < b[i]
    }
}

proof fn lemma_insert_at(s: Seq<Seq<u8>>, x: Seq<u8>, p: int)
    requires
        0 <= p <= s.len(),
        forall|j: int| 0 <= j < p ==> !lex_le(x, #[trigger] s[j]),
        p < s.len() ==> lex_le(x, s[p]),
    ensures
        insert_sorted(s, x) == s.subrange(0, p).push(x) + s.subrange(p, s.len() as int),
    decreases p,
{
    if p == 0 {
        if s.len() == 0 {
            assert(s.subrange(0, 0).push(x) + s.subrange(0, 0) =~= seq![x]);
        } else {
            assert(s.subrange(0, 0).push(x) + s.subrange(0, s.len() as int) =~= seq![x] + s);
        }
    } else {
        assert(!lex_le(x, s[0]));
        let t = s.drop_first();
        assert forall|j: int| 0 <= j < p - 1 implies !lex_le(x, #[trigger] t[j]) by {
            assert(t[j] == s[j + 1]);
        }
        lemma_insert_at(t, x, p - 1);
        assert(seq![s[0]] + (t.subrange(0, p - 1).push(x) + t.subrange(p - 1, t.len() as int))
            =~= s.subrange(0, p).push(x) + s.subrange(p, s.len() as int));
    }
}

/// Inserts `x` into `out` before the first entry that does not sort before it.
fn insert_key(out: &mut Vec<Vec<u8>>, x: Vec<u8>)
    ensures
        keys_of(final(out)@) == insert_sorted(keys_of(old(out)@), x@),
{
    let ghost s = keys_of(out@);
    let mut p: usize = 0;
    while p < out.len() && !bytes_le(x.as_slice(), out[p].as_slice())
        invariant
            p <= out@.len(),
            s == keys_of(out@),
            forall|j: int| 0 <= j < p ==> !lex_le(x@, #[trigger] s[j]),
        decreases out@.len() - p,
    {
        p = p + 1;
    }
    proof {
        lemma_insert_at(s, x@, p as int);
    }
    let ghost xm = x@;
    let ghost before = out@;
    out.insert(p, x);
    assert(keys_of(out@) =~= s.subrange(0, p as int).push(xm) + s.subrange(
        p as int,
        s.len() as int,
    ));
}

/// The byte views of a list of keys.
pub open spec fn keys_of(ks: Seq<Vec<u8>>) -> Seq<Seq<u8>> {
    Seq::new(ks.len(), |i: int| ks[i]@)
}

/// `ks` in byte-lexicographic order.
pub fn sort_ids(ks: &Vec<Vec<u8>>) -> (r: Vec<Vec<u8>>)
    ensures
        keys_of(r@) == sort_keys(keys_of(ks@)),
{
    let ghost km = keys_of(ks@);
    let mut out: Vec<Vec<u8>> = Vec::new();
    let mut i: usize = 0;
    assert(km.subrange(0, 0) =~= Seq::<Seq<u8>>::empty());
    assert(keys_of(out@) =~= Seq::<Seq<u8>>::empty());
    while i < ks.len()
        invariant
            i <= ks@.len(),
            km == keys_of(ks@),
            keys_of(out@) == sort_keys(km.subrange(0, i as int)),
        decreases ks@.len() - i,
    {
        assert(km.subrange(0, i + 1).drop_last() =~= km.subrange(0, i as int));
        let mut k: Vec<u8> = Vec::new();
        append_bytes(&mut k, ks[i].as_slice());
        insert_key(&mut out, k);
        i = i + 1;
    }
    assert(km.subrange(0, i as int) =~= km);
    out
}

/// Membership is what sorting keeps.
pub proof fn lemma_sort_keys_contains(s: Seq<Seq<u8>>, y: Seq<u8>)
    ensures
        sort_keys(s).contains(y) <==> s.contains(y),
    decreases s.len(),
{
    if s.len() > 0 {
        lemma_sort_keys_contains(s.drop_last(), y);
        lemma_insert_contains(sort_keys(s.drop_last()), s.last(), y);
        if s.drop_last().contains(y) {
            let j = choose|j: int| 0 <= j < s.drop_last().len() && s.drop_last()[j] == y;
            assert(s[j] == y);
        }
        if s.contains(y) && y != s.last() {
            let j = choose|j: int| 0 <= j < s.len() && s[j] == y;
            assert(s.drop_last()[j] == y);
        }
        if y == s.last() {
            assert(s[s.len() - 1] == y);
        }
    }
}

proof fn lemma_insert_contains(s: Seq<Seq<u8>>, x: Seq<u8>, y: Seq<u8>)
    ensures
        insert_sorted(s, x).contains(y) <==> (y == x || s.contains(y)),
    decreases s.len(),
{
    if s.len() == 0 {
        assert(insert_sorted(s, x)[0] == x);
    } else if lex_le(x, s[0]) {
        let r = seq![x] + s;
        assert(r[0] == x);
        if s.contains(y) {
            let j = choose|j: int| 0 <= j < s.len() && s[j] == y;
            assert(r[j + 1] == y);
        }
        if r.contains(y) && y != x {
            let j = choose|j: int| 0 <= j < r.len() && r[j] == y;
            assert(s[j - 1] == y);
        }
    } else {
        let t = s.drop_first();
        lemma_insert_contains(t, x, y);
        let r = seq![s[0]] + insert_sorted(t, x);
        let it = insert_sorted(t, x);
        if it.contains(y) {
            let j = choose|j: int| 0 <= j < it.len() && it[j] == y;
            assert(r[j + 1] == y);
        }
        if y == s[0] {
            assert(r[0] == y);
        }
        if s.contains(y) && y != s[0] {
            let j = choose|j: int| 0 <= j < s.len() && s[j] == y;
            assert(t[j - 1] == y);
        }
        if r.contains(y) {
            let j = choose|j: int| 0 <= j < r.len() && r[j] == y;
            if j > 0 {
                assert(it[j - 1] == y);
            } else {
                assert(s[0] == y);
            }
        }
    }
}

/// Any two keys are ordered one way or the other.
pub proof fn lemma_lex_total(a: Seq<u8>, b: Seq<u8>)
    ensures
        lex_le(a, b) || lex_le(b, a),
    decreases a.len(),
{
    if a.len() > 0 && b.len() > 0 && a[0] == b[0] {
        lemma_lex_total(a.drop_first(), b.drop_first());
    }
}

/// Each key sorts before or equal to the next.
pub open spec fn is_sorted(s: Seq<Seq<u8>>) -> bool {
    forall|i: int| 0 <= i < s.len() - 1 ==> lex_le(#[trigger] s[i], s[i + 1])
}

proof fn lemma_insert_sorted_sorted(s: Seq<Seq<u8>>, x: Seq<u8>)
    requires
        is_sorted(s),
    ensures
        is_sorted(insert_sorted(s, x)),
        insert_sorted(s, x).len() == s.len() + 1,
        insert_sorted(s, x)[0] == x || (s.len() > 0 && insert_sorted(s, x)[0] == s[0]),
        insert_sorted(s, x).to_multiset() == s.to_multiset().insert(x),
    decreases s.len(),
{
    broadcast use vstd::seq_lib::group_to_multiset_ensures;

    if s.len() == 0 {
        assert(insert_sorted(s, x) =~= s.insert(0, x));
        vstd::seq_lib::to_multiset_insert(s, 0, x);
    } else if lex_le(x, s[0]) {
        let r = seq![x] + s;
        assert(r =~= s.insert(0, x));
        vstd::seq_lib::to_multiset_insert(s, 0, x);
        assert forall|i: int| 0 <= i < r.len() - 1 implies lex_le(#[trigger] r[i], r[i + 1]) by {
            if i > 0 {
                assert(r[i] == s[i - 1] && r[i + 1] == s[i]);
            }
        }
    } else {
        let t = s.drop_first();
        assert forall|i: int| 0 <= i < t.len() - 1 implies lex_le(#[trigger] t[i], t[i + 1]) by {
            assert(t[i] == s[i + 1] && t[i + 1] == s[i + 2]);
        }
        lemma_insert_sorted_sorted(t, x);
        let it = insert_sorted(t, x);
        let r = seq![s[0]] + it;
        lemma_lex_total(x, s[0]);
        assert(r =~= it.insert(0, s[0]));
        vstd::seq_lib::to_multiset_insert(it, 0, s[0]);
        assert(s =~= t.insert(0, s[0]));
        vstd::seq_lib::to_multiset_insert(t, 0, s[0]);
        assert(r.to_multiset() =~= s.to_multiset().insert(x));
        assert forall|i: int| 0 <= i < r.len() - 1 implies lex_le(#[trigger] r[i], r[i + 1]) by {
            if i == 0 {
                if it[0] != x {
                    assert(it[0] == t[0] && t[0] == s[1]);
                    assert(lex_le(s[0], s[1]));
                }
            } else {
                assert(r[i] == it[i - 1] && r[i + 1] == it[i]);
            }
        }
    }
}

/// Sorting orders the keys and keeps each of them as often as it occurs.
pub proof fn lemma_sort_keys_sorted(s: Seq<Seq<u8>>)
    ensures
        is_sorted(sort_keys(s)),
        sort_keys(s).to_multiset() == s.to_multiset(),
        sort_keys(s).len() == s.len(),
    decreases s.len(),
{
    broadcast use vstd::seq_lib::group_to_multiset_ensures;

    if s.len() > 0 {
        lemma_sort_keys_sorted(s.drop_last());
        lemma_insert_sorted_sorted(sort_keys(s.drop_last()), s.last());
        assert(s =~= s.drop_last().push(s.last()));
    } else {
        assert(sort_keys(s) =~= s);
    }
}

} // verus!

