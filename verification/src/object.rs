//! The entries of an object: a map from keys to values that holds each key
//! once and keeps its entries in ascending order of the keys.

use crate::order::{
    key_lt, key_precedes, lemma_key_lt_asymmetric, lemma_key_lt_irreflexive,
    lemma_key_lt_total, lemma_key_lt_transitive,
};
use crate::value::{Jsonnet, Value};
use vstd::prelude::*;

verus! {

/// Whether the entries `es` stand in strictly ascending order of their keys.
pub open spec fn ascending(es: Seq<(Seq<char>, Value)>) -> bool {
    forall|i: int, j: int|
        #![trigger es[i], es[j]]
        0 <= i < j < es.len() ==> key_lt(es[i].0, es[j].0)
}

/// Whether one of the entries `es` has the key `k`.
pub open spec fn has_key(es: Seq<(Seq<char>, Value)>, k: Seq<char>) -> bool {
    exists|i: int| 0 <= i < es.len() && (#[trigger] es[i]).0 == k
}

/// The place of an entry of `es` that has the key `k`.
pub open spec fn place_of(es: Seq<(Seq<char>, Value)>, k: Seq<char>) -> int {
    choose|i: int| 0 <= i < es.len() && (#[trigger] es[i]).0 == k
}

/// The map that the entries `es` make up: each key with the value of its
/// entry.
pub open spec fn entries_map(es: Seq<(Seq<char>, Value)>) -> Map<Seq<char>, Value> {
    Map::new(|k: Seq<char>| has_key(es, k), |k: Seq<char>| es[place_of(es, k)].1)
}

/// In ascending entries a key has one place only.
pub proof fn lemma_place_unique(es: Seq<(Seq<char>, Value)>, i: int)
    requires
        ascending(es),
        0 <= i < es.len(),
    ensures
        has_key(es, es[i].0),
        place_of(es, es[i].0) == i,
        entries_map(es).contains_key(es[i].0),
        entries_map(es)[es[i].0] == es[i].1,
{
    let k = es[i].0;
    let p = place_of(es, k);
    lemma_key_lt_irreflexive(k);
    if p < i {
        assert(key_lt(es[p].0, es[i].0));
    } else if i < p {
        assert(key_lt(es[i].0, es[p].0));
    }
}

/// Putting an entry with a new key at its place in ascending entries keeps
/// them ascending and adds the key to the map.
pub proof fn lemma_insert_at(es: Seq<(Seq<char>, Value)>, p: int, k: Seq<char>, v: Value)
    requires
        ascending(es),
        0 <= p <= es.len(),
        forall|i: int| 0 <= i < p ==> key_lt((#[trigger] es[i]).0, k),
        forall|i: int| p <= i < es.len() ==> key_lt(k, (#[trigger] es[i]).0),
    ensures
        ascending(es.insert(p, (k, v))),
        !has_key(es, k),
        entries_map(es.insert(p, (k, v))) == entries_map(es).insert(k, v),
{
    let after = es.insert(p, (k, v));
    lemma_key_lt_irreflexive(k);
    assert forall|i: int, j: int| 0 <= i < j < after.len() implies key_lt(
        after[i].0,
        after[j].0,
    ) by {
        let a: int = if i < p { i } else { i - 1 };
        let b: int = if j < p { j } else { j - 1 };
        if i != p && j != p {
            assert(after[i] == es[a] && after[j] == es[b]);
        } else if i == p {
            assert(after[j] == es[b]);
        } else {
            assert(after[i] == es[a]);
        }
    }
    lemma_place_unique(after, p);
    assert forall|q: Seq<char>| has_key(after, q) <==> (q == k || has_key(es, q)) by {
        if has_key(after, q) {
            let i = place_of(after, q);
            if i < p {
                assert(after[i] == es[i]);
            } else if i > p {
                assert(after[i] == es[i - 1]);
            }
        }
        if has_key(es, q) {
            let i = place_of(es, q);
            if i < p {
                assert(after[i] == es[i]);
            } else {
                assert(after[i + 1] == es[i]);
            }
        }
    }
    assert forall|q: Seq<char>| has_key(es, q) && q != k implies entries_map(after)[q]
        == entries_map(es)[q] by {
        let i = place_of(es, q);
        let a: int = if i < p { i } else { i + 1 };
        assert(after[a] == es[i]);
        lemma_place_unique(after, a);
    }
    assert(entries_map(after) =~= entries_map(es).insert(k, v));
}

/// Dropping an entry from ascending entries keeps them ascending and takes
/// its key out of the map.
pub proof fn lemma_remove_at(es: Seq<(Seq<char>, Value)>, p: int)
    requires
        ascending(es),
        0 <= p < es.len(),
    ensures
        ascending(es.remove(p)),
        entries_map(es.remove(p)) == entries_map(es).remove(es[p].0),
        forall|i: int| 0 <= i < p ==> key_lt((#[trigger] es.remove(p)[i]).0, es[p].0),
        forall|i: int| p <= i < es.len() - 1 ==> key_lt(es[p].0, (#[trigger] es.remove(p)[i]).0),
{
    let rest = es.remove(p);
    let k = es[p].0;
    assert forall|i: int, j: int| 0 <= i < j < rest.len() implies key_lt(
        rest[i].0,
        rest[j].0,
    ) by {
        let a: int = if i < p { i } else { i + 1 };
        let b: int = if j < p { j } else { j + 1 };
        assert(rest[i] == es[a] && rest[j] == es[b]);
    }
    assert forall|i: int| 0 <= i < p implies key_lt((#[trigger] rest[i]).0, k) by {
        assert(rest[i] == es[i]);
    }
    assert forall|i: int| p <= i < es.len() - 1 implies key_lt(k, (#[trigger] rest[i]).0) by {
        assert(rest[i] == es[i + 1]);
    }
    assert(es =~= rest.insert(p, es[p]));
    lemma_insert_at(rest, p, k, es[p].1);
    assert(entries_map(rest) =~= entries_map(es).remove(k));
}

/// Ascending entries are known by their map: two such sequences that make up
/// the same map are the same sequence, however each came about.
pub proof fn lemma_entries_by_map(a: Seq<(Seq<char>, Value)>, b: Seq<(Seq<char>, Value)>)
    requires
        ascending(a),
        ascending(b),
        entries_map(a) == entries_map(b),
    ensures
        a == b,
    decreases a.len(),
{
    if a.len() == 0 {
        if b.len() > 0 {
            lemma_place_unique(b, 0);
            assert(has_key(a, b[0].0));
        }
        assert(a =~= b);
    } else if b.len() == 0 {
        lemma_place_unique(a, 0);
        assert(has_key(b, a[0].0));
    } else {
        let x = a.len() - 1;
        let y = b.len() - 1;
        lemma_place_unique(a, x);
        lemma_place_unique(b, y);
        assert(has_key(b, a[x].0));
        assert(has_key(a, b[y].0));
        let xb = place_of(b, a[x].0);
        let ya = place_of(a, b[y].0);
        if a[x].0 != b[y].0 {
            assert(key_lt(b[xb].0, b[y].0));
            assert(key_lt(a[ya].0, a[x].0));
            lemma_key_lt_asymmetric(a[x].0, b[y].0);
        }
        lemma_place_unique(b, y);
        assert(a[x].1 == entries_map(a)[a[x].0]);
        assert(b[y].1 == entries_map(b)[b[y].0]);
        lemma_remove_at(a, x);
        lemma_remove_at(b, y);
        lemma_entries_by_map(a.remove(x), b.remove(y));
        assert(a =~= a.remove(x).push(a[x]));
        assert(b =~= b.remove(y).push(b[y]));
    }
}

/// The order in which an object is filled leaves no trace: two object maps
/// that came from the same map by setting two different keys, one in this
/// order and one in the other, hold the same entries in the same order.
pub proof fn lemma_insertion_order(
    a: ObjectMap,
    b: ObjectMap,
    start: Map<Seq<char>, Value>,
    k1: Seq<char>,
    v1: Value,
    k2: Seq<char>,
    v2: Value,
)
    requires
        a.wf(),
        b.wf(),
        k1 != k2,
        a@ == start.insert(k1, v1).insert(k2, v2),
        b@ == start.insert(k2, v2).insert(k1, v1),
    ensures
        a.entries() == b.entries(),
{
    assert(a@ =~= b@);
    lemma_entries_by_map(a.entries(), b.entries());
}

/// The mathematical pairs that stand for the stored pairs `v`.
spec fn pairs(v: Vec<(String, Jsonnet)>) -> Seq<(Seq<char>, Value)>
    decreases v,
{
    Seq::new(
        v.len() as nat,
        |i: int|
            if 0 <= i < v.len() {
                (v[i].0@, v[i].1.view())
            } else {
                (Seq::empty(), Value::Null)
            },
    )
}

/// The entries of an object: each key once, in ascending order.
pub struct ObjectMap {
    entries: Vec<(String, Jsonnet)>,
}

impl View for ObjectMap {
    type V = Map<Seq<char>, Value>;

    /// The map from each key to its value.
    open spec fn view(&self) -> Map<Seq<char>, Value> {
        entries_map(self.entries())
    }
}

impl ObjectMap {
    /// The entries as mathematical pairs, in the order in which they are held.
    pub closed spec fn entries(&self) -> Seq<(Seq<char>, Value)>
        decreases self,
    {
        pairs(self.entries)
    }

    /// What holds of every object map: its entries ascend by key.
    #[verifier::type_invariant]
    pub open spec fn wf(&self) -> bool {
        ascending(self.entries())
    }

    /// A map without entries.
    pub fn new() -> (m: ObjectMap)
        ensures
            m.wf(),
            m.entries() == Seq::<(Seq<char>, Value)>::empty(),
            m@ == Map::<Seq<char>, Value>::empty(),
    {
        let m = ObjectMap { entries: Vec::new() };
        proof {
            assert(m.entries() =~= Seq::<(Seq<char>, Value)>::empty());
            assert(m@ =~= Map::<Seq<char>, Value>::empty());
        }
        m
    }

    /// The number of entries.
    pub fn len(&self) -> (n: usize)
        ensures
            n == self.entries().len(),
    {
        self.entries.len()
    }

    /// The entry at place `i` in ascending order of the keys, if there are
    /// that many.
    pub fn entry(&self, i: usize) -> (e: Option<(&String, &Jsonnet)>)
        ensures
            e is Some <==> i < self.entries().len(),
            e matches Some((k, v)) ==> (k@, v@) == self.entries()[i as int],
    {
        if i < self.entries.len() {
            Some((&self.entries[i].0, &self.entries[i].1))
        } else {
            None
        }
    }

    /// Sets the value of `key`, and hands back the value that the key had
    /// before, if it had one.
    pub fn insert(&mut self, key: String, value: Jsonnet) -> (previous: Option<Jsonnet>)
        ensures
            final(self).wf(),
            final(self)@ == old(self)@.insert(key@, value@),
            match previous {
                Some(v) => old(self)@.contains_key(key@) && v@ == old(self)@[key@],
                None => !old(self)@.contains_key(key@),
            },
    {
        proof {
            use_type_invariant(&*self);
        }
        let n = self.entries.len();
        let mut i: usize = 0;
        while i < n && key_precedes(self.entries[i].0.as_str(), key.as_str())
            invariant
                n == self.entries.len(),
                i <= n,
                forall|j: int| 0 <= j < i ==> key_lt((#[trigger] self.entries()[j]).0, key@),
            decreases n - i,
        {
            i = i + 1;
        }
        let ghost before = self.entries();
        let mut held: Vec<(String, Jsonnet)> = Vec::new();
        proof {
            assert(pairs(held) =~= Seq::<(Seq<char>, Value)>::empty());
        }
        core::mem::swap(&mut self.entries, &mut held);
        let previous = if i < n && held[i].0 == key {
            proof {
                lemma_place_unique(before, i as int);
                lemma_remove_at(before, i as int);
            }
            let was = held.remove(i);
            proof {
                assert(pairs(held) =~= before.remove(i as int));
                lemma_insert_at(pairs(held), i as int, key@, value@);
            }
            held.insert(i, (key, value));
            proof {
                assert(pairs(held) =~= before.remove(i as int).insert(i as int, (key@, value@)));
                assert(entries_map(pairs(held)) =~= entries_map(before).insert(key@, value@));
            }
            Some(was.1)
        } else {
            proof {
                assert forall|j: int| i <= j < before.len() implies key_lt(
                    key@,
                    (#[trigger] before[j]).0,
                ) by {
                    lemma_key_lt_total(key@, before[i as int].0);
                    if i < j {
                        assert(key_lt(before[i as int].0, before[j].0));
                        lemma_key_lt_transitive(key@, before[i as int].0, before[j].0);
                    }
                }
                lemma_insert_at(before, i as int, key@, value@);
            }
            held.insert(i, (key, value));
            proof {
                assert(pairs(held) =~= before.insert(i as int, (key@, value@)));
            }
            None
        };
        core::mem::swap(&mut self.entries, &mut held);
        previous
    }
}

} // verus!
