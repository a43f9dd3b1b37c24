//! Maps from texts, kept as sorted lists, and the ids that a map holds.

use vstd::prelude::*;
use std::collections::HashMap;
use crate::order;
use crate::text;

verus! {

// ── Lists of pairs as maps ───────────────────────────────────────────────────

/// No key occurs twice.
pub open spec fn distinct_keys<K, V>(e: Seq<(K, V)>) -> bool {
    forall|i: int, j: int| 0 <= i < j < e.len() ==> (#[trigger] e[i]).0 != (#[trigger] e[j]).0
}

/// The position of the key `k`.
pub open spec fn key_at<K, V>(e: Seq<(K, V)>, k: K, i: int) -> bool {
    0 <= i < e.len() && e[i].0 == k
}

/// The map that a list of pairs writes out.
pub open spec fn as_map<K, V>(e: Seq<(K, V)>) -> Map<K, V> {
    Map::new(
        |k: K| exists|i: int| key_at(e, k, i),
        |k: K| e[choose|i: int| key_at(e, k, i)].1,
    )
}

proof fn lemma_as_map_at<K, V>(e: Seq<(K, V)>, i: int)
    requires
        distinct_keys(e),
        0 <= i < e.len(),
    ensures
        as_map(e).contains_key(e[i].0),
        as_map(e)[e[i].0] == e[i].1,
{
    let k = e[i].0;
    assert(key_at(e, k, i));
    let j = choose|j: int| key_at(e, k, j);
    assert(key_at(e, k, j));
    if i < j {
        assert(e[i].0 != e[j].0);
    } else if j < i {
        assert(e[j].0 != e[i].0);
    }
}

proof fn lemma_as_map_insert<K, V>(e: Seq<(K, V)>, pos: int, k: K, v: V)
    requires
        distinct_keys(e),
        0 <= pos <= e.len(),
        !as_map(e).contains_key(k),
    ensures
        distinct_keys(e.insert(pos, (k, v))),
        as_map(e.insert(pos, (k, v))) == as_map(e).insert(k, v),
{
    let r = e.insert(pos, (k, v));
    assert forall|i: int, j: int| 0 <= i < j < r.len() implies (#[trigger] r[i]).0 != (
    #[trigger] r[j]).0 by {
        let oi = if i < pos { i } else { i - 1 };
        let oj = if j < pos { j } else { j - 1 };
        if i == pos {
            assert(key_at(e, r[j].0, oj));
        } else if j == pos {
            assert(key_at(e, r[i].0, oi));
        } else {
            assert(e[oi].0 != e[oj].0);
        }
    }
    let a = as_map(r);
    let b = as_map(e).insert(k, v);
    assert forall|q: K|
        (#[trigger] a.dom().contains(q)) == b.dom().contains(q) && (a.dom().contains(q) ==> a[q]
            == b[q]) by {
        if a.contains_key(q) {
            let i = choose|i: int| key_at(r, q, i);
            assert(key_at(r, q, i));
            lemma_as_map_at(r, i);
            if i != pos {
                let oi = if i < pos { i } else { i - 1 };
                assert(key_at(e, q, oi));
                lemma_as_map_at(e, oi);
            }
        }
        if b.contains_key(q) {
            if q == k {
                assert(key_at(r, q, pos));
                lemma_as_map_at(r, pos);
            } else {
                let i = choose|i: int| key_at(e, q, i);
                assert(key_at(e, q, i));
                let ni = if i < pos { i } else { i + 1 };
                assert(key_at(r, q, ni));
            }
        }
    }
    assert(a.dom() =~= b.dom());
    assert(a =~= b);
}

proof fn lemma_as_map_update<K, V>(e: Seq<(K, V)>, pos: int, v: V)
    requires
        distinct_keys(e),
        0 <= pos < e.len(),
    ensures
        distinct_keys(e.update(pos, (e[pos].0, v))),
        as_map(e.update(pos, (e[pos].0, v))) == as_map(e).insert(e[pos].0, v),
{
    let k = e[pos].0;
    let r = e.update(pos, (k, v));
    assert forall|i: int, j: int| 0 <= i < j < r.len() implies (#[trigger] r[i]).0 != (
    #[trigger] r[j]).0 by {
        assert(e[i].0 != e[j].0);
    }
    let a = as_map(r);
    let b = as_map(e).insert(k, v);
    assert forall|q: K|
        (#[trigger] a.dom().contains(q)) == b.dom().contains(q) && (a.dom().contains(q) ==> a[q]
            == b[q]) by {
        if a.contains_key(q) {
            let i = choose|i: int| key_at(r, q, i);
            assert(key_at(r, q, i));
            lemma_as_map_at(r, i);
            assert(key_at(e, q, i));
            lemma_as_map_at(e, i);
            if i != pos {
                if q == k {
                    if i < pos {
                        assert(e[i].0 != e[pos].0);
                    } else {
                        assert(e[pos].0 != e[i].0);
                    }
                }
            }
        }
        if b.contains_key(q) {
            if q == k {
                assert(key_at(r, q, pos));
            } else {
                let i = choose|i: int| key_at(e, q, i);
                assert(key_at(e, q, i));
                assert(key_at(r, q, i));
            }
        }
    }
    assert(a.dom() =~= b.dom());
    assert(a =~= b);
}

proof fn lemma_as_map_remove<K, V>(e: Seq<(K, V)>, pos: int)
    requires
        distinct_keys(e),
        0 <= pos < e.len(),
    ensures
        distinct_keys(e.remove(pos)),
        as_map(e.remove(pos)) == as_map(e).remove(e[pos].0),
{
    let k = e[pos].0;
    let r = e.remove(pos);
    assert forall|i: int, j: int| 0 <= i < j < r.len() implies (#[trigger] r[i]).0 != (
    #[trigger] r[j]).0 by {
        let oi = if i < pos { i } else { i + 1 };
        let oj = if j < pos { j } else { j + 1 };
        assert(e[oi].0 != e[oj].0);
    }
    let a = as_map(r);
    let b = as_map(e).remove(k);
    assert forall|q: K|
        (#[trigger] a.dom().contains(q)) == b.dom().contains(q) && (a.dom().contains(q) ==> a[q]
            == b[q]) by {
        if a.contains_key(q) {
            let i = choose|i: int| key_at(r, q, i);
            assert(key_at(r, q, i));
            lemma_as_map_at(r, i);
            let oi = if i < pos { i } else { i + 1 };
            assert(key_at(e, q, oi));
            lemma_as_map_at(e, oi);
            if oi < pos {
                assert(e[oi].0 != e[pos].0);
            } else {
                assert(e[pos].0 != e[oi].0);
            }
        }
        if b.contains_key(q) {
            let i = choose|i: int| key_at(e, q, i);
            assert(key_at(e, q, i));
            let ni = if i < pos { i } else { i - 1 };
            assert(key_at(r, q, ni));
        }
    }
    assert(a.dom() =~= b.dom());
    assert(a =~= b);
}

// ── Texts as keys ────────────────────────────────────────────────────────────

/// A map from texts, its entries in ascending order of their keys.
#[derive(Debug)]
#[verifier::reject_recursive_types(V)]
pub struct TextMap<V> {
    entries: Vec<(String, V)>,
}

/// The keys stand in strictly ascending order.
pub open spec fn text_sorted<V>(e: Seq<(Seq<char>, V)>) -> bool {
    forall|i: int, j: int|
        0 <= i < j < e.len() ==> order::precedes((#[trigger] e[i]).0, (#[trigger] e[j]).0)
}

/// A sorted list of entries writes out each of its entries.
pub proof fn lemma_listed<V>(e: Seq<(Seq<char>, V)>)
    requires
        text_sorted(e),
    ensures
        forall|i: int|
            0 <= i < e.len() ==> as_map(e).contains_key((#[trigger] e[i]).0) && as_map(e)[e[i].0]
                == e[i].1,
{
    lemma_sorted_distinct(e);
    assert forall|i: int| 0 <= i < e.len() implies as_map(e).contains_key((#[trigger] e[i]).0)
        && as_map(e)[e[i].0] == e[i].1 by {
        lemma_as_map_at(e, i);
    }
}

spec fn pairs<V>(v: Seq<(String, V)>) -> Seq<(Seq<char>, V)> {
    Seq::new(v.len(), |i: int| (v[i].0@, v[i].1))
}

proof fn lemma_sorted_distinct<V>(e: Seq<(Seq<char>, V)>)
    requires
        text_sorted(e),
    ensures
        distinct_keys(e),
{
    assert forall|i: int, j: int| 0 <= i < j < e.len() implies (#[trigger] e[i]).0 != (
    #[trigger] e[j]).0 by {
        order::precedes_irreflexive(e[i].0);
    }
}

impl<V> View for TextMap<V> {
    type V = Map<Seq<char>, V>;

    closed spec fn view(&self) -> Map<Seq<char>, V> {
        as_map(pairs(self.entries@))
    }
}

impl<V> TextMap<V> {
    #[verifier::type_invariant]
    spec fn sorted(self) -> bool {
        text_sorted(pairs(self.entries@))
    }

    /// The entries in ascending order of their keys.
    pub closed spec fn listed(&self) -> Seq<(Seq<char>, V)> {
        pairs(self.entries@)
    }

    /// The map without entries.
    pub fn new() -> (r: TextMap<V>)
        ensures
            r@ == Map::<Seq<char>, V>::empty(),
            r.listed().len() == 0,
    {
        let r = TextMap { entries: Vec::new() };
        assert(r@ =~= Map::<Seq<char>, V>::empty());
        r
    }

    pub fn len(&self) -> (r: usize)
        ensures
            r == self.listed().len(),
            text_sorted(self.listed()),
            as_map(self.listed()) == self@,
    {
        proof {
            use_type_invariant(self);
        }
        self.entries.len()
    }

    /// The key of the `i`th entry.
    pub fn key(&self, i: usize) -> (r: &str)
        requires
            i < self.listed().len(),
        ensures
            r@ == self.listed()[i as int].0,
    {
        self.entries[i].0.as_str()
    }

    /// The value of the `i`th entry.
    pub fn value(&self, i: usize) -> (r: &V)
        requires
            i < self.listed().len(),
        ensures
            *r == self.listed()[i as int].1,
    {
        &self.entries[i].1
    }

    /// How many keys come before `key`.
    fn place(&self, key: &str) -> (r: usize)
        ensures
            r <= self.entries@.len(),
            forall|i: int|
                0 <= i < r ==> order::precedes((#[trigger] pairs(self.entries@)[i]).0, key@),
            r < self.entries@.len() ==> !order::precedes(pairs(self.entries@)[r as int].0, key@),
    {
        let mut i: usize = 0;
        while i < self.entries.len() && order::text_precedes(self.entries[i].0.as_str(), key)
            invariant
                i <= self.entries@.len(),
                forall|j: int|
                    0 <= j < i ==> order::precedes((#[trigger] pairs(self.entries@)[j]).0, key@),
            ensures
                i <= self.entries@.len(),
                forall|j: int|
                    0 <= j < i ==> order::precedes((#[trigger] pairs(self.entries@)[j]).0, key@),
                i < self.entries@.len() ==> !order::precedes(
                    pairs(self.entries@)[i as int].0,
                    key@,
                ),
            decreases self.entries@.len() - i,
        {
            i += 1;
        }
        i
    }

    /// Where `key` stands, if it is in the map.
    fn find(&self, key: &str) -> (r: Option<usize>)
        ensures
            match r {
                Some(i) => key_at(pairs(self.entries@), key@, i as int) && self@.contains_key(key@)
                    && self@[key@] == self.entries@[i as int].1,
                None => !self@.contains_key(key@),
            },
    {
        proof {
            use_type_invariant(self);
            lemma_sorted_distinct(pairs(self.entries@));
        }
        let i = self.place(key);
        let ghost e = pairs(self.entries@);
        if i < self.entries.len() && text::same_text(self.entries[i].0.as_str(), key) {
            proof {
                lemma_as_map_at(e, i as int);
            }
            return Some(i);
        }
        proof {
            if self@.contains_key(key@) {
                let j = choose|j: int| key_at(e, key@, j);
                assert(key_at(e, key@, j));
                order::precedes_irreflexive(key@);
                if j > i {
                    assert(order::precedes(e[i as int].0, e[j].0));
                }
            }
        }
        None
    }

    pub fn contains_key(&self, key: &str) -> (r: bool)
        ensures
            r == self@.contains_key(key@),
    {
        self.find(key).is_some()
    }

    /// The value of `key`.
    pub fn get(&self, key: &str) -> (r: Option<&V>)
        ensures
            match r {
                Some(v) => self@.contains_key(key@) && *v == self@[key@],
                None => !self@.contains_key(key@),
            },
    {
        match self.find(key) {
            Some(i) => Some(&self.entries[i].1),
            None => None,
        }
    }

    /// Sets the value of `key`.
    pub fn insert(&mut self, key: String, value: V)
        ensures
            final(self)@ == old(self)@.insert(key@, value),
    {
        proof {
            use_type_invariant(&*self);
            lemma_sorted_distinct(pairs(self.entries@));
        }
        let at = self.find(key.as_str());
        let pos = self.place(key.as_str());
        let ghost e = pairs(self.entries@);
        let ghost k = key@;
        let mut entries: Vec<(String, V)> = Vec::new();
        core::mem::swap(&mut entries, &mut self.entries);
        match at {
            Some(i) => {
                entries[i].1 = value;
                proof {
                    lemma_as_map_update(e, i as int, value);
                    assert(pairs(entries@) =~= e.update(i as int, (k, value)));
                    let n = pairs(entries@);
                    assert forall|i: int, j: int| 0 <= i < j < n.len() implies order::precedes(
                        (#[trigger] n[i]).0,
                        (#[trigger] n[j]).0,
                    ) by {
                        assert(order::precedes(e[i].0, e[j].0));
                    }
                }
            },
            None => {
                entries.insert(pos, (key, value));
                proof {
                    lemma_as_map_insert(e, pos as int, k, value);
                    assert(pairs(entries@) =~= e.insert(pos as int, (k, value)));
                    let n = pairs(entries@);
                    assert forall|i: int, j: int| 0 <= i < j < n.len() implies order::precedes(
                        (#[trigger] n[i]).0,
                        (#[trigger] n[j]).0,
                    ) by {
                        let oi = if i < pos { i } else { i - 1 };
                        let oj = if j < pos { j } else { j - 1 };
                        if i == pos {
                            order::precedes_total(e[pos as int].0, k);
                            if e[pos as int].0 == k {
                                assert(key_at(e, k, pos as int));
                            }
                            if oj > pos {
                                assert(order::precedes(e[pos as int].0, e[oj].0));
                                order::precedes_transitive(k, e[pos as int].0, e[oj].0);
                            }
                        } else if j == pos {
                            assert(order::precedes(e[oi].0, k));
                        } else {
                            assert(order::precedes(e[oi].0, e[oj].0));
                        }
                    }
                }
            },
        }
        self.entries = entries;
    }

    /// Takes `key` out of the map.
    pub fn remove(&mut self, key: &str) -> (r: Option<V>)
        ensures
            final(self)@ == old(self)@.remove(key@),
            match r {
                Some(v) => old(self)@.contains_key(key@) && v == old(self)@[key@],
                None => !old(self)@.contains_key(key@),
            },
    {
        proof {
            use_type_invariant(&*self);
            lemma_sorted_distinct(pairs(self.entries@));
        }
        let at = self.find(key);
        match at {
            Some(i) => {
                let ghost e = pairs(self.entries@);
                let mut entries: Vec<(String, V)> = Vec::new();
                core::mem::swap(&mut entries, &mut self.entries);
                let (_, v) = entries.remove(i);
                proof {
                    lemma_as_map_remove(e, i as int);
                    assert(pairs(entries@) =~= e.remove(i as int));
                    let n = pairs(entries@);
                    assert forall|a: int, b: int| 0 <= a < b < n.len() implies order::precedes(
                        (#[trigger] n[a]).0,
                        (#[trigger] n[b]).0,
                    ) by {
                        let oa = if a < i { a } else { a + 1 };
                        let ob = if b < i { b } else { b + 1 };
                        assert(order::precedes(e[oa].0, e[ob].0));
                    }
                }
                self.entries = entries;
                Some(v)
            },
            None => {
                assert(old(self)@.remove(key@) =~= old(self)@);
                None
            },
        }
    }
}

impl<V> Default for TextMap<V> {
    fn default() -> (r: TextMap<V>)
        ensures
            r@ == Map::<Seq<char>, V>::empty(),
    {
        TextMap::new()
    }
}

impl<V: Clone> Clone for TextMap<V> {
    fn clone(&self) -> (r: TextMap<V>)
        ensures
            r@.dom() == self@.dom(),
            forall|k: Seq<char>| #[trigger]
                r@.contains_key(k) ==> cloned::<V>(self@[k], r@[k]),
    {
        proof {
            use_type_invariant(self);
        }
        let mut entries: Vec<(String, V)> = Vec::new();
        for i in 0..self.entries.len()
            invariant
                entries@.len() == i,
                forall|j: int|
                    0 <= j < i ==> (#[trigger] entries@[j]).0 == self.entries@[j].0 && cloned::<V>(
                        self.entries@[j].1,
                        entries@[j].1,
                    ),
        {
            entries.push((self.entries[i].0.clone(), self.entries[i].1.clone()));
        }
        proof {
            let a = pairs(self.entries@);
            let b = pairs(entries@);
            assert forall|i: int, j: int| 0 <= i < j < b.len() implies order::precedes(
                (#[trigger] b[i]).0,
                (#[trigger] b[j]).0,
            ) by {
                assert(entries@[i].0 == self.entries@[i].0);
                assert(entries@[j].0 == self.entries@[j].0);
                assert(order::precedes(a[i].0, a[j].0));
            }
            lemma_sorted_distinct(a);
            lemma_sorted_distinct(b);
            assert forall|k: Seq<char>|
                (#[trigger] as_map(b).dom().contains(k)) == as_map(a).dom().contains(k) && (as_map(
                    b,
                ).dom().contains(k) ==> cloned::<V>(as_map(a)[k], as_map(b)[k])) by {
                if as_map(b).dom().contains(k) {
                    let i = choose|i: int| key_at(b, k, i);
                    assert(key_at(b, k, i));
                    assert(entries@[i].0 == self.entries@[i].0);
                    assert(key_at(a, k, i));
                    lemma_as_map_at(a, i);
                    lemma_as_map_at(b, i);
                }
                if as_map(a).dom().contains(k) {
                    let i = choose|i: int| key_at(a, k, i);
                    assert(key_at(a, k, i));
                    assert(entries@[i].0 == self.entries@[i].0);
                    assert(key_at(b, k, i));
                }
            }
            assert(as_map(b).dom() =~= as_map(a).dom());
        }
        TextMap { entries }
    }
}

/// The texts that a map of strings holds.
pub open spec fn text_values(m: Map<Seq<char>, String>) -> Map<Seq<char>, Seq<char>> {
    Map::new(|k: Seq<char>| m.contains_key(k), |k: Seq<char>| m[k]@)
}

// ── Ids as keys ──────────────────────────────────────────────────────────────

/// The ids stand in strictly ascending order.
pub open spec fn ids_ascend(ids: Seq<u32>) -> bool {
    forall|i: int, j: int| 0 <= i < j < ids.len() ==> (#[trigger] ids[i]) < (#[trigger] ids[j])
}

/// Puts an id that is not there yet at its place.
fn insert_id(ids: &mut Vec<u32>, id: u32)
    requires
        ids_ascend(old(ids)@),
        !old(ids)@.contains(id),
    ensures
        ids_ascend(final(ids)@),
        forall|k: u32| #[trigger]
            final(ids)@.contains(k) <==> k == id || old(ids)@.contains(k),
{
    let ghost was = ids@;
    let mut pos: usize = 0;
    while pos < ids.len() && ids[pos] < id
        invariant
            ids@ == was,
            pos <= was.len(),
            forall|j: int| 0 <= j < pos ==> (#[trigger] was[j]) < id,
        ensures
            ids@ == was,
            pos <= was.len(),
            forall|j: int| 0 <= j < pos ==> (#[trigger] was[j]) < id,
            pos < was.len() ==> was[pos as int] >= id,
        decreases was.len() - pos,
    {
        pos += 1;
    }
    ids.insert(pos, id);
    proof {
        let n = ids@;
        if pos < was.len() {
            assert(was.contains(was[pos as int]));
        }
        assert forall|i: int, j: int| 0 <= i < j < n.len() implies (#[trigger] n[i]) < (
        #[trigger] n[j]) by {
            let oi = if i < pos { i } else { i - 1 };
            let oj = if j < pos { j } else { j - 1 };
            if i == pos {
                assert(was[pos as int] <= was[oj]);
            } else if j != pos {
                assert(was[oi] < was[oj]);
            }
        }
        assert forall|k: u32| #[trigger] n.contains(k) <==> k == id || was.contains(k) by {
            if n.contains(k) && k != id {
                let i = n.index_of(k);
                assert(was[if i < pos { i } else { i - 1 }] == k);
            }
            if was.contains(k) {
                let i = was.index_of(k);
                assert(n[if i < pos { i } else { i + 1 }] == k);
            }
            assert(n[pos as int] == id);
        }
    }
}

/// The ids that a map holds, in ascending order.
pub fn sorted_ids<V>(m: &HashMap<u32, V>) -> (r: Vec<u32>)
    ensures
        ids_ascend(r@),
        forall|k: u32| #[trigger] r@.contains(k) <==> m@.contains_key(k),
{
    let mut r: Vec<u32> = Vec::new();
    for k in it: m.keys()
        invariant
            it.seq().no_duplicates(),
            it.seq().unref().to_set() == m@.dom(),
            ids_ascend(r@),
            forall|q: u32| #[trigger]
                r@.contains(q) <==> it.seq().unref().take(it.index() as int).contains(q),
            it.index() == it.seq().len() ==> forall|q: u32| #[trigger]
                r@.contains(q) <==> m@.contains_key(q),
    {
        proof {
            let all = it.seq().unref();
            let seen = all.take(it.index() as int);
            let next = all.take(it.index() + 1);
            assert(next =~= seen.push(*k));
            assert forall|j: int| 0 <= j < seen.len() implies (#[trigger] seen[j]) != *k by {
                assert(it.seq()[j] != it.seq()[it.index() as int]);
            }
            assert forall|q: u32| #[trigger] next.contains(q) <==> q == *k || seen.contains(q) by {
                assert(next[next.len() - 1] == *k);
                assert forall|j: int| 0 <= j < seen.len() implies next[j] == #[trigger] seen[j] by {
                }
            }
            assert(all.take(all.len() as int) =~= all);
            assert forall|q: u32| #[trigger] all.contains(q) <==> m@.contains_key(q) by {
                assert(all.contains(q) <==> all.to_set().contains(q));
            }
        }
        insert_id(&mut r, *k);
    }
    r
}

/// The map that a sorted list writes out has the values of the list under its keys, and
/// nothing else; the keys ascend.
pub proof fn sorted_entries_are_the_map<V>(e: Seq<(Seq<char>, V)>, k: Seq<char>, i: int, j: int)
    requires
        text_sorted(e),
    ensures
        0 <= i < e.len() && e[i].0 == k ==> as_map(e).contains_key(k) && as_map(e)[k] == e[i].1,
        as_map(e).contains_key(k) ==> exists|n: int| 0 <= n < e.len() && (#[trigger] e[n]).0 == k,
        0 <= i < j < e.len() ==> order::precedes(e[i].0, e[j].0),
{
    lemma_listed(e);
    if as_map(e).contains_key(k) {
        let n = choose|n: int| key_at(e, k, n);
        assert(e[n].0 == k);
    }
}

/// The texts of a map stand under their own keys.
pub proof fn text_values_keep_keys(m: Map<Seq<char>, String>, k: Seq<char>)
    ensures
        text_values(m).contains_key(k) == m.contains_key(k),
        m.contains_key(k) ==> text_values(m)[k] == m[k]@,
{
}

/// Ids that ascend are all different, and each is smaller than the later ones.
pub proof fn ascending_ids_ascend(ids: Seq<u32>, i: int, j: int)
    requires
        ids_ascend(ids),
        0 <= i < j < ids.len(),
    ensures
        ids[i] < ids[j],
{
}

} // verus!
