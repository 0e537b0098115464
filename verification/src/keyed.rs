//! Maps from a scoped name to a value.
//!
//! A key is an optional scope, which is a tenant, and a name. The values lie in
//! a list; a `DashMap` finds the place of a key.
use crate::text;
use crate::text::{clone_opt, opt_str_eq, str_eq};
use dashmap::DashMap;
use std::sync::Arc;
use vstd::prelude::*;

verus! {

/// A name within an optional scope.
pub type ScopedName = (Option<Arc<str>>, Arc<str>);

/// A scoped name as texts.
pub type KeyModel = (Option<Seq<char>>, Seq<char>);

pub open spec fn key_of(k: ScopedName) -> KeyModel {
    (text::opt_chars(k.0), (*k.1)@)
}

/// `dashmap::DashMap`, a concurrent hash map.
#[verifier::external_type_specification]
#[verifier::external_body]
#[verifier::reject_recursive_types(K)]
#[verifier::reject_recursive_types(V)]
#[verifier::reject_recursive_types(S)]
pub struct ExDashMap<K, V, S>(DashMap<K, V, S>);

/// The places that a `DashMap` holds, by key. Two keys are one where their texts
/// are the same.
pub uninterp spec fn places(m: DashMap<ScopedName, usize>) -> Map<KeyModel, usize>;

/// `DashMap::new`: no key.
#[verifier::external_body]
fn no_places() -> (r: DashMap<ScopedName, usize>)
    ensures
        places(r) =~= map![],
{
    DashMap::new()
}

/// `DashMap::get`: the place of a key, if it has one.
#[verifier::external_body]
fn find_place(m: &DashMap<ScopedName, usize>, key: &ScopedName) -> (r: Option<usize>)
    ensures
        r is Some <==> places(*m).contains_key(key_of(*key)),
        r matches Some(i) ==> i == places(*m)[key_of(*key)],
{
    m.get(key).map(|e| *e.value())
}

/// `DashMap::insert`: the key has this place now.
#[verifier::external_body]
fn set_place(m: &mut DashMap<ScopedName, usize>, key: ScopedName, place: usize)
    ensures
        places(*final(m)) == places(*old(m)).insert(key_of(key), place),
{
    m.insert(key, place);
}

/// `DashMap::remove`: the key has no place any more.
#[verifier::external_body]
fn clear_place(m: &mut DashMap<ScopedName, usize>, key: &ScopedName)
    ensures
        places(*final(m)) == places(*old(m)).remove(key_of(*key)),
{
    m.remove(key);
}

/// A second handle on a key.
pub fn clone_key(k: &ScopedName) -> (r: ScopedName)
    ensures
        r == *k,
{
    (clone_opt(&k.0), k.1.clone())
}

/// Whether no two entries have the same key.
pub open spec fn distinct_keys<V>(list: Seq<(ScopedName, V)>) -> bool {
    forall|i: int, j: int|
        0 <= i < j < list.len() ==> key_of((#[trigger] list[i]).0) != key_of((#[trigger] list[j]).0)
}

/// Whether an entry of the list has this key.
pub open spec fn has_key<V>(list: Seq<(ScopedName, V)>, k: KeyModel) -> bool {
    exists|i: int| 0 <= i < list.len() && key_of((#[trigger] list[i]).0) == k
}

/// The place of an entry with this key.
pub open spec fn place_of<V>(list: Seq<(ScopedName, V)>, k: KeyModel) -> int {
    choose|i: int| 0 <= i < list.len() && key_of((#[trigger] list[i]).0) == k
}

/// The map that a list of entries stands for.
pub open spec fn map_of<V>(list: Seq<(ScopedName, V)>) -> Map<KeyModel, V> {
    Map::new(|k: KeyModel| has_key(list, k), |k: KeyModel| list[place_of(list, k)].1)
}

/// An entry is in the map.
pub proof fn lemma_entry<V>(list: Seq<(ScopedName, V)>, i: int)
    requires
        distinct_keys(list),
        0 <= i < list.len(),
    ensures
        map_of(list).contains_key(key_of(list[i].0)),
        map_of(list)[key_of(list[i].0)] == list[i].1,
        place_of(list, key_of(list[i].0)) == i,
{
    let k = key_of(list[i].0);
    assert(has_key(list, k));
    let j = place_of(list, k);
    if i < j {
        assert(key_of(list[i].0) != key_of(list[j].0));
    } else if j < i {
        assert(key_of(list[j].0) != key_of(list[i].0));
    }
}

/// What is in the map is an entry.
pub proof fn lemma_key<V>(list: Seq<(ScopedName, V)>, k: KeyModel)
    requires
        map_of(list).contains_key(k),
    ensures
        0 <= place_of(list, k) < list.len(),
        key_of(list[place_of(list, k)].0) == k,
        map_of(list)[k] == list[place_of(list, k)].1,
{
    assert(has_key(list, k));
}

/// The map has as many keys as the list has entries.
pub proof fn lemma_map_len<V>(list: Seq<(ScopedName, V)>)
    requires
        distinct_keys(list),
    ensures
        map_of(list).dom().finite(),
        map_of(list).len() == list.len(),
    decreases list.len(),
{
    if list.len() == 0 {
        assert(map_of(list).dom() =~= Set::<KeyModel>::empty());
    } else {
        let front = list.drop_last();
        let k = key_of(list.last().0);
        lemma_map_len(front);
        assert(map_of(list).dom() =~= map_of(front).dom().insert(k)) by {
            assert forall|x: KeyModel| has_key(list, x) <==> (has_key(front, x) || x == k) by {
                if has_key(list, x) {
                    let i = place_of(list, x);
                    if i < front.len() {
                        assert(key_of(front[i].0) == x);
                    }
                }
                if has_key(front, x) {
                    let i = place_of(front, x);
                    assert(key_of(list[i].0) == x);
                }
                if x == k {
                    assert(key_of(list[list.len() - 1].0) == x);
                }
            }
        }
        assert(!map_of(front).contains_key(k)) by {
            if has_key(front, k) {
                let i = place_of(front, k);
                assert(key_of(list[i].0) == key_of(list[list.len() - 1].0));
            }
        }
    }
}

/// The keys of a map that lie in a scope.
pub open spec fn scoped_keys<V>(m: Map<KeyModel, V>, scope: Option<Seq<char>>) -> Set<KeyModel> {
    m.dom().filter(|k: KeyModel| k.0 == scope)
}

/// One entry more adds its key to its scope and to no other.
proof fn lemma_scoped_step<V>(list: Seq<(ScopedName, V)>, n: int, scope: Option<Seq<char>>)
    requires
        distinct_keys(list),
        0 <= n < list.len(),
    ensures
        scoped_keys(map_of(list.take(n)), scope).finite(),
        key_of(list[n].0).0 == scope ==> scoped_keys(map_of(list.take(n + 1)), scope).len()
            == scoped_keys(map_of(list.take(n)), scope).len() + 1,
        key_of(list[n].0).0 != scope ==> scoped_keys(map_of(list.take(n + 1)), scope)
            == scoped_keys(map_of(list.take(n)), scope),
{
    let a = list.take(n);
    let b = list.take(n + 1);
    let k = key_of(list[n].0);
    lemma_map_len(a);
    map_of(a).dom().lemma_len_filter(|k: KeyModel| k.0 == scope);
    assert forall|x: KeyModel| has_key(b, x) <==> (has_key(a, x) || x == k) by {
        if has_key(b, x) {
            let i = place_of(b, x);
            if i < n {
                assert(key_of(a[i].0) == x);
            }
        }
        if has_key(a, x) {
            let i = place_of(a, x);
            assert(key_of(b[i].0) == x);
        }
        if x == k {
            assert(key_of(b[n].0) == x);
        }
    }
    assert(!has_key(a, k)) by {
        if has_key(a, k) {
            let i = place_of(a, k);
            assert(key_of(list[i].0) == key_of(list[n].0));
        }
    }
    if k.0 == scope {
        assert(scoped_keys(map_of(b), scope) =~= scoped_keys(map_of(a), scope).insert(k));
    } else {
        assert(scoped_keys(map_of(b), scope) =~= scoped_keys(map_of(a), scope));
    }
}

/// A map from scoped names to values.
#[verifier::reject_recursive_types(V)]
pub struct KeyedStore<V> {
    /// Nothing while there is no entry yet.
    index: Option<DashMap<ScopedName, usize>>,
    entries: Vec<(ScopedName, V)>,
}

/// Every entry is found at its place, and nothing else is found.
spec fn indexed<V>(index: Map<KeyModel, usize>, list: Seq<(ScopedName, V)>) -> bool {
    &&& forall|i: int|
        #![trigger list[i]]
        0 <= i < list.len() ==> index.contains_key(key_of(list[i].0)) && index[key_of(list[i].0)]
            == i
    &&& forall|k: KeyModel| #[trigger]
        index.contains_key(k) ==> index[k] < list.len() && key_of(list[index[k] as int].0) == k
}

proof fn lemma_indexed<V>(index: Map<KeyModel, usize>, list: Seq<(ScopedName, V)>)
    requires
        indexed(index, list),
    ensures
        distinct_keys(list),
        forall|k: KeyModel| #[trigger] map_of(list).contains_key(k) <==> index.contains_key(k),
        forall|k: KeyModel| #[trigger]
            map_of(list).contains_key(k) ==> map_of(list)[k] == list[index[k] as int].1,
{
    assert forall|i: int, j: int| 0 <= i < j < list.len() implies key_of((#[trigger] list[i]).0)
        != key_of((#[trigger] list[j]).0) by {
        assert(index[key_of(list[i].0)] == i);
        assert(index[key_of(list[j].0)] == j);
    }
    assert forall|k: KeyModel| #[trigger] map_of(list).contains_key(k) <==> index.contains_key(
        k,
    ) by {
        if map_of(list).contains_key(k) {
            lemma_key(list, k);
            let i = place_of(list, k);
            assert(index.contains_key(key_of(list[i].0)));
        }
        if index.contains_key(k) {
            lemma_entry(list, index[k] as int);
        }
    }
    assert forall|k: KeyModel| #[trigger] map_of(list).contains_key(k) implies map_of(list)[k]
        == list[index[k] as int].1 by {
        assert(index.contains_key(k));
        lemma_entry(list, index[k] as int);
    }
}

impl<V> KeyedStore<V> {
    /// The entries in the order of the list.
    pub closed spec fn list(&self) -> Seq<(ScopedName, V)> {
        self.entries@
    }

    #[verifier::type_invariant]
    spec fn placed(&self) -> bool {
        match self.index {
            Some(m) => indexed(places(m), self.entries@),
            None => self.entries@.len() == 0,
        }
    }
}

impl<V> View for KeyedStore<V> {
    type V = Map<KeyModel, V>;

    open spec fn view(&self) -> Map<KeyModel, V> {
        map_of(self.list())
    }
}

impl<V> KeyedStore<V> {
    pub fn new() -> (r: KeyedStore<V>)
        ensures
            r.list() == Seq::<(ScopedName, V)>::empty(),
            r@ == Map::<KeyModel, V>::empty(),
    {
        let r = KeyedStore { index: None, entries: Vec::new() };
        assert(r@ =~= Map::<KeyModel, V>::empty());
        r
    }

    /// The entries; no two have the same key.
    pub fn entries(&self) -> (r: &Vec<(ScopedName, V)>)
        ensures
            r@ == self.list(),
            distinct_keys(r@),
    {
        proof {
            use_type_invariant(self);
            if self.index is Some {
                lemma_indexed(places(self.index->0), self.entries@);
            }
        }
        &self.entries
    }

    /// The number of keys.
    pub fn len(&self) -> (r: usize)
        ensures
            r == self@.len(),
            self@.dom().finite(),
    {
        let e = self.entries();
        proof {
            lemma_map_len(e@);
        }
        e.len()
    }

    /// The number of keys in a scope.
    pub fn count_scope(&self, scope: &Option<Arc<str>>) -> (r: usize)
        ensures
            r == scoped_keys(self@, text::opt_chars(*scope)).len(),
    {
        let e = self.entries();
        let ghost t = text::opt_chars(*scope);
        let mut n: usize = 0;
        let mut i: usize = 0;
        proof {
            assert(scoped_keys(map_of(e@.take(0)), t) =~= Set::<KeyModel>::empty());
        }
        while i < e.len()
            invariant
                i <= e@.len(),
                n <= i,
                distinct_keys(e@),
                t == text::opt_chars(*scope),
                n == scoped_keys(map_of(e@.take(i as int)), t).len(),
            decreases e@.len() - i,
        {
            proof {
                lemma_scoped_step(e@, i as int, t);
            }
            if opt_str_eq(&e[i].0.0, scope) {
                n += 1;
            }
            i += 1;
        }
        assert(e@.take(i as int) =~= e@);
        n
    }

    /// The value under a key.
    pub fn get(&self, key: &ScopedName) -> (r: Option<&V>)
        ensures
            r is Some <==> self@.contains_key(key_of(*key)),
            r matches Some(v) ==> *v == self@[key_of(*key)],
    {
        proof {
            use_type_invariant(self);
        }
        match &self.index {
            None => {
                assert(!has_key(self.list(), key_of(*key)));
                None
            },
            Some(m) => {
                proof {
                    lemma_indexed(places(*m), self.entries@);
                }
                match find_place(m, key) {
                    None => {
                        assert(!self@.contains_key(key_of(*key)));
                        None
                    },
                    Some(i) => {
                        assert(self@.contains_key(key_of(*key)));
                        Some(&self.entries[i].1)
                    },
                }
            },
        }
    }

    /// Puts a value under a key and returns the value that was there.
    pub fn insert(&mut self, key: ScopedName, value: V) -> (r: Option<V>)
        ensures
            final(self)@ == old(self)@.insert(key_of(key), value),
            r is Some <==> old(self)@.contains_key(key_of(key)),
            r matches Some(v) ==> v == old(self)@[key_of(key)],
    {
        proof {
            use_type_invariant(&*self);
        }
        let ghost k = key_of(key);
        let ghost before = self.entries@;
        let mut taken = KeyedStore { index: None, entries: Vec::new() };
        std::mem::swap(self, &mut taken);
        let KeyedStore { index, mut entries } = taken;
        let mut index = match index {
            Some(m) => m,
            None => no_places(),
        };
        proof {
            assert(indexed(places(index), before));
            lemma_indexed(places(index), before);
        }
        match find_place(&index, &key) {
            Some(i) => {
                entries.push((key, value));
                let (_key, v) = entries.swap_remove(i);
                proof {
                    assert(map_of(before).contains_key(k));
                    assert(entries@ =~= before.update(i as int, (key, value)));
                    assert(indexed(places(index), entries@));
                    lemma_indexed(places(index), entries@);
                    assert(map_of(entries@) =~= map_of(before).insert(k, value));
                }
                *self = KeyedStore { index: Some(index), entries };
                Some(v)
            },
            None => {
                let n: usize = entries.len();
                let ghost old_index = places(index);
                set_place(&mut index, clone_key(&key), n);
                entries.push((key, value));
                proof {
                    assert(!map_of(before).contains_key(k));
                    assert forall|i: int|
                        #![trigger entries@[i]]
                        0 <= i < entries@.len() implies places(index).contains_key(
                        key_of(entries@[i].0),
                    ) && places(index)[key_of(entries@[i].0)] == i by {
                        if i < n {
                            assert(entries@[i] == before[i]);
                            assert(old_index.contains_key(key_of(before[i].0)));
                        }
                    }
                    assert forall|x: KeyModel| #[trigger]
                        places(index).contains_key(x) implies places(index)[x] < entries@.len()
                        && key_of(entries@[places(index)[x] as int].0) == x by {
                        if x != k {
                            assert(old_index.contains_key(x));
                        }
                    }
                    assert(indexed(places(index), entries@));
                    lemma_indexed(places(index), entries@);
                    assert(map_of(entries@) =~= map_of(before).insert(k, value)) by {
                        assert forall|x: KeyModel| #[trigger] map_of(entries@).contains_key(x)
                            implies map_of(entries@)[x] == map_of(before).insert(k, value)[x] by {
                            if x != k {
                                assert(old_index.contains_key(x));
                                assert(map_of(before).contains_key(x));
                            }
                        }
                    }
                }
                *self = KeyedStore { index: Some(index), entries };
                None
            },
        }
    }

    /// Takes the value under a key out.
    pub fn remove(&mut self, key: &ScopedName) -> (r: Option<V>)
        ensures
            final(self)@ == old(self)@.remove(key_of(*key)),
            r is Some <==> old(self)@.contains_key(key_of(*key)),
            r matches Some(v) ==> v == old(self)@[key_of(*key)],
    {
        proof {
            use_type_invariant(&*self);
        }
        let ghost k = key_of(*key);
        let ghost before = self.entries@;
        let mut taken = KeyedStore { index: None, entries: Vec::new() };
        std::mem::swap(self, &mut taken);
        let KeyedStore { index, mut entries } = taken;
        let mut index = match index {
            Some(m) => m,
            None => no_places(),
        };
        proof {
            assert(indexed(places(index), before));
            lemma_indexed(places(index), before);
        }
        match find_place(&index, key) {
            None => {
                proof {
                    assert(!map_of(before).contains_key(k));
                    assert(map_of(before).remove(k) =~= map_of(before));
                }
                *self = KeyedStore { index: Some(index), entries };
                None
            },
            Some(i) => {
                let ghost old_index = places(index);
                let n: usize = entries.len() - 1;
                assert(map_of(before).contains_key(k));
                clear_place(&mut index, key);
                if i < n {
                    set_place(&mut index, clone_key(&entries[n].0), i);
                }
                let (_key, v) = entries.swap_remove(i);
                proof {
                    assert(key_of(before[i as int].0) == k);
                    let last = key_of(before[n as int].0);
                    assert(old_index.contains_key(last) && old_index[last] == n);
                    assert forall|j: int|
                        #![trigger entries@[j]]
                        0 <= j < entries@.len() implies places(index).contains_key(
                        key_of(entries@[j].0),
                    ) && places(index)[key_of(entries@[j].0)] == j by {
                        if j == i {
                            assert(entries@[j] == before[n as int]);
                        } else {
                            assert(entries@[j] == before[j]);
                            assert(old_index.contains_key(key_of(before[j].0)));
                            assert(old_index[key_of(before[j].0)] == j);
                        }
                    }
                    assert forall|x: KeyModel| #[trigger]
                        places(index).contains_key(x) implies places(index)[x] < entries@.len()
                        && key_of(entries@[places(index)[x] as int].0) == x by {
                        assert(old_index.contains_key(x));
                        if i < n && x == last {
                            assert(entries@[i as int] == before[n as int]);
                        } else {
                            assert(old_index[x] != i);
                            assert(old_index[x] != n);
                            assert(entries@[old_index[x] as int] == before[old_index[x] as int]);
                        }
                    }
                    assert(indexed(places(index), entries@));
                    lemma_indexed(places(index), entries@);
                    assert forall|x: KeyModel| places(index).contains_key(x) <==> (
                    old_index.contains_key(x) && x != k) by {}
                    assert(map_of(entries@) =~= map_of(before).remove(k)) by {
                        assert forall|x: KeyModel| #[trigger] map_of(entries@).contains_key(x)
                            implies map_of(entries@)[x] == map_of(before).remove(k)[x] by {
                            assert(places(index).contains_key(x));
                            assert(old_index.contains_key(x));
                            assert(map_of(before).contains_key(x));
                        }
                        assert forall|x: KeyModel| #[trigger]
                            map_of(before).remove(k).contains_key(x) implies map_of(
                            entries@,
                        ).contains_key(x) by {
                            assert(map_of(before).contains_key(x));
                            assert(places(index).contains_key(x));
                        }
                    }
                }
                *self = KeyedStore { index: Some(index), entries };
                Some(v)
            },
        }
    }
}

} // verus!
