//! A map from packet identifiers to values.
use std::collections::BTreeMap;
use vstd::laws_cmp::*;
use vstd::prelude::*;
use vstd::std_specs::btree::*;
use vstd::std_specs::cmp::*;
use vstd::std_specs::iter::*;

verus! {

/// A map from packet identifiers to values, walked in ascending order.
pub struct PMap<V> {
    inner: BTreeMap<u16, V>,
}

impl<V> View for PMap<V> {
    type V = Map<u16, V>;

    closed spec fn view(&self) -> Map<u16, V> {
        self.inner@
    }
}

/// Whether a list holds the keys of a map, each once, in ascending order.
pub open spec fn lists_keys<V>(ids: Seq<u16>, m: Map<u16, V>) -> bool {
    &&& forall|i: int, j: int| 0 <= i < j < ids.len() ==> #[trigger] ids[i] < #[trigger] ids[j]
    &&& forall|k: u16| #[trigger] m.contains_key(k) <==> ids.contains(k)
}

impl<V> PMap<V> {
    pub fn new() -> (r: PMap<V>)
        ensures
            r@ == Map::<u16, V>::empty(),
    {
        PMap { inner: BTreeMap::new() }
    }

    /// Puts a value under an identifier and returns the one that was there.
    pub fn insert(&mut self, key: u16, value: V) -> (r: Option<V>)
        ensures
            final(self)@ == old(self)@.insert(key, value),
            r is Some <==> old(self)@.contains_key(key),
            r matches Some(v) ==> v == old(self)@[key],
    {
        self.inner.insert(key, value)
    }

    /// Takes the value under an identifier out.
    pub fn remove(&mut self, key: u16) -> (r: Option<V>)
        ensures
            final(self)@ == old(self)@.remove(key),
            r is Some <==> old(self)@.contains_key(key),
            r matches Some(v) ==> v == old(self)@[key],
    {
        self.inner.remove(&key)
    }

    pub fn get(&self, key: u16) -> (r: Option<&V>)
        ensures
            r is Some <==> self@.contains_key(key),
            r matches Some(v) ==> *v == self@[key],
    {
        self.inner.get(&key)
    }

    pub fn contains_key(&self, key: u16) -> (r: bool)
        ensures
            r == self@.contains_key(key),
    {
        self.inner.contains_key(&key)
    }

    pub fn len(&self) -> (r: usize)
        ensures
            r == self@.len(),
            self@.dom().finite(),
    {
        self.inner.len()
    }

    pub fn clear(&mut self)
        ensures
            final(self)@ == Map::<u16, V>::empty(),
    {
        self.inner.clear();
    }

    /// The identifiers in ascending order.
    pub fn keys(&self) -> (r: Vec<u16>)
        ensures
            lists_keys(r@, self@),
    {
        let mut out: Vec<u16> = Vec::new();
        let keys = self.inner.keys();
        let ghost all = IteratorSpec::remaining(&keys);
        for k in it: keys
            invariant
                it.seq() == all,
                out@ == all.unref().subrange(0, it.index()),
        {
            out.push(*k);
            assert(out@ =~= all.unref().subrange(0, it.index() + 1));
        }
        proof {
            assert(out@ =~= all.unref());
            broadcast use lemma_ref_obeys_cmp_spec;

            assert(obeys_cmp::<&u16>());
            axiom_increasing_seq_meaning(all);
            assert forall|i: int, j: int| 0 <= i < j < out@.len() implies #[trigger] out@[i]
                < #[trigger] out@[j] by {
                assert(OrdSpec::cmp_spec(&all[i], &all[j]) is Less);
            }
            assert forall|k: u16| #[trigger] self@.contains_key(k) <==> out@.contains(k) by {
                assert(self.inner@.dom().contains(k) <==> all.unref().to_set().contains(k));
            }
        }
        out
    }

    /// The entries in ascending order of the identifiers.
    pub fn snapshot(&self) -> (r: Vec<(u16, V)>) where V: Clone
        ensures
            lists_keys(Seq::new(r@.len(), |i: int| r@[i].0), self@),
            forall|i: int|
                0 <= i < r@.len() ==> cloned(self@[(#[trigger] r@[i]).0], r@[i].1),
    {
        let ids: Vec<u16> = self.keys();
        let mut out: Vec<(u16, V)> = Vec::new();
        let mut i: usize = 0;
        while i < ids.len()
            invariant
                i <= ids@.len(),
                lists_keys(ids@, self@),
                out@.len() == i,
                forall|j: int|
                    0 <= j < i ==> (#[trigger] out@[j]).0 == ids@[j] && cloned(
                        self@[out@[j].0],
                        out@[j].1,
                    ),
            decreases ids@.len() - i,
        {
            let id: u16 = ids[i];
            assert(ids@.contains(id));
            match self.get(id) {
                Some(v) => out.push((id, v.clone())),
                None => {},
            }
            i += 1;
        }
        assert(Seq::new(out@.len(), |i: int| out@[i].0) =~= ids@);
        out
    }

    /// The value under an identifier; where there is none, the one that is made for
    /// it is put there first.
    pub fn get_or_insert_with<F: FnOnce() -> V>(&mut self, key: u16, make: F) -> (r: V) where
        V: Clone,

        requires
            make.requires(()),
        ensures
            old(self)@.contains_key(key) ==> final(self)@ == old(self)@ && cloned(
                old(self)@[key],
                r,
            ),
            !old(self)@.contains_key(key) ==> exists|v: V| #[trigger]
                make.ensures((), v) && final(self)@ == old(self)@.insert(key, v) && cloned(v, r),
    {
        match self.get(key) {
            Some(v) => v.clone(),
            None => {
                let v = make();
                let r = v.clone();
                let _previous = self.insert(key, v);
                r
            },
        }
    }
}

} // verus!
