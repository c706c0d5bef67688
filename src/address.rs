//! Addresses and maps keyed by them.
use vstd::prelude::*;

verus! {

/// An IP address, held as its numeric value.
#[derive(Debug, Clone, Copy, PartialEq, Eq, Hash, Structural)]
pub enum IpAddress {
    V4(u32),
    V6(u128),
}

/// An announced destination: an IP value and, once known, a prefix-mask length.
#[derive(Debug, Clone, Copy, PartialEq, Eq, Hash, Structural)]
pub struct Address {
    pub ip: IpAddress,
    pub mask: Option<u8>,
}

impl Address {
    pub fn new(ip: IpAddress, mask: Option<u8>) -> (r: Address)
        ensures
            r.ip == ip,
            r.mask == mask,
    {
        Address { ip, mask }
    }
}

/// A finite map from `Address` to `V`, held as a list of entries with distinct keys.
pub struct AddressMap<V> {
    pub(crate) entries: Vec<(Address, V)>,
}

impl<V> AddressMap<V> {
    /// Whether no two entries share a key.
    pub closed spec fn wf(&self) -> bool {
        forall|i: int, j: int|
            0 <= i < self.entries@.len() && 0 <= j < self.entries@.len() && i != j
                ==> self.entries@[i].0 != self.entries@[j].0
    }

    pub closed spec fn has_key_at(&self, a: Address, i: int) -> bool {
        0 <= i < self.entries@.len() && self.entries@[i].0 == a
    }

    /// The map that the entries describe.
    pub closed spec fn view(&self) -> Map<Address, V> {
        Map::new(
            |a: Address| exists|i: int| self.has_key_at(a, i),
            |a: Address| self.entries@[choose|i: int| self.has_key_at(a, i)].1,
        )
    }

    pub(crate) proof fn lemma_entry(&self, i: int)
        requires
            self.wf(),
            0 <= i < self.entries@.len(),
        ensures
            self@.dom().contains(self.entries@[i].0),
            self@[self.entries@[i].0] == self.entries@[i].1,
    {
        let a = self.entries@[i].0;
        assert(self.has_key_at(a, i));
        let j = choose|j: int| self.has_key_at(a, j);
        assert(j == i);
    }

    pub(crate) proof fn lemma_no_entry(&self, a: Address)
        requires
            forall|i: int| 0 <= i < self.entries@.len() ==> self.entries@[i].0 != a,
        ensures
            !self@.dom().contains(a),
    {
    }

    pub(crate) proof fn lemma_dom(&self, a: Address)
        ensures
            self@.dom().contains(a) <==> exists|i: int|
                0 <= i < self.entries@.len() && self.entries@[i].0 == a,
    {
        if exists|i: int| 0 <= i < self.entries@.len() && self.entries@[i].0 == a {
            let i = choose|i: int| 0 <= i < self.entries@.len() && self.entries@[i].0 == a;
            assert(self.has_key_at(a, i));
        }
    }

    pub(crate) proof fn lemma_distinct_keys(&self, i: int, j: int)
        requires
            self.wf(),
            0 <= i < self.entries@.len(),
            0 <= j < self.entries@.len(),
            i != j,
        ensures
            self.entries@[i].0 != self.entries@[j].0,
    {
    }

    /// An empty map.
    pub fn new() -> (r: Self)
        ensures
            r.wf(),
            r@ == Map::<Address, V>::empty(),
    {
        let r = AddressMap { entries: Vec::new() };
        assert(r@ =~= Map::<Address, V>::empty());
        r
    }

    /// The position of the entry with key `a`, if there is one.
    pub(crate) fn index_of(&self, a: &Address) -> (r: Option<usize>)
        requires
            self.wf(),
        ensures
            r matches Some(i) ==> i < self.entries@.len() && self.entries@[i as int].0 == *a,
            r is None ==> !self@.dom().contains(*a),
            r is Some <==> self@.dom().contains(*a),
    {
        let mut i: usize = 0;
        while i < self.entries.len()
            invariant
                self.wf(),
                i <= self.entries@.len(),
                forall|j: int| 0 <= j < i ==> self.entries@[j].0 != *a,
            decreases self.entries@.len() - i,
        {
            if self.entries[i].0 == *a {
                proof {
                    self.lemma_entry(i as int);
                }
                return Some(i);
            }
            i = i + 1;
        }
        proof {
            self.lemma_no_entry(*a);
        }
        None
    }

    /// The value at key `a`, if the map holds one.
    pub fn get(&self, a: &Address) -> (r: Option<&V>)
        requires
            self.wf(),
        ensures
            r is Some <==> self@.dom().contains(*a),
            r matches Some(v) ==> *v == self@[*a],
    {
        match self.index_of(a) {
            Some(i) => {
                proof {
                    self.lemma_entry(i as int);
                }
                Some(&self.entries[i].1)
            },
            None => None,
        }
    }

    /// The keys of the map, each once.
    pub fn keys(&self) -> (r: Vec<Address>)
        requires
            self.wf(),
        ensures
            r@.no_duplicates(),
            r@.to_set() == self@.dom(),
    {
        let mut r: Vec<Address> = Vec::new();
        let mut i: usize = 0;
        while i < self.entries.len()
            invariant
                self.wf(),
                i <= self.entries@.len(),
                r@.len() == i,
                forall|j: int| 0 <= j < i ==> r@[j] == self.entries@[j].0,
            decreases self.entries@.len() - i,
        {
            r.push(self.entries[i].0);
            i = i + 1;
        }
        assert forall|a: Address| r@.to_set().contains(a) <==> self@.dom().contains(a) by {
            if r@.contains(a) {
                let j = choose|j: int| 0 <= j < r@.len() && r@[j] == a;
                assert(self.has_key_at(a, j));
            }
            if self@.dom().contains(a) {
                let j = choose|j: int| self.has_key_at(a, j);
                assert(r@[j] == a);
            }
        }
        assert(r@.to_set() =~= self@.dom());
        r
    }

    /// Puts `v` in place of the value of the entry at `i`, and returns the value it held.
    pub(crate) fn replace_at(&mut self, i: usize, v: V) -> (prev: V)
        requires
            old(self).wf(),
            i < old(self).entries@.len(),
        ensures
            final(self).wf(),
            prev == old(self).entries@[i as int].1,
            final(self).entries@ == old(self).entries@.update(
                i as int,
                (old(self).entries@[i as int].0, v),
            ),
            final(self)@ == old(self)@.insert(old(self).entries@[i as int].0, v),
    {
        let (key, prev) = self.entries.remove(i);
        self.entries.insert(i, (key, v));
        proof {
            assert(self.entries@ =~= old(self).entries@.update(i as int, (key, v)));
            assert forall|k: Address| #[trigger] self@.dom().contains(k) <==> old(
                self,
            )@.dom().contains(k) by {
                self.lemma_dom(k);
                old(self).lemma_dom(k);
                if self@.dom().contains(k) {
                    let j = choose|j: int| 0 <= j < self.entries@.len() && self.entries@[j].0 == k;
                    assert(old(self).entries@[j].0 == k);
                }
                if old(self)@.dom().contains(k) {
                    let j = choose|j: int|
                        0 <= j < old(self).entries@.len() && old(self).entries@[j].0 == k;
                    assert(self.entries@[j].0 == k);
                }
            }
            old(self).lemma_entry(i as int);
            assert forall|k: Address| #[trigger] self@.dom().contains(k) implies self@[k] == old(
                self,
            )@.insert(key, v)[k] by {
                self.lemma_dom(k);
                let j = choose|j: int| 0 <= j < self.entries@.len() && self.entries@[j].0 == k;
                self.lemma_entry(j);
                old(self).lemma_entry(j);
            }
            assert(self@ =~= old(self)@.insert(key, v));
        }
        prev
    }

    /// Adds an entry under a key that the map does not hold yet.
    pub(crate) fn push_new(&mut self, a: Address, v: V)
        requires
            old(self).wf(),
            !old(self)@.dom().contains(a),
        ensures
            final(self).wf(),
            final(self)@ == old(self)@.insert(a, v),
            final(self).entries@ == old(self).entries@.push((a, v)),
    {
        proof {
            assert forall|i: int| 0 <= i < old(self).entries@.len() implies old(
                self,
            ).entries@[i].0 != a by {
                if old(self).entries@[i].0 == a {
                    old(self).lemma_entry(i);
                }
            }
        }
        self.entries.push((a, v));
        proof {
            let n = old(self).entries@.len() as int;
            assert forall|k: Address| #[trigger] self@.dom().contains(k) <==> old(self)@.insert(
                a,
                v,
            ).dom().contains(k) by {
                if self@.dom().contains(k) {
                    let j = choose|j: int| self.has_key_at(k, j);
                    if j < n {
                        assert(old(self).has_key_at(k, j));
                    }
                }
                if old(self)@.dom().contains(k) {
                    let j = choose|j: int| old(self).has_key_at(k, j);
                    assert(self.has_key_at(k, j));
                }
                if k == a {
                    assert(self.has_key_at(k, n));
                }
            }
            assert forall|k: Address| #[trigger] self@.dom().contains(k) implies self@[k] == old(
                self,
            )@.insert(a, v)[k] by {
                let j = choose|j: int| self.has_key_at(k, j);
                self.lemma_entry(j);
                if j < n {
                    old(self).lemma_entry(j);
                }
            }
            assert(self@ =~= old(self)@.insert(a, v));
        }
    }
}

} // verus!
