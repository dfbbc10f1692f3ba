//! A map from names to values, stored as a list of pairs without repeated
//! names.

use crate::assoc::{assoc_map, distinct_keys, has_key, Key};
use crate::assoc::{lemma_assoc_dom, lemma_assoc_index, lemma_assoc_len, lemma_assoc_push};
use crate::assoc::{lemma_assoc_remove, lemma_assoc_update};
use vstd::prelude::*;
use vstd::std_specs::cmp::{PartialEqSpec, PartialEqSpecImpl};
use vstd::string::*;

verus! {

/// Whether two byte slices hold the same bytes.
pub fn same_bytes(a: &[u8], b: &[u8]) -> (r: bool)
    ensures
        r == (a@ == b@),
{
    if a.len() != b.len() {
        return false;
    }
    let mut i: usize = 0;
    while i < a.len()
        invariant
            a@.len() == b@.len(),
            i <= a@.len(),
            forall|j: int| 0 <= j < i ==> a@[j] == b@[j],
        decreases a@.len() - i,
    {
        if a[i] != b[i] {
            return false;
        }
        i += 1;
    }
    assert(a@ =~= b@);
    true
}

/// Whether two names are spelled with the same bytes.
pub fn same_name(a: &str, b: &str) -> (r: bool)
    ensures
        r == (a.spec_bytes() == b.spec_bytes()),
{
    same_bytes(a.as_bytes(), b.as_bytes())
}

/// A finite map from names to values. No name is held twice; the order in
/// which the names were inserted has no meaning.
#[derive(Debug)]
pub struct NameMap<'a, V> {
    items: Vec<(&'a str, V)>,
}

impl<'a, V> View for NameMap<'a, V> {
    type V = Map<Key, V>;

    /// The map from the bytes of each name to its value.
    open spec fn view(&self) -> Map<Key, V> {
        assoc_map(self.pairs())
    }
}

impl<'a, V> NameMap<'a, V> {
    /// The pairs that are held, each name as its bytes, in the order in
    /// which `name_at` and `value_at` number them.
    pub closed spec fn pairs(&self) -> Seq<(Key, V)> {
        self.items@.map_values(|p: (&'a str, V)| (p.0.spec_bytes(), p.1))
    }

    /// No name is held twice.
    #[verifier::type_invariant]
    spec fn unique(&self) -> bool {
        distinct_keys(self.pairs())
    }

    /// The empty map.
    pub fn new() -> (r: Self)
        ensures
            r@ == Map::<Key, V>::empty(),
            r.pairs().len() == 0,
    {
        NameMap { items: Vec::new() }
    }

    /// The number of names.
    pub fn len(&self) -> (r: usize)
        ensures
            r == self@.len(),
            r == self.pairs().len(),
            self@.dom().finite(),
            distinct_keys(self.pairs()),
    {
        proof {
            use_type_invariant(self);
            lemma_assoc_len(self.pairs());
        }
        self.items.len()
    }

    /// Whether the map holds no name.
    pub fn is_empty(&self) -> (r: bool)
        ensures
            r == (self@.len() == 0),
            self@.dom().finite(),
    {
        self.len() == 0
    }

    /// The name of the pair numbered `i`.
    pub fn name_at(&self, i: usize) -> (r: &'a str)
        requires
            i < self.pairs().len(),
        ensures
            r.spec_bytes() == self.pairs()[i as int].0,
            self@.contains_key(r.spec_bytes()),
    {
        proof {
            use_type_invariant(self);
            lemma_assoc_index(self.pairs(), i as int);
        }
        self.items[i].0
    }

    /// The value of the pair numbered `i`.
    pub fn value_at(&self, i: usize) -> (r: &V)
        requires
            i < self.pairs().len(),
        ensures
            *r == self.pairs()[i as int].1,
            self@.contains_key(self.pairs()[i as int].0),
            self@[self.pairs()[i as int].0] == *r,
    {
        proof {
            use_type_invariant(self);
            lemma_assoc_index(self.pairs(), i as int);
        }
        &self.items[i].1
    }

    /// The number of the pair that holds `name`, if there is one.
    fn position(&self, name: &str) -> (r: Option<usize>)
        ensures
            match r {
                Some(i) => i < self.pairs().len() && self.pairs()[i as int].0 == name.spec_bytes(),
                None => !has_key(self.pairs(), name.spec_bytes()),
            },
    {
        let mut i: usize = 0;
        while i < self.items.len()
            invariant
                i <= self.items@.len(),
                forall|j: int| 0 <= j < i ==> self.pairs()[j].0 != name.spec_bytes(),
            decreases self.items@.len() - i,
        {
            if same_name(self.items[i].0, name) {
                return Some(i);
            }
            i += 1;
        }
        None
    }

    /// Whether the map holds `name`.
    pub fn contains_key(&self, name: &str) -> (r: bool)
        ensures
            r == self@.contains_key(name.spec_bytes()),
    {
        proof {
            lemma_assoc_dom(self.pairs());
        }
        self.position(name).is_some()
    }

    /// The value held under `name`, if there is one.
    pub fn get(&self, name: &str) -> (r: Option<&V>)
        ensures
            match r {
                Some(v) => self@.contains_key(name.spec_bytes()) && *v == self@[name.spec_bytes()],
                None => !self@.contains_key(name.spec_bytes()),
            },
    {
        proof {
            use_type_invariant(self);
            lemma_assoc_dom(self.pairs());
        }
        match self.position(name) {
            Some(i) => {
                proof {
                    lemma_assoc_index(self.pairs(), i as int);
                }
                Some(&self.items[i].1)
            },
            None => None,
        }
    }

    /// Puts `value` under `name`, in place of the value that was held under
    /// that name, if there was one.
    pub fn insert(&mut self, name: &'a str, value: V)
        ensures
            final(self)@ == old(self)@.insert(name.spec_bytes(), value),
    {
        proof {
            use_type_invariant(&*self);
        }
        let found = self.position(name);
        let ghost before = self.pairs();
        let mut items: Vec<(&'a str, V)> = Vec::new();
        std::mem::swap(&mut items, &mut self.items);
        assert(items@.map_values(|p: (&'a str, V)| (p.0.spec_bytes(), p.1)) == before);
        match found {
            Some(i) => {
                proof {
                    lemma_assoc_update(before, i as int, value);
                }
                items[i] = (name, value);
                assert(items@.map_values(|p: (&'a str, V)| (p.0.spec_bytes(), p.1))
                    == before.update(i as int, (name.spec_bytes(), value)));
            },
            None => {
                proof {
                    lemma_assoc_push(before, name.spec_bytes(), value);
                }
                items.push((name, value));
                assert(items@.map_values(|p: (&'a str, V)| (p.0.spec_bytes(), p.1))
                    == before.push((name.spec_bytes(), value)));
            },
        }
        self.items = items;
    }

    /// Takes `name` and its value out of the map, and returns the value, if
    /// the name was held.
    pub fn remove(&mut self, name: &str) -> (r: Option<V>)
        ensures
            match r {
                Some(v) => old(self)@.contains_key(name.spec_bytes()) && v == old(self)@[
                    name.spec_bytes()] && final(self)@ == old(self)@.remove(name.spec_bytes()),
                None => !old(self)@.contains_key(name.spec_bytes()) && final(self)@ == old(self)@,
            },
    {
        proof {
            use_type_invariant(&*self);
            lemma_assoc_dom(self.pairs());
        }
        let ghost before = self.pairs();
        match self.position(name) {
            Some(i) => {
                proof {
                    lemma_assoc_index(before, i as int);
                    lemma_assoc_remove(before, i as int);
                }
                let mut items: Vec<(&'a str, V)> = Vec::new();
                std::mem::swap(&mut items, &mut self.items);
                let pair = items.remove(i);
                assert(items@.map_values(|p: (&'a str, V)| (p.0.spec_bytes(), p.1))
                    == before.remove(i as int));
                self.items = items;
                Some(pair.1)
            },
            None => None,
        }
    }
}

impl<'a, V: PartialEq + PartialEqSpec> PartialEq for NameMap<'a, V> {
    /// Whether the two maps hold the same names, each with equal values.
    /// The order of the pairs does not count.
    fn eq(&self, other: &Self) -> (r: bool) {
        let n = self.len();
        if n != other.len() {
            return false;
        }
        let mut i: usize = 0;
        while i < n
            invariant
                i <= n,
                n == self.pairs().len(),
                n == self@.len(),
                n == other@.len(),
                self@.dom().finite(),
                other@.dom().finite(),
                distinct_keys(self.pairs()),
                forall|j: int|
                    0 <= j < i ==> other@.contains_key(#[trigger] self.pairs()[j].0) && (
                    V::obeys_eq_spec() ==> self.pairs()[j].1.eq_spec(&other@[self.pairs()[j].0])),
            decreases n - i,
        {
            let name = self.name_at(i);
            match other.get(name) {
                Some(value) => {
                    if !(*self.value_at(i) == *value) {
                        proof {
                            lemma_assoc_index(self.pairs(), i as int);
                        }
                        return false;
                    }
                },
                None => {
                    return false;
                },
            }
            i = i + 1;
        }
        proof {
            lemma_assoc_dom(self.pairs());
            assert forall|k: Key| self@.contains_key(k) implies other@.contains_key(k) && (
            V::obeys_eq_spec() ==> self@[k].eq_spec(&other@[k])) by {
                let j = choose|j: int| 0 <= j < self.pairs().len() && #[trigger] self.pairs()[j].0 == k;
                lemma_assoc_index(self.pairs(), j);
            }
            assert(self@.dom().subset_of(other@.dom()));
            vstd::set_lib::lemma_subset_equality(self@.dom(), other@.dom());
        }
        true
    }
}

impl<'a, V: PartialEq + PartialEqSpec> PartialEqSpecImpl for NameMap<'a, V> {
    open spec fn obeys_eq_spec() -> bool {
        V::obeys_eq_spec()
    }

    /// The two maps hold the same names, each with equal values.
    open spec fn eq_spec(&self, other: &Self) -> bool {
        &&& self@.dom() == other@.dom()
        &&& forall|k: Key| self@.contains_key(k) ==> (#[trigger] self@[k]).eq_spec(&other@[k])
    }
}

} // verus!
