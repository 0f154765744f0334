//! Values held by name, in the order in which the names were first given.

use vstd::hash_map::StringHashMap;
use vstd::prelude::*;

verus! {

/// A map from names to values that remembers the order in which names came.
#[verifier::reject_recursive_types(V)]
pub struct NameMap<V> {
    entries: Vec<(String, V)>,
    index: StringHashMap<usize>,
}

impl<V> View for NameMap<V> {
    type V = Map<Seq<char>, V>;

    /// The value of each name.
    closed spec fn view(&self) -> Map<Seq<char>, V> {
        self.index@.map_values(|i: usize| self.entries@[i as int].1)
    }
}

impl<V> NameMap<V> {
    /// The names, in the order in which they were first given.
    pub closed spec fn names(self) -> Seq<Seq<char>> {
        self.entries@.map_values(|e: (String, V)| e.0@)
    }

    /// The index holds exactly the names of the entries, each at its place.
    #[verifier::type_invariant]
    spec fn indexed(self) -> bool {
        &&& forall|k: Seq<char>| #[trigger]
            self.index@.contains_key(k) ==> self.index@[k] < self.entries@.len()
                && self.entries@[self.index@[k] as int].0@ == k
        &&& forall|i: int|
            0 <= i < self.entries@.len() ==> self.index@.contains_key(
                (#[trigger] self.entries@[i]).0@,
            ) && self.index@[self.entries@[i].0@] == i
        &&& self.index@.dom().finite()
    }

    /// The map without names.
    pub fn new() -> (r: Self)
        ensures
            r@ == Map::<Seq<char>, V>::empty(),
            r.names() == Seq::<Seq<char>>::empty(),
    {
        let r = NameMap { entries: Vec::new(), index: StringHashMap::new() };
        assert(r@ =~= Map::<Seq<char>, V>::empty());
        assert(r.names() =~= Seq::<Seq<char>>::empty());
        r
    }

    /// How many names there are. Each name comes once in their order.
    pub fn len(&self) -> (r: usize)
        ensures
            r == self.names().len(),
            r == self@.len(),
            self@.dom().finite(),
            self.names().no_duplicates(),
            forall|k: Seq<char>| #[trigger] self@.contains_key(k) <==> self.names().contains(k),
    {
        proof {
            use_type_invariant(self);
            self.lemma_names();
        }
        self.entries.len()
    }

    proof fn lemma_names(self)
        requires
            self.indexed(),
        ensures
            self.names().len() == self@.len(),
            self@.dom().finite(),
            self.names().no_duplicates(),
            forall|k: Seq<char>| #[trigger] self@.contains_key(k) <==> self.names().contains(k),
            forall|i: int|
                0 <= i < self.names().len() ==> self@.contains_key(#[trigger] self.names()[i])
                    && self@[self.names()[i]] == self.entries@[i].1,
    {
        let names = self.names();
        assert forall|i: int| 0 <= i < names.len() implies self@.contains_key(#[trigger] names[i])
            && self@[names[i]] == self.entries@[i].1 by {
            assert(names[i] == self.entries@[i].0@);
        }
        assert forall|k: Seq<char>| #[trigger] self@.contains_key(k) implies names.contains(k) by {
            assert(self.index@.contains_key(k));
            assert(names[self.index@[k] as int] == k);
        }
        assert(names.no_duplicates()) by {
            assert forall|i: int, j: int|
                0 <= i < names.len() && 0 <= j < names.len() && i != j implies names[i] != names[j] by {
                assert(names[i] == self.entries@[i].0@ && names[j] == self.entries@[j].0@);
            }
        }
        assert(self@.dom() =~= self.index@.dom());
        names.unique_seq_to_set();
        assert(names.to_set() =~= self@.dom());
    }

    /// The value of a name.
    pub fn get(&self, name: &str) -> (r: Option<&V>)
        ensures
            match r {
                Some(v) => self@.contains_key(name@) && *v == self@[name@],
                None => !self@.contains_key(name@),
            },
    {
        proof {
            use_type_invariant(self);
        }
        match self.index.get(name) {
            Some(i) => {
                assert(self.index@.contains_key(name@));
                Some(&self.entries[*i].1)
            },
            None => None,
        }
    }

    /// The name at place `i`.
    pub fn name_at(&self, i: usize) -> (r: &str)
        requires
            i < self.names().len(),
        ensures
            r@ == self.names()[i as int],
    {
        self.entries[i].0.as_str()
    }

    /// The value of the name at place `i`.
    pub fn value_at(&self, i: usize) -> (r: &V)
        requires
            i < self.names().len(),
        ensures
            self@.contains_key(self.names()[i as int]),
            *r == self@[self.names()[i as int]],
    {
        proof {
            use_type_invariant(self);
            self.lemma_names();
        }
        &self.entries[i].1
    }

    /// Gives `name` the value `v`.
    pub fn insert(&mut self, name: String, v: V)
        ensures
            final(self)@ == old(self)@.insert(name@, v),
            final(self).names() == if old(self)@.contains_key(name@) {
                old(self).names()
            } else {
                old(self).names().push(name@)
            },
    {
        let mut whole = NameMap { entries: Vec::new(), index: StringHashMap::new() };
        std::mem::swap(self, &mut whole);
        proof {
            use_type_invariant(&whole);
        }
        let ghost before = whole;
        let NameMap { mut entries, mut index } = whole;
        match index.get(name.as_str()) {
            Some(at) => {
                let i: usize = *at;
                let key = name.clone();
                entries[i] = (key, v);
                assert(index@.contains_key(name@));
            },
            None => {
                let i: usize = entries.len();
                let key = name.clone();
                entries.push((key, v));
                index.insert(name, i);
            },
        }
        *self = NameMap { entries, index };
        assert(self@ =~= before@.insert(name@, v));
        assert(self.names() =~= if before@.contains_key(name@) {
            before.names()
        } else {
            before.names().push(name@)
        });
    }
}

/// A sequence with `x` behind it holds what it held, and `x`.
pub proof fn lemma_push_contains<T>(s: Seq<T>, x: T)
    ensures
        forall|k: T| #[trigger] s.push(x).contains(k) <==> s.contains(k) || k == x,
{
    assert forall|k: T| #[trigger] s.push(x).contains(k) <==> s.contains(k) || k == x by {
        if s.contains(k) {
            assert(s.push(x)[s.index_of(k)] == k);
        }
        if k == x {
            assert(s.push(x)[s.len() as int] == k);
        }
    }
}

impl<V: Copy> Clone for NameMap<V> {
    fn clone(&self) -> (r: Self)
        ensures
            r@ == self@,
            r.names() == self.names(),
    {
        let mut out: NameMap<V> = NameMap::new();
        let mut i: usize = 0;
        let n: usize = self.len();
        while i < n
            invariant
                i <= n,
                n == self.names().len(),
                self.names().no_duplicates(),
                out.names() == self.names().take(i as int),
                forall|k: Seq<char>| #[trigger]
                    out@.contains_key(k) <==> self.names().take(i as int).contains(k),
                forall|k: Seq<char>| #[trigger] out@.contains_key(k) ==> out@[k] == self@[k],
            decreases n - i,
        {
            let ghost before = self.names().take(i as int);
            let ghost name = self.names()[i as int];
            assert(!before.contains(name));
            assert(self.names().take(i + 1) =~= before.push(name));
            proof {
                lemma_push_contains(before, name);
            }
            out.insert(self.name_at(i).to_string(), *self.value_at(i));
            i = i + 1;
        }
        assert(self.names().take(n as int) =~= self.names());
        assert(out@ =~= self@);
        out
    }
}

} // verus!
