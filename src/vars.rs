//! The variable environment: names bound to the last value assigned to them.
use vstd::prelude::*;

verus! {

/// Names (compared as exact, case-sensitive text) bound to values.
pub struct Vars<V> {
    entries: Vec<(String, V)>,
}

impl<V> Vars<V> {
    /// No name occurs twice among the entries.
    pub closed spec fn wf(&self) -> bool {
        forall|i: int, j: int|
            0 <= i < j < self.entries@.len() ==> #[trigger] self.entries@[i].0@
                != #[trigger] self.entries@[j].0@
    }

    /// Whether `k` is the name of the entry at `i`.
    pub closed spec fn names_at(&self, i: int, k: Seq<char>) -> bool {
        0 <= i < self.entries@.len() && self.entries@[i].0@ == k
    }

    /// The bindings, from name to value.
    pub closed spec fn view(&self) -> Map<Seq<char>, V> {
        Map::new(
            |k: Seq<char>| exists|i: int| self.names_at(i, k),
            |k: Seq<char>| self.entries@[choose|i: int| self.names_at(i, k)].1,
        )
    }

    /// An environment with no bindings.
    pub fn new() -> (r: Self)
        ensures
            r.wf(),
            r.view() == Map::<Seq<char>, V>::empty(),
    {
        let r = Vars { entries: Vec::new() };
        assert(r.view() =~= Map::<Seq<char>, V>::empty());
        r
    }

    /// The number of names bound.
    pub fn len(&self) -> (r: usize)
        requires
            self.wf(),
        ensures
            r == self.view().dom().len(),
    {
        proof {
            self.lemma_dom_len();
        }
        self.entries.len()
    }

    proof fn lemma_dom_len(&self)
        requires
            self.wf(),
        ensures
            self.view().dom().len() == self.entries@.len(),
            self.view().dom().finite(),
    {
        let keys = self.entries@.map_values(|e: (String, V)| e.0@);
        assert forall|i: int, j: int| 0 <= i < j < keys.len() implies keys[i] != keys[j] by {
            assert(self.entries@[i].0@ != self.entries@[j].0@);
        }
        assert(keys.no_duplicates());
        keys.unique_seq_to_set();
        assert forall|k: Seq<char>| self.view().dom().contains(k) <==> keys.to_set().contains(k) by {
            if self.view().dom().contains(k) {
                let i = choose|i: int| self.names_at(i, k);
                assert(keys[i] == k);
            }
            if keys.to_set().contains(k) {
                let i = choose|i: int| 0 <= i < keys.len() && keys[i] == k;
                assert(self.names_at(i, k));
            }
        }
        assert(self.view().dom() =~= keys.to_set());
    }

    /// Where `name` is bound, the position of its entry.
    fn find(&self, name: &String) -> (r: Option<usize>)
        requires
            self.wf(),
        ensures
            r is None <==> !self.view().contains_key(name@),
            r matches Some(i) ==> self.names_at(i as int, name@),
    {
        let mut i: usize = 0;
        while i < self.entries.len()
            invariant
                i <= self.entries@.len(),
                forall|j: int| 0 <= j < i ==> !self.names_at(j, name@),
            decreases self.entries@.len() - i,
        {
            if self.entries[i].0 == *name {
                assert(self.names_at(i as int, name@));
                return Some(i);
            }
            i = i + 1;
        }
        None
    }

    /// Whether `name` is bound.
    pub fn contains(&self, name: &String) -> (r: bool)
        requires
            self.wf(),
        ensures
            r == self.view().contains_key(name@),
    {
        self.find(name).is_some()
    }

    /// The value bound to `name`, if any.
    pub fn get(&self, name: &String) -> (r: Option<&V>)
        requires
            self.wf(),
        ensures
            r is Some <==> self.view().contains_key(name@),
            r matches Some(v) ==> *v == self.view()[name@],
    {
        match self.find(name) {
            Some(i) => {
                assert(self.names_at(i as int, name@));
                Some(&self.entries[i].1)
            },
            None => None,
        }
    }

    /// Binds `name` to `value`, replacing any earlier binding of it.
    pub fn set(&mut self, name: String, value: V)
        requires
            old(self).wf(),
        ensures
            final(self).wf(),
            final(self).view() == old(self).view().insert(name@, value),
    {
        let ghost before = *self;
        let ghost k = name@;
        match self.find(&name) {
            Some(i) => {
                self.entries.set(i, (name, value));
                assert forall|j: int| #[trigger] self.names_at(j, k) implies j == i by {
                    if j != i {
                        assert(before.entries@[j].0@ != before.entries@[i as int].0@);
                    }
                }
                assert(self.names_at(i as int, k));
                assert(self.view()[k] == value);
                assert forall|j: int| 0 <= j < self.entries@.len() implies
                    #[trigger] self.entries@[j].0@ == before.entries@[j].0@ by {}
            },
            None => {
                self.entries.push((name, value));
                let ghost n = before.entries@.len() as int;
                assert forall|j: int| #[trigger] self.names_at(j, k) implies j == n by {
                    if j != n {
                        assert(before.names_at(j, k));
                    }
                }
                assert(self.names_at(n, k));
                assert(self.view()[k] == value);
                assert forall|j: int| 0 <= j < n implies
                    #[trigger] self.entries@[j].0@ == before.entries@[j].0@ by {}
                assert forall|j: int| 0 <= j < n implies self.entries@[j].0@ != k by {
                    assert(!before.names_at(j, k));
                }
            },
        }
        let ghost after = before.view().insert(k, value);
        assert forall|kk: Seq<char>| #[trigger] self.view().contains_key(kk) == after.contains_key(kk)
            && (self.view().contains_key(kk) ==> self.view()[kk] == after[kk]) by {
            if kk != k {
                if self.view().contains_key(kk) {
                    let j = choose|j: int| self.names_at(j, kk);
                    assert(before.names_at(j, kk));
                    let j0 = choose|j: int| before.names_at(j, kk);
                    if j0 < j {
                        assert(before.entries@[j0].0@ != before.entries@[j].0@);
                    } else if j < j0 {
                        assert(before.entries@[j].0@ != before.entries@[j0].0@);
                    }
                    assert(self.entries@[j] == before.entries@[j]);
                }
                if before.view().contains_key(kk) {
                    let j = choose|j: int| before.names_at(j, kk);
                    assert(self.names_at(j, kk));
                }
            }
        }
        assert(self.view() =~= before.view().insert(k, value));
    }
}

} // verus!
