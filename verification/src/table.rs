//! Tables: values kept under texts, in the order of the texts.

use vstd::prelude::*;

use crate::order::{
    before, comes_before, lemma_before_irreflexive, lemma_before_total, lemma_before_transitive,
    strictly_ascending,
};
use crate::text::same;

verus! {

/// Values kept under texts, one under each.
#[derive(Debug)]
pub struct Table<V> {
    entries: Vec<(String, V)>,
}

/// The texts of a list of entries.
spec fn names<V>(entries: Seq<(String, V)>) -> Seq<Seq<char>> {
    Seq::new(entries.len(), |i: int| entries[i].0@)
}

impl<V: View> View for Table<V> {
    type V = Map<Seq<char>, V::V>;

    closed spec fn view(&self) -> Map<Seq<char>, V::V> {
        Map::new(
            |k: Seq<char>| self.keys().contains(k),
            |k: Seq<char>| self.entries@[self.keys().index_of(k)].1@,
        )
    }
}

impl<V> Table<V> {
    /// The texts that values are kept under, in order.
    pub closed spec fn keys(&self) -> Seq<Seq<char>> {
        names(self.entries@)
    }

    #[verifier::type_invariant]
    spec fn well_formed(self) -> bool {
        strictly_ascending(self.keys())
    }
}

impl<V: View> Table<V> {
    /// The keys are in order, each once, and are those of the table.
    pub open spec fn ordered(&self) -> bool {
        &&& strictly_ascending(self.keys())
        &&& forall|k: Seq<char>| #[trigger] self@.dom().contains(k) <==> self.keys().contains(k)
    }

    proof fn lemma_at(&self, i: int)
        requires
            strictly_ascending(self.keys()),
            0 <= i < self.entries@.len(),
        ensures
            self@.dom().contains(self.keys()[i]),
            self@[self.keys()[i]] == self.entries@[i].1@,
            self.ordered(),
    {
        let k = self.keys()[i];
        assert(self.keys().contains(k));
        let j = self.keys().index_of(k);
        if j < i {
            lemma_before_irreflexive(k);
            assert(before(self.keys()[j], self.keys()[i]));
        } else if i < j {
            lemma_before_irreflexive(k);
            assert(before(self.keys()[i], self.keys()[j]));
        }
    }

    /// A table that holds nothing.
    pub fn new() -> (r: Table<V>)
        ensures
            r@ == Map::<Seq<char>, V::V>::empty(),
            r.keys() == Seq::<Seq<char>>::empty(),
    {
        let r: Table<V> = Table { entries: Vec::new() };
        assert(r@ =~= Map::<Seq<char>, V::V>::empty());
        r
    }

    /// How many values the table holds.
    pub fn len(&self) -> (r: usize)
        ensures
            r == self.keys().len(),
            self.ordered(),
    {
        proof {
            use_type_invariant(self);
        }
        self.entries.len()
    }

    /// The `i`-th text of the table.
    pub fn key(&self, i: usize) -> (r: &String)
        requires
            i < self.keys().len(),
        ensures
            r@ == self.keys()[i as int],
            self@.dom().contains(r@),
    {
        proof {
            use_type_invariant(self);
            self.lemma_at(i as int);
        }
        &self.entries[i].0
    }

    /// The value under the `i`-th text of the table.
    pub fn value(&self, i: usize) -> (r: &V)
        requires
            i < self.keys().len(),
        ensures
            r@ == self@[self.keys()[i as int]],
    {
        proof {
            use_type_invariant(self);
            self.lemma_at(i as int);
        }
        &self.entries[i].1
    }

    /// The place of a text: its own, or the one it would get.
    fn place(&self, k: &str) -> (r: (usize, bool))
        ensures
            r.0 <= self.entries@.len(),
            r.1 == self@.dom().contains(k@),
            r.1 ==> r.0 < self.entries@.len() && self.keys()[r.0 as int] == k@,
            forall|j: int| 0 <= j < r.0 ==> before(#[trigger] self.keys()[j], k@),
            !r.1 ==> forall|j: int|
                r.0 <= j < self.entries@.len() ==> before(k@, #[trigger] self.keys()[j]),
            strictly_ascending(self.keys()),
    {
        proof {
            use_type_invariant(self);
        }
        let mut i: usize = 0;
        while i < self.entries.len() && comes_before(self.entries[i].0.as_str(), k)
            invariant
                i <= self.entries@.len(),
                forall|j: int| 0 <= j < i ==> before(#[trigger] self.keys()[j], k@),
            ensures
                i <= self.entries@.len(),
                forall|j: int| 0 <= j < i ==> before(#[trigger] self.keys()[j], k@),
                i < self.entries@.len() ==> !before(self.keys()[i as int], k@),
            decreases self.entries@.len() - i,
        {
            assert(self.keys()[i as int] == self.entries@[i as int].0@);
            i = i + 1;
        }
        let found = i < self.entries.len() && same(self.entries[i].0.as_str(), k);
        proof {
            if found {
                assert(self.keys()[i as int] == k@);
                self.lemma_at(i as int);
            } else {
                if i < self.entries@.len() {
                    lemma_before_total(self.keys()[i as int], k@);
                    assert forall|j: int| i <= j < self.entries@.len() implies before(
                        k@,
                        #[trigger] self.keys()[j],
                    ) by {
                        if i < j {
                            lemma_before_transitive(k@, self.keys()[i as int], self.keys()[j]);
                        }
                    }
                }
                assert(!self.keys().contains(k@)) by {
                    lemma_before_irreflexive(k@);
                    if self.keys().contains(k@) {
                        let j = self.keys().index_of(k@);
                        assert(self.keys()[j] == k@);
                        if j >= i {
                            assert(before(k@, self.keys()[j]));
                        }
                    }
                }
            }
        }
        (i, found)
    }

    /// The value under a text.
    pub fn get(&self, k: &str) -> (r: Option<&V>)
        ensures
            r is Some <==> self@.dom().contains(k@),
            r matches Some(v) ==> v@ == self@[k@],
    {
        let (i, found) = self.place(k);
        if found {
            proof {
                self.lemma_at(i as int);
            }
            Some(&self.entries[i].1)
        } else {
            None
        }
    }

    /// Whether there is a value under a text.
    pub fn contains_key(&self, k: &str) -> (r: bool)
        ensures
            r == self@.dom().contains(k@),
    {
        self.place(k).1
    }

    /// Puts a value under a text, in place of the one that was there.
    pub fn insert(&mut self, k: String, v: V)
        ensures
            final(self)@ == old(self)@.insert(k@, v@),
            final(self).ordered(),
    {
        let (i, found) = self.place(k.as_str());
        let ghost was = *self;
        let ghost key = k@;
        let mut entries: Vec<(String, V)> = Vec::new();
        std::mem::swap(&mut entries, &mut self.entries);
        assert(entries@ == was.entries@);
        if found {
            entries.set(i, (k, v));
            assert(names(entries@) =~= was.keys());
        } else {
            entries.insert(i, (k, v));
            assert(names(entries@) =~= was.keys().insert(i as int, key));
            assert(strictly_ascending(names(entries@))) by {
                let n = names(entries@);
                assert forall|a: int, b: int| 0 <= a < b < n.len() implies before(
                    #[trigger] n[a],
                    #[trigger] n[b],
                ) by {
                    let x = if a < i {
                        a
                    } else {
                        a - 1
                    };
                    let y = if b < i {
                        b
                    } else {
                        b - 1
                    };
                    if a != i && b != i {
                        assert(n[a] == was.keys()[x] && n[b] == was.keys()[y]);
                    } else if a == i {
                        assert(n[b] == was.keys()[y]);
                    } else {
                        assert(n[a] == was.keys()[x]);
                    }
                }
            }
        }
        let ghost now = entries@;
        self.entries = entries;
        proof {
            let after = *self;
            assert(after.keys() == names(now));
            assert forall|x: Seq<char>| #[trigger] after@.dom().contains(x) <==> was@.insert(
                key,
                v@,
            ).dom().contains(x) by {
                if after.keys().contains(x) {
                    let j = after.keys().index_of(x);
                    assert(after.keys()[j] == x);
                    if x != key {
                        let o = if found || j < i {
                            j
                        } else {
                            j - 1
                        };
                        assert(was.keys()[o] == x);
                    }
                }
                if was.keys().contains(x) {
                    let j = was.keys().index_of(x);
                    let o = if found || j < i {
                        j
                    } else {
                        j + 1
                    };
                    assert(after.keys()[o] == x);
                }
                assert(after.keys()[i as int] == key);
            }
            assert forall|x: Seq<char>| #[trigger] after@.dom().contains(x) implies after@[x]
                == was@.insert(key, v@)[x] by {
                let j = after.keys().index_of(x);
                assert(after.keys()[j] == x);
                after.lemma_at(j);
                if x == key {
                    after.lemma_at(i as int);
                } else {
                    assert(j != i);
                    let o = if found || j < i {
                        j
                    } else {
                        j - 1
                    };
                    assert(was.keys()[o] == x);
                    was.lemma_at(o);
                }
            }
            assert(after@ =~= was@.insert(key, v@));
        }
    }
}

}
