//! Values by name.
use vstd::prelude::*;
use crate::text::same_text;

verus! {

/// One value and its name.
pub struct Entry<T> {
    key: String,
    value: T,
}

/// Values by name. No name has two.
pub struct Table<T> {
    entries: Vec<Entry<T>>,
}

impl<T> View for Table<T> {
    type V = Map<Seq<char>, T>;

    closed spec fn view(&self) -> Map<Seq<char>, T> {
        Map::new(
            |key: Seq<char>| has_key(self.entries@, key),
            |key: Seq<char>| self.entries@[key_index(self.entries@, key)].value,
        )
    }
}

spec fn has_key<T>(entries: Seq<Entry<T>>, key: Seq<char>) -> bool {
    exists|i: int| 0 <= i < entries.len() && #[trigger] entries[i].key@ == key
}

spec fn key_index<T>(entries: Seq<Entry<T>>, key: Seq<char>) -> int {
    choose|i: int| 0 <= i < entries.len() && #[trigger] entries[i].key@ == key
}

spec fn unique<T>(entries: Seq<Entry<T>>) -> bool {
    forall|i: int, j: int|
        0 <= i < j < entries.len() ==> #[trigger] entries[i].key@ != #[trigger] entries[j].key@
}

proof fn lemma_index<T>(entries: Seq<Entry<T>>, i: int)
    requires
        unique(entries),
        0 <= i < entries.len(),
    ensures
        has_key(entries, entries[i].key@),
        key_index(entries, entries[i].key@) == i,
{
    let k = key_index(entries, entries[i].key@);
    assert(entries[i].key@ == entries[i].key@);
    assert(0 <= k < entries.len() && entries[k].key@ == entries[i].key@);
}

impl<T> Table<T> {
    #[verifier::type_invariant]
    spec fn unique_keys(self) -> bool {
        unique(self.entries@)
    }

    /// The names and values in the order in which they are kept.
    pub closed spec fn order(self) -> Seq<(Seq<char>, T)> {
        Seq::new(self.entries@.len(), |i: int| (self.entries@[i].key@, self.entries@[i].value))
    }

    /// No value at all.
    pub fn new() -> (r: Table<T>)
        ensures
            r@ == Map::<Seq<char>, T>::empty(),
    {
        let r = Table { entries: Vec::new() };
        proof {
            assert(r@ =~= Map::<Seq<char>, T>::empty());
        }
        r
    }

    /// How many values there are. Every one of them has its place.
    pub fn len(&self) -> (r: usize)
        ensures
            r == self.order().len(),
            forall|key: Seq<char>| #[trigger]
                self@.contains_key(key) ==> exists|i: int|
                    0 <= i < r && (#[trigger] self.order()[i]).0 == key,
            forall|i: int|
                0 <= i < r ==> self@.contains_key((#[trigger] self.order()[i]).0)
                    && self@[self.order()[i].0] == self.order()[i].1,
    {
        proof {
            use_type_invariant(self);
            let entries = self.entries@;
            assert forall|key: Seq<char>| #[trigger] self@.contains_key(key) implies exists|i: int|
                0 <= i < entries.len() && (#[trigger] self.order()[i]).0 == key by {
                let i = key_index(entries, key);
                assert(self.order()[i].0 == key);
            }
            assert forall|i: int| 0 <= i < entries.len() implies self@.contains_key(
                (#[trigger] self.order()[i]).0,
            ) && self@[self.order()[i].0] == self.order()[i].1 by {
                lemma_index(entries, i);
            }
        }
        self.entries.len()
    }

    /// The name in a place.
    pub fn key_at(&self, i: usize) -> (r: &String)
        requires
            i < self.order().len(),
        ensures
            r@ == self.order()[i as int].0,
    {
        &self.entries[i].key
    }

    /// The value in a place.
    pub fn value_at(&self, i: usize) -> (r: &T)
        requires
            i < self.order().len(),
        ensures
            *r == self.order()[i as int].1,
    {
        &self.entries[i].value
    }

    /// Where the value of `key` is.
    fn find(&self, key: &str) -> (r: Option<usize>)
        ensures
            match r {
                Some(i) => i < self.entries@.len() && self.entries@[i as int].key@ == key@
                    && self@.contains_key(key@) && self@[key@] == self.entries@[i as int].value,
                None => !self@.contains_key(key@),
            },
    {
        proof {
            use_type_invariant(self);
        }
        let mut i: usize = 0;
        while i < self.entries.len()
            invariant
                i <= self.entries@.len(),
                unique(self.entries@),
                forall|j: int| 0 <= j < i ==> #[trigger] self.entries@[j].key@ != key@,
            decreases self.entries@.len() - i,
        {
            if same_text(self.entries[i].key.as_str(), key) {
                proof {
                    lemma_index(self.entries@, i as int);
                }
                return Some(i);
            }
            i = i + 1;
        }
        None
    }

    /// The value of a name.
    pub fn get(&self, key: &str) -> (r: Option<&T>)
        ensures
            match r {
                Some(value) => self@.contains_key(key@) && self@[key@] == *value,
                None => !self@.contains_key(key@),
            },
    {
        match self.find(key) {
            Some(i) => Some(&self.entries[i].value),
            None => None,
        }
    }

    /// Give a name a value.
    pub fn insert(&mut self, key: String, value: T)
        ensures
            final(self)@ == old(self)@.insert(key@, value),
    {
        proof {
            use_type_invariant(&*self);
        }
        let ghost before = self.entries@;
        let ghost table = self@;
        let ghost name = key@;
        let ghost stored = value;
        let found = self.find(key.as_str());
        let mut entries: Vec<Entry<T>> = Vec::new();
        std::mem::swap(&mut entries, &mut self.entries);
        let entry = Entry { key, value };
        match found {
            Some(i) => entries.set(i, entry),
            None => entries.push(entry),
        }
        let ghost after = entries@;
        proof {
            assert forall|i: int, j: int| 0 <= i < j < after.len() implies #[trigger] after[i].key@
                != #[trigger] after[j].key@ by {
                if found is None {
                    assert(before[i].key@ != name) by {
                        if before[i].key@ == name {
                            assert(has_key(before, name));
                        }
                    }
                } else {
                    assert(before[i].key@ != before[j].key@);
                }
            }
        }
        self.entries = entries;
        proof {
            let at: int = match found {
                Some(i) => i as int,
                None => before.len() as int,
            };
            assert(after[at].key@ == name);
            assert forall|k: Seq<char>| #[trigger] has_key(after, k) <==> has_key(before, k) || k
                == name by {
                if has_key(after, k) {
                    let i = key_index(after, k);
                    if i != at {
                        assert(before[i].key@ == k);
                    }
                }
                if has_key(before, k) && k != name {
                    let i = key_index(before, k);
                    assert(after[i].key@ == k);
                }
            }
            assert forall|k: Seq<char>| #[trigger] has_key(after, k) implies self@[k]
                == table.insert(name, stored)[k] by {
                let i = key_index(after, k);
                assert(after[i].key@ == k);
                if k == name {
                    lemma_index(after, at);
                } else {
                    assert(before[i].key@ == k);
                    lemma_index(before, i);
                }
            }
            assert(self@ =~= table.insert(name, stored));
        }
    }

    /// Take a name and its value away.
    pub fn remove(&mut self, key: &str) -> (r: Option<T>)
        ensures
            final(self)@ == old(self)@.remove(key@),
            r == if old(self)@.contains_key(key@) {
                Some(old(self)@[key@])
            } else {
                None
            },
    {
        proof {
            use_type_invariant(&*self);
        }
        let ghost before = self.entries@;
        let ghost table = self@;
        let at = match self.find(key) {
            Some(i) => i,
            None => {
                proof {
                    assert(table.remove(key@) =~= table);
                }
                return None;
            },
        };
        let mut entries: Vec<Entry<T>> = Vec::new();
        std::mem::swap(&mut entries, &mut self.entries);
        let entry = entries.remove(at);
        let ghost after = entries@;
        proof {
            assert forall|i: int, j: int| 0 <= i < j < after.len() implies #[trigger] after[i].key@
                != #[trigger] after[j].key@ by {
                let p = if i < at {
                    i
                } else {
                    i + 1
                };
                let q = if j < at {
                    j
                } else {
                    j + 1
                };
                assert(after[i] == before[p] && after[j] == before[q]);
                assert(before[p].key@ != before[q].key@);
            }
        }
        self.entries = entries;
        proof {
            assert forall|k: Seq<char>| #[trigger] has_key(after, k) <==> has_key(before, k) && k
                != key@ by {
                if has_key(after, k) {
                    let i = key_index(after, k);
                    let p = if i < at {
                        i
                    } else {
                        i + 1
                    };
                    assert(before[p].key@ == k);
                    assert(p != at);
                    assert(before[at as int].key@ == key@);
                }
                if has_key(before, k) && k != key@ {
                    let p = key_index(before, k);
                    let i = if p < at {
                        p
                    } else {
                        p - 1
                    };
                    assert(after[i].key@ == k);
                }
            }
            assert forall|k: Seq<char>| #[trigger] has_key(after, k) implies self@[k]
                == table.remove(key@)[k] by {
                let i = key_index(after, k);
                let p = if i < at {
                    i
                } else {
                    i + 1
                };
                assert(before[p].key@ == k);
                lemma_index(before, p);
                assert(has_key(before, k) && k != key@);
            }
            assert(self@ =~= table.remove(key@));
        }
        Some(entry.value)
    }
}

} // verus!
