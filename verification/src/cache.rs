//! Values kept by name.

use vstd::prelude::*;

use crate::domain::Name;

verus! {

/// Values kept by name, at most one for each name.
#[derive(Debug)]
pub struct Cache<V> {
    entries: Vec<(Name, V)>,
}

/// The entry at `i` is for the name `key`.
pub open spec fn is_for<V>(entries: Seq<(Name, V)>, i: int, key: Seq<char>) -> bool {
    0 <= i < entries.len() && entries[i].0@ == key
}

/// No two entries are for the same name.
pub open spec fn distinct<V>(entries: Seq<(Name, V)>) -> bool {
    forall|i: int, j: int|
        0 <= i < j < entries.len() ==> (#[trigger] entries[i]).0@ != (#[trigger] entries[j]).0@
}

/// The entries as a map.
pub open spec fn by_name<V>(entries: Seq<(Name, V)>) -> Map<Seq<char>, V> {
    Map::new(
        |key: Seq<char>| exists|i: int| is_for(entries, i, key),
        |key: Seq<char>| entries[choose|i: int| is_for(entries, i, key)].1,
    )
}

/// An entry is what the map holds for its name.
pub proof fn lemma_by_name<V>(entries: Seq<(Name, V)>, i: int)
    requires
        distinct(entries),
        0 <= i < entries.len(),
    ensures
        by_name(entries).dom().contains(entries[i].0@),
        by_name(entries)[entries[i].0@] == entries[i].1,
{
    let key = entries[i].0@;
    assert(is_for(entries, i, key));
    let k = choose|k: int| is_for(entries, k, key);
    assert(is_for(entries, k, key));
    if k < i {
        assert(entries[k].0@ != entries[i].0@);
    } else if i < k {
        assert(entries[i].0@ != entries[k].0@);
    }
}

impl<V> View for Cache<V> {
    type V = Map<Seq<char>, V>;

    closed spec fn view(&self) -> Map<Seq<char>, V> {
        by_name(self.entries@)
    }
}

impl<V> Cache<V> {
    #[verifier::type_invariant]
    spec fn inv(self) -> bool {
        distinct(self.entries@)
    }

    /// A cache that keeps nothing.
    pub fn new() -> (r: Cache<V>)
        ensures
            r@ == Map::<Seq<char>, V>::empty(),
    {
        let r = Cache { entries: Vec::new() };
        proof {
            assert forall|key: Seq<char>| !(#[trigger] r@.dom().contains(key)) by {}
            assert(r@ =~= Map::<Seq<char>, V>::empty());
        }
        r
    }

    /// Where the value for a name is kept.
    fn position(&self, key: &Name) -> (r: Option<usize>)
        ensures
            match r {
                Some(i) => {
                    &&& is_for(self.entries@, i as int, key@)
                    &&& self@.dom().contains(key@)
                    &&& self@[key@] == self.entries@[i as int].1
                },
                None => {
                    &&& !self@.dom().contains(key@)
                    &&& forall|i: int| !is_for(self.entries@, i, key@)
                },
            },
    {
        proof {
            use_type_invariant(self);
        }
        let mut i: usize = 0;
        while i < self.entries.len()
            invariant
                i <= self.entries@.len(),
                distinct(self.entries@),
                forall|k: int| 0 <= k < i ==> (#[trigger] self.entries@[k]).0@ != key@,
            decreases self.entries@.len() - i,
        {
            if self.entries[i].0 == *key {
                proof {
                    lemma_by_name(self.entries@, i as int);
                }
                return Some(i);
            }
            i = i + 1;
        }
        None
    }

    /// The value kept for a name.
    pub fn get(&self, key: &Name) -> (r: Option<&V>)
        ensures
            match r {
                Some(value) => self@.dom().contains(key@) && *value == self@[key@],
                None => !self@.dom().contains(key@),
            },
    {
        match self.position(key) {
            Some(i) => Some(&self.entries[i].1),
            None => None,
        }
    }

    /// Keeps a value for a name, in place of the one that was kept.
    pub fn insert(&mut self, key: Name, value: V)
        ensures
            final(self)@ == old(self)@.insert(key@, value),
    {
        let ghost before = self.entries@;
        let at = self.position(&key);
        proof {
            use_type_invariant(&*self);
        }
        let mut entries: Vec<(Name, V)> = Vec::new();
        std::mem::swap(&mut entries, &mut self.entries);
        let ghost name = key@;
        match at {
            Some(i) => {
                entries.set(i, (key, value));
            },
            None => {
                entries.push((key, value));
            },
        }
        proof {
            let after = entries@;
            let n = if let Some(i) = at {
                i as int
            } else {
                before.len() as int
            };
            assert(after.len() == if at is Some { before.len() } else { before.len() + 1 });
            assert forall|i: int| 0 <= i < before.len() && i != n implies after[i]
                == #[trigger] before[i] by {}
            assert(after[n].0@ == name && after[n].1 == value);
            assert forall|i: int| 0 <= i < before.len() && i != n implies (
            #[trigger] before[i]).0@ != name by {
                if at is Some {
                    if i < n {
                        assert(before[i].0@ != before[n].0@);
                    } else {
                        assert(before[n].0@ != before[i].0@);
                    }
                } else {
                    assert(!is_for(before, i, name));
                }
            }
            assert(distinct(after)) by {
                assert forall|i: int, j: int| 0 <= i < j < after.len() implies (
                #[trigger] after[i]).0@ != (#[trigger] after[j]).0@ by {
                    if i != n {
                        assert(after[i] == before[i]);
                    }
                    if j != n {
                        assert(after[j] == before[j]);
                    }
                }
            }
            let want = by_name(before).insert(name, value);
            assert forall|key: Seq<char>|
                by_name(after).dom().contains(key) == #[trigger] want.dom().contains(key) by {
                if exists|i: int| is_for(before, i, key) {
                    let i = choose|i: int| is_for(before, i, key);
                    if i == n {
                        assert(is_for(after, n, key));
                    } else {
                        assert(is_for(after, i, key));
                    }
                }
                if key == name {
                    assert(is_for(after, n, key));
                }
                if exists|i: int| is_for(after, i, key) {
                    let i = choose|i: int| is_for(after, i, key);
                    if i != n {
                        assert(is_for(before, i, key));
                    }
                }
            }
            assert forall|key: Seq<char>| #[trigger]
                want.dom().contains(key) implies by_name(after)[key] == want[key] by {
                if key == name {
                    lemma_by_name(after, n);
                } else {
                    let i = choose|i: int| is_for(before, i, key);
                    lemma_by_name(before, i);
                    lemma_by_name(after, i);
                }
            }
            assert(by_name(after) =~= want);
        }
        self.entries = entries;
    }

    /// Gives up the value kept for a name.
    pub fn remove(&mut self, key: &Name) -> (r: Option<V>)
        ensures
            match r {
                Some(value) => old(self)@.dom().contains(key@) && value == old(self)@[key@],
                None => !old(self)@.dom().contains(key@),
            },
            final(self)@ == old(self)@.remove(key@),
    {
        let ghost before = self.entries@;
        let ghost name = key@;
        let at = self.position(key);
        proof {
            use_type_invariant(&*self);
        }
        match at {
            Some(n) => {
                let mut entries: Vec<(Name, V)> = Vec::new();
                std::mem::swap(&mut entries, &mut self.entries);
                let taken = entries.remove(n);
                proof {
                    let after = entries@;
                    assert(distinct(after)) by {
                        assert forall|i: int, j: int| 0 <= i < j < after.len() implies (
                        #[trigger] after[i]).0@ != (#[trigger] after[j]).0@ by {
                            let a = if i < n { i } else { i + 1 };
                            let b = if j < n { j } else { j + 1 };
                            assert(after[i] == before[a] && after[j] == before[b]);
                        }
                    }
                    let want = by_name(before).remove(name);
                    assert forall|key: Seq<char>|
                        by_name(after).dom().contains(key) == #[trigger] want.dom().contains(key) by {
                        if exists|i: int| is_for(after, i, key) {
                            let i = choose|i: int| is_for(after, i, key);
                            let a = if i < n { i } else { i + 1 };
                            assert(after[i] == before[a]);
                            assert(is_for(before, a, key));
                            if a < n {
                                assert(before[a].0@ != before[n as int].0@);
                            } else {
                                assert(before[n as int].0@ != before[a].0@);
                            }
                        }
                        if key != name && exists|i: int| is_for(before, i, key) {
                            let i = choose|i: int| is_for(before, i, key);
                            let a = if i < n { i } else { i - 1 };
                            assert(after[a] == before[i]);
                            assert(is_for(after, a, key));
                        }
                    }
                    assert(by_name(after).dom() =~= want.dom());
                    assert forall|key: Seq<char>| #[trigger]
                        by_name(after).dom().contains(key) implies by_name(after)[key] == want[key] by {
                        assert(want.dom().contains(key));
                        let i = choose|i: int| is_for(before, i, key);
                        let a = if i < n { i } else { i - 1 };
                        assert(after[a] == before[i]);
                        lemma_by_name(before, i);
                        lemma_by_name(after, a);
                    }
                    assert(by_name(after) =~= want);
                }
                self.entries = entries;
                Some(taken.1)
            },
            None => {
                assert(self@ =~= old(self)@.remove(key@));
                None
            },
        }
    }

    /// Every name and the value kept for it, each once.
    pub fn entries(&self) -> (r: &Vec<(Name, V)>)
        ensures
            distinct(r@),
            by_name(r@) == self@,
    {
        proof {
            use_type_invariant(self);
        }
        &self.entries
    }
}

} // verus!
