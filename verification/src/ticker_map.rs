//! Tables of values by ticker.

use crate::text;
use vstd::prelude::*;

verus! {

/// A table that holds at most one value for each text.
pub struct TickerMap<V> {
    pub entries: Vec<(String, V)>,
}

/// The table that a row of entries stands for.
pub open spec fn entries_map<V>(entries: Seq<(String, V)>) -> Map<Seq<char>, V>
    decreases entries.len(),
{
    if entries.len() == 0 {
        Map::empty()
    } else {
        entries_map(entries.drop_last()).insert(entries.last().0@, entries.last().1)
    }
}

proof fn lemma_entries_map<V>(entries: Seq<(String, V)>)
    requires
        forall|i: int, j: int|
            0 <= i < j < entries.len() ==> (#[trigger] entries[i]).0@ != (
            #[trigger] entries[j]).0@,
    ensures
        entries_map(entries).dom().finite(),
        entries_map(entries).len() == entries.len(),
        forall|i: int|
            0 <= i < entries.len() ==> entries_map(entries).contains_key(
                (#[trigger] entries[i]).0@,
            ) && entries_map(entries)[entries[i].0@] == entries[i].1,
        forall|k: Seq<char>| #[trigger]
            entries_map(entries).contains_key(k) ==> exists|i: int|
                0 <= i < entries.len() && (#[trigger] entries[i]).0@ == k,
    decreases entries.len(),
{
    if entries.len() > 0 {
        let rest = entries.drop_last();
        let n = rest.len() as int;
        lemma_entries_map(rest);
        assert(!entries_map(rest).contains_key(entries.last().0@)) by {
            if entries_map(rest).contains_key(entries.last().0@) {
                let i = choose|i: int|
                    0 <= i < rest.len() && (#[trigger] rest[i]).0@ == entries.last().0@;
                assert(entries[i].0@ != entries[n].0@);
            }
        }
        assert forall|i: int| 0 <= i < entries.len() implies entries_map(entries).contains_key(
            (#[trigger] entries[i]).0@,
        ) && entries_map(entries)[entries[i].0@] == entries[i].1 by {
            if i < n {
                assert(rest[i] == entries[i]);
                assert(entries[i].0@ != entries[n].0@);
            }
        }
        assert forall|k: Seq<char>| #[trigger] entries_map(entries).contains_key(k) implies exists|
            i: int,
        |
            0 <= i < entries.len() && (#[trigger] entries[i]).0@ == k by {
            if k == entries.last().0@ {
                assert(entries[n].0@ == k);
            } else {
                assert(entries_map(rest).contains_key(k));
                let i = choose|i: int| 0 <= i < rest.len() && (#[trigger] rest[i]).0@ == k;
                assert(entries[i].0@ == k);
            }
        }
    }
}

impl<V> View for TickerMap<V> {
    type V = Map<Seq<char>, V>;

    open spec fn view(&self) -> Map<Seq<char>, V> {
        entries_map(self.entries@)
    }
}

impl<V> TickerMap<V> {
    /// No text has two entries.
    pub open spec fn wf(self) -> bool {
        forall|i: int, j: int|
            0 <= i < j < self.entries@.len() ==> (#[trigger] self.entries@[i]).0@ != (
            #[trigger] self.entries@[j]).0@
    }

    /// An entry of the table, and the other way round.
    pub proof fn lemma_entries(self)
        requires
            self.wf(),
        ensures
            self@.dom().finite(),
            self@.len() == self.entries@.len(),
            forall|i: int|
                0 <= i < self.entries@.len() ==> self@.contains_key((#[trigger] self.entries@[i]).0@)
                    && self@[self.entries@[i].0@] == self.entries@[i].1,
            forall|k: Seq<char>| #[trigger]
                self@.contains_key(k) ==> exists|i: int|
                    0 <= i < self.entries@.len() && (#[trigger] self.entries@[i]).0@ == k,
    {
        lemma_entries_map(self.entries@);
    }

    /// The empty table.
    pub fn new() -> (r: Self)
        ensures
            r.wf(),
            r@ == Map::<Seq<char>, V>::empty(),
    {
        TickerMap { entries: Vec::new() }
    }

    /// How many entries there are.
    pub fn len(&self) -> (n: usize)
        requires
            self.wf(),
        ensures
            n == self@.len(),
    {
        proof {
            self.lemma_entries();
        }
        self.entries.len()
    }

    /// The place of an entry.
    fn find(&self, key: &str) -> (r: Option<usize>)
        requires
            self.wf(),
        ensures
            match r {
                Some(i) => i < self.entries@.len() && self.entries@[i as int].0@ == key@
                    && self@.contains_key(key@) && self@[key@] == self.entries@[i as int].1,
                None => !self@.contains_key(key@),
            },
    {
        proof {
            self.lemma_entries();
        }
        let mut i: usize = 0;
        while i < self.entries.len()
            invariant
                i <= self.entries.len(),
                self.wf(),
                forall|j: int| 0 <= j < i ==> (#[trigger] self.entries@[j]).0@ != key@,
            decreases self.entries.len() - i,
        {
            if text::same_text(self.entries[i].0.as_str(), key) {
                proof {
                    self.lemma_entries();
                    assert(self@.contains_key(self.entries@[i as int].0@));
                }
                return Some(i);
            }
            i = i + 1;
        }
        None
    }

    /// Whether there is an entry for a text.
    pub fn contains_key(&self, key: &str) -> (r: bool)
        requires
            self.wf(),
        ensures
            r == self@.contains_key(key@),
    {
        self.find(key).is_some()
    }

    /// The value of an entry.
    pub fn get(&self, key: &str) -> (r: Option<&V>)
        requires
            self.wf(),
        ensures
            match r {
                Some(v) => self@.contains_key(key@) && self@[key@] == *v,
                None => !self@.contains_key(key@),
            },
    {
        match self.find(key) {
            Some(i) => Some(&self.entries[i].1),
            None => None,
        }
    }

    /// Removes an entry and returns its value.
    pub fn remove(&mut self, key: &str) -> (r: Option<V>)
        requires
            old(self).wf(),
        ensures
            final(self).wf(),
            final(self)@ == old(self)@.remove(key@),
            match r {
                Some(v) => old(self)@.contains_key(key@) && old(self)@[key@] == v,
                None => !old(self)@.contains_key(key@),
            },
    {
        match self.find(key) {
            Some(i) => {
                let ghost before = *self;
                let entry = self.entries.remove(i);
                proof {
                    let n = before.entries@.len() as int;
                    let ii = i as int;
                    assert(self.entries@ == before.entries@.remove(ii));
                    assert forall|a: int, b: int| 0 <= a < b < self.entries@.len() implies (
                    #[trigger] self.entries@[a]).0@ != (#[trigger] self.entries@[b]).0@ by {
                        let a0 = if a < ii { a } else { a + 1 };
                        let b0 = if b < ii { b } else { b + 1 };
                        assert(self.entries@[a] == before.entries@[a0]);
                        assert(self.entries@[b] == before.entries@[b0]);
                    }
                    before.lemma_entries();
                    self.lemma_entries();
                    assert forall|k: Seq<char>|
                        self@.contains_key(k) == before@.remove(key@).contains_key(k) by {
                        if self@.contains_key(k) {
                            let a = choose|a: int|
                                0 <= a < self.entries@.len() && (#[trigger] self.entries@[a]).0@
                                    == k;
                            let a0 = if a < ii { a } else { a + 1 };
                            assert(self.entries@[a] == before.entries@[a0]);
                            assert(before.entries@[a0].0@ != before.entries@[ii].0@);
                        }
                        if before@.remove(key@).contains_key(k) {
                            let a0 = choose|a0: int|
                                0 <= a0 < n && (#[trigger] before.entries@[a0]).0@ == k;
                            let a = if a0 < ii { a0 } else { a0 - 1 };
                            assert(a0 != ii);
                            assert(self.entries@[a] == before.entries@[a0]);
                        }
                    }
                    assert forall|k: Seq<char>| self@.contains_key(k) implies self@[k]
                        == before@.remove(key@)[k] by {
                        let a = choose|a: int|
                            0 <= a < self.entries@.len() && (#[trigger] self.entries@[a]).0@ == k;
                        let a0 = if a < ii { a } else { a + 1 };
                        assert(self.entries@[a] == before.entries@[a0]);
                        assert(before@[before.entries@[a0].0@] == before.entries@[a0].1);
                        assert(before.entries@[a0].0@ != before.entries@[ii].0@);
                    }
                    assert(self@ =~= before@.remove(key@));
                }
                Some(entry.1)
            },
            None => {
                proof {
                    assert(self@ =~= self@.remove(key@));
                }
                None
            },
        }
    }

    /// Sets the value of a text, whether it had one or not.
    pub fn insert(&mut self, key: String, value: V)
        requires
            old(self).wf(),
        ensures
            final(self).wf(),
            final(self)@ == old(self)@.insert(key@, value),
    {
        let ghost before = *self;
        self.remove(key.as_str());
        let ghost middle = *self;
        proof {
            middle.lemma_entries();
            assert forall|i: int| 0 <= i < middle.entries@.len() implies (
            #[trigger] middle.entries@[i]).0@ != key@ by {
                assert(middle@.contains_key(middle.entries@[i].0@));
            }
        }
        self.entries.push((key, value));
        proof {
            assert(self.entries@.drop_last() == middle.entries@);
            assert(before@.remove(key@).insert(key@, value) =~= before@.insert(key@, value));
        }
    }
}

} // verus!
