//! The statuses of the members, by slug.

use vstd::prelude::*;
use crate::health::{Health, Verdict};

verus! {

/// A mapping from slugs to health statuses. A slug without an entry has not
/// been probed yet.
pub struct HealthMap {
    entries: Vec<(String, Health)>,
}

/// Entry `i` is the one of `slug`.
spec fn holds_at(entries: Seq<(String, Health)>, slug: Seq<char>, i: int) -> bool {
    0 <= i < entries.len() && entries[i].0@ == slug
}

impl View for HealthMap {
    type V = Map<Seq<char>, Verdict>;

    closed spec fn view(&self) -> Map<Seq<char>, Verdict> {
        Map::new(
            |slug: Seq<char>| exists|i: int| holds_at(self.entries@, slug, i),
            |slug: Seq<char>| self.entries@[choose|i: int| holds_at(self.entries@, slug, i)].1@,
        )
    }
}

impl HealthMap {
    /// No slug has two entries.
    pub closed spec fn wf(&self) -> bool {
        forall|i: int, j: int|
            0 <= i < j < self.entries.len() ==> (#[trigger] self.entries[i]).0@
                != (#[trigger] self.entries[j]).0@
    }

    /// Entry `i` is what the mapping holds for its slug.
    proof fn lemma_entry(&self, i: int)
        requires
            self.wf(),
            0 <= i < self.entries.len(),
        ensures
            self@.contains_key(self.entries[i].0@),
            self@[self.entries[i].0@] == self.entries[i].1@,
    {
        let slug = self.entries[i].0@;
        assert(holds_at(self.entries@, slug, i));
        let chosen = choose|k: int| holds_at(self.entries@, slug, k);
        if chosen < i {
            assert(self.entries[chosen].0@ != self.entries[i].0@);
        }
        if i < chosen {
            assert(self.entries[i].0@ != self.entries[chosen].0@);
        }
    }

    /// A mapping whose entry `at` was set, all others staying as they were,
    /// holds what it held before and the new entry in place of an earlier
    /// one of the same slug. The entry was either replaced or appended.
    proof fn lemma_entry_set(before: HealthMap, after: HealthMap, at: int)
        requires
            before.wf(),
            0 <= at < after.entries.len(),
            after.entries.len() == before.entries.len() || (after.entries.len()
                == before.entries.len() + 1 && at == before.entries.len()),
            forall|k: int|
                0 <= k < before.entries.len() && k != at ==> #[trigger] after.entries[k]
                    == before.entries[k],
            at < before.entries.len() ==> before.entries[at].0@ == after.entries[at].0@,
            forall|k: int| holds_at(before.entries@, after.entries[at].0@, k) ==> k == at,
        ensures
            after.wf(),
            after@ == before@.insert(after.entries[at].0@, after.entries[at].1@),
    {
        let key = after.entries[at].0@;
        let value = after.entries[at].1@;
        assert forall|a: int, b: int| 0 <= a < b < after.entries.len() implies (
        #[trigger] after.entries[a]).0@ != (#[trigger] after.entries[b]).0@ by {
            if a == at {
                assert(!holds_at(before.entries@, key, b));
            } else if b == at {
                assert(!holds_at(before.entries@, key, a));
            } else {
                assert(before.entries[a].0@ != before.entries[b].0@);
            }
        }
        assert forall|other: Seq<char>| #[trigger]
            after@.contains_key(other) <==> before@.insert(key, value).contains_key(other) by {
            if after@.contains_key(other) {
                let k = choose|k: int| holds_at(after.entries@, other, k);
                if k != at {
                    assert(holds_at(before.entries@, other, k));
                }
            }
            if before@.contains_key(other) && other != key {
                let k = choose|k: int| holds_at(before.entries@, other, k);
                assert(holds_at(after.entries@, other, k));
            }
            if other == key {
                assert(holds_at(after.entries@, other, at));
            }
        }
        assert forall|other: Seq<char>| #[trigger] after@.contains_key(other) implies after@[other]
            == before@.insert(key, value)[other] by {
            let k = choose|k: int| holds_at(after.entries@, other, k);
            after.lemma_entry(k);
            if other != key {
                assert(after.entries[k] == before.entries[k]);
                before.lemma_entry(k);
            } else {
                after.lemma_entry(at);
            }
        }
        assert(after@ =~= before@.insert(key, value));
    }

    /// The mapping that holds nothing.
    pub fn new() -> (map: HealthMap)
        ensures
            map.wf(),
            map@ == Map::<Seq<char>, Verdict>::empty(),
    {
        let map = HealthMap { entries: Vec::new() };
        assert(map@ =~= Map::<Seq<char>, Verdict>::empty());
        map
    }

    /// Looks for the entry of `slug`.
    fn position(&self, slug: &String) -> (found: Option<usize>)
        ensures
            match found {
                Some(i) => holds_at(self.entries@, slug@, i as int),
                None => forall|i: int| !holds_at(self.entries@, slug@, i),
            },
    {
        let mut i: usize = 0;
        while i < self.entries.len()
            invariant
                i <= self.entries.len(),
                forall|k: int| 0 <= k < i ==> (#[trigger] self.entries[k]).0@ != slug@,
            decreases self.entries.len() - i,
        {
            if self.entries[i].0 == *slug {
                return Some(i);
            }
            i += 1;
        }
        None
    }

    /// The status of `slug`, if it has one.
    pub fn get(&self, slug: &String) -> (status: Option<&Health>)
        requires
            self.wf(),
        ensures
            match status {
                Some(health) => self@.contains_key(slug@) && self@[slug@] == health@,
                None => !self@.contains_key(slug@),
            },
    {
        match self.position(slug) {
            Some(i) => {
                proof {
                    self.lemma_entry(i as int);
                }
                Some(&self.entries[i].1)
            },
            None => None,
        }
    }

    /// Sets the status of `slug`, in place of the one it had.
    pub fn insert(&mut self, slug: String, health: Health)
        requires
            old(self).wf(),
        ensures
            final(self).wf(),
            final(self)@ == old(self)@.insert(slug@, health@),
    {
        let ghost before = *self;
        match self.position(&slug) {
            Some(i) => {
                self.entries.set(i, (slug, health));
                proof {
                    assert forall|k: int|
                        holds_at(before.entries@, slug@, k) implies k == i by {
                        if k < i {
                            assert(before.entries[k].0@ != before.entries[i as int].0@);
                        }
                        if i < k {
                            assert(before.entries[i as int].0@ != before.entries[k].0@);
                        }
                    }
                    Self::lemma_entry_set(before, *self, i as int);
                }
            },
            None => {
                self.entries.push((slug, health));
                proof {
                    Self::lemma_entry_set(before, *self, before.entries.len() as int);
                }
            },
        }
    }
}

} // verus!
