//! A small map from field names to values.

use vstd::prelude::*;

use crate::text;

verus! {

/// A map from field names to values; no name occurs twice.
#[derive(Debug)]
pub struct FieldMap {
    entries: Vec<(String, String)>,
}

/// Position of `key` among `entries`, or their number when it is absent.
spec fn position(entries: Seq<(String, String)>, key: Seq<char>) -> int
    decreases entries.len(),
{
    if entries.len() == 0 || entries[0].0@ == key {
        0
    } else {
        1 + position(entries.drop_first(), key)
    }
}

/// `map` holds every entry of `wanted`.
pub open spec fn holds_all(map: Map<Seq<char>, Seq<char>>, wanted: Map<Seq<char>, Seq<char>>) -> bool {
    forall|key: Seq<char>| #[trigger]
        wanted.dom().contains(key) ==> map.dom().contains(key) && map[key] == wanted[key]
}

impl View for FieldMap {
    type V = Map<Seq<char>, Seq<char>>;

    closed spec fn view(&self) -> Map<Seq<char>, Seq<char>> {
        Map::new(
            |key: Seq<char>| position(self.entries@, key) < self.entries@.len(),
            |key: Seq<char>| self.entries@[position(self.entries@, key)].1@,
        )
    }
}

impl FieldMap {
    #[verifier::type_invariant]
    spec fn names_are_unique(&self) -> bool {
        forall|i: int, j: int|
            0 <= i < j < self.entries@.len() ==> (#[trigger] self.entries@[i]).0@ != (
            #[trigger] self.entries@[j]).0@
    }

    /// A map without entries.
    pub fn new() -> (map: Self)
        ensures
            map@ == Map::<Seq<char>, Seq<char>>::empty(),
    {
        let map = FieldMap { entries: Vec::new() };
        assert(map@ =~= Map::<Seq<char>, Seq<char>>::empty());
        map
    }

    /// The value stored under `key`.
    pub fn get(&self, key: &str) -> (value: Option<&str>)
        ensures
            match value {
                Some(v) => self@.dom().contains(key@) && v@ == self@[key@],
                None => !self@.dom().contains(key@),
            },
    {
        let mut i: usize = 0;
        while i < self.entries.len()
            invariant
                i <= self.entries@.len(),
                forall|k: int| 0 <= k < i ==> (#[trigger] self.entries@[k]).0@ != key@,
            decreases self.entries@.len() - i,
        {
            if text::text_eq(self.entries[i].0.as_str(), key) {
                proof {
                    lemma_position_at(self.entries@, key@, i as int);
                }
                return Some(self.entries[i].1.as_str());
            }
            i += 1;
        }
        proof {
            lemma_position_at(self.entries@, key@, i as int);
        }
        None
    }

    /// Store `value` under `key`, in place of what was stored there.
    pub fn insert(&mut self, key: String, value: String)
        ensures
            final(self)@ == old(self)@.insert(key@, value@),
    {
        proof {
            use_type_invariant(&*self);
        }
        let ghost before = self.entries@;
        let ghost k = key@;
        let ghost v = value@;
        let mut entries: Vec<(String, String)> = Vec::new();
        std::mem::swap(&mut entries, &mut self.entries);
        let mut i: usize = 0;
        while i < entries.len() && !text::text_eq(entries[i].0.as_str(), key.as_str())
            invariant
                i <= entries@.len(),
                entries@ == before,
                forall|n: int| 0 <= n < i ==> (#[trigger] entries@[n]).0@ != key@,
            decreases entries@.len() - i,
        {
            i += 1;
        }
        proof {
            lemma_position_at(before, k, i as int);
        }
        if i < entries.len() {
            entries.set(i, (key, value));
        } else {
            entries.push((key, value));
        }
        let ghost after = entries@;
        proof {
            assert forall|n: int| 0 <= n < before.len() implies (#[trigger] after[n]).0@ == before[n].0@ by {}
            assert forall|other: Seq<char>| #[trigger] position(after, other) == (if other == k {
                i as int
            } else if position(before, other) < before.len() {
                position(before, other)
            } else {
                after.len() as int
            }) by {
                lemma_position(before, other);
                lemma_position(after, other);
                let p = if other == k {
                    i as int
                } else if position(before, other) < before.len() {
                    position(before, other)
                } else {
                    after.len() as int
                };
                lemma_position_at(after, other, p);
            }
        }
        self.entries = entries;
        proof {
            assert forall|other: Seq<char>| true implies 0 <= #[trigger] position(before, other) <= before.len() by {
                lemma_position(before, other);
            }
            assert(old(self).entries@ == before);
            assert(self.entries@ == after);
            let target = old(self)@.insert(k, v);
            assert(after[i as int].0@ == k && after[i as int].1@ == v);
            assert forall|other: Seq<char>| self@.dom().contains(other) == #[trigger] target.dom().contains(other) by {
                assert((position(after, other) < after.len()) == self@.dom().contains(other));
                assert((position(before, other) < before.len()) == old(self)@.dom().contains(other));
            }
            assert forall|other: Seq<char>| #[trigger] target.dom().contains(other) implies self@[other] == target[other] by {
                assert(position(after, other) < after.len());
                if other != k {
                    lemma_position(before, other);
                    lemma_position(before, k);
                    assert(position(before, other) < before.len());
                }
            }
            assert(self@ =~= target);
        }
    }

    /// The entries of this map, each name once.
    pub fn entries(&self) -> (entries: &Vec<(String, String)>)
        ensures
            forall|i: int|
                0 <= i < entries@.len() ==> self@.dom().contains((#[trigger] entries@[i]).0@)
                    && self@[entries@[i].0@] == entries@[i].1@,
            forall|i: int, j: int|
                0 <= i < j < entries@.len() ==> (#[trigger] entries@[i]).0@ != (
                #[trigger] entries@[j]).0@,
            forall|key: Seq<char>| #[trigger]
                self@.dom().contains(key) ==> exists|i: int|
                    0 <= i < entries@.len() && (#[trigger] entries@[i]).0@ == key,
    {
        proof {
            use_type_invariant(self);
            assert forall|i: int| 0 <= i < self.entries@.len() implies self@.dom().contains(
                (#[trigger] self.entries@[i]).0@,
            ) && self@[self.entries@[i].0@] == self.entries@[i].1@ by {
                lemma_position_at(self.entries@, self.entries@[i].0@, i);
            }
            assert forall|key: Seq<char>| #[trigger] self@.dom().contains(key) implies exists|
                i: int,
            |
                0 <= i < self.entries@.len() && (#[trigger] self.entries@[i]).0@ == key by {
                lemma_position(self.entries@, key);
                assert(self.entries@[position(self.entries@, key)].0@ == key);
            }
        }
        &self.entries
    }

    /// True when `other` holds every entry of this map.
    pub fn is_within(&self, other: &FieldMap) -> (yes: bool)
        ensures
            yes == holds_all(other@, self@),
    {
        proof {
            use_type_invariant(self);
        }
        let mut i: usize = 0;
        while i < self.entries.len()
            invariant
                i <= self.entries@.len(),
                self.names_are_unique(),
                forall|n: int|
                    0 <= n < i ==> other@.dom().contains((#[trigger] self.entries@[n]).0@)
                        && other@[self.entries@[n].0@] == self.entries@[n].1@,
            decreases self.entries@.len() - i,
        {
            let want: &str = self.entries[i].1.as_str();
            let ghost key = self.entries@[i as int].0@;
            let matched: bool = match other.get(self.entries[i].0.as_str()) {
                Some(got) => text::text_eq(got, want),
                None => false,
            };
            if !matched {
                proof {
                    lemma_position_at(self.entries@, key, i as int);
                    assert(self@.dom().contains(key));
                }
                return false;
            }
            i += 1;
        }
        proof {
            assert forall|key: Seq<char>| #[trigger] self@.dom().contains(key) implies other@.dom().contains(key) && other@[key]
                == self@[key] by {
                lemma_position(self.entries@, key);
                let p = position(self.entries@, key);
                assert(self.entries@[p].0@ == key);
            }
        }
        true
    }
}

impl Clone for FieldMap {
    fn clone(&self) -> (copy: Self)
        ensures
            copy@ == self@,
    {
        let mut copy: FieldMap = FieldMap::new();
        proof {
            use_type_invariant(self);
        }
        let mut i: usize = 0;
        proof {
            assert forall|key: Seq<char>| true implies 0 <= #[trigger] position(self.entries@, key) by {
                lemma_position(self.entries@, key);
            }
            assert(copy@ =~= self.first(0));
        }
        while i < self.entries.len()
            invariant
                i <= self.entries@.len(),
                self.names_are_unique(),
                copy@ == self.first(i as int),
            decreases self.entries@.len() - i,
        {
            copy.insert(self.entries[i].0.clone(), self.entries[i].1.clone());
            proof {
                self.lemma_first(i as int);
            }
            i += 1;
        }
        proof {
            assert forall|key: Seq<char>| true implies 0 <= #[trigger] position(self.entries@, key) <= self.entries@.len() by {
                lemma_position(self.entries@, key);
            }
            assert(self.first(i as int) =~= self@);
        }
        copy
    }
}

impl FieldMap {
    /// The first `n` entries as a map.
    spec fn first(&self, n: int) -> Map<Seq<char>, Seq<char>> {
        Map::new(
            |key: Seq<char>| position(self.entries@, key) < n,
            |key: Seq<char>| self.entries@[position(self.entries@, key)].1@,
        )
    }

    proof fn lemma_first(&self, n: int)
        requires
            self.names_are_unique(),
            0 <= n < self.entries@.len(),
        ensures
            self.first(n + 1) == self.first(n).insert(self.entries@[n].0@, self.entries@[n].1@),
    {
        let k = self.entries@[n].0@;
        lemma_position_at(self.entries@, k, n);
        assert forall|key: Seq<char>| #[trigger] position(self.entries@, key) == n implies key == k by {
            lemma_position(self.entries@, key);
        }
        assert(self.first(n + 1) =~= self.first(n).insert(k, self.entries@[n].1@));
    }
}

impl Default for FieldMap {
    fn default() -> (map: Self)
        ensures
            map@ == Map::<Seq<char>, Seq<char>>::empty(),
    {
        FieldMap::new()
    }
}

proof fn lemma_position(entries: Seq<(String, String)>, key: Seq<char>)
    ensures
        0 <= position(entries, key) <= entries.len(),
        position(entries, key) < entries.len() ==> entries[position(entries, key)].0@ == key,
        forall|i: int| 0 <= i < position(entries, key) ==> (#[trigger] entries[i]).0@ != key,
    decreases entries.len(),
{
    if entries.len() > 0 && entries[0].0@ != key {
        let rest = entries.drop_first();
        lemma_position(rest, key);
        assert forall|i: int| 0 <= i < position(entries, key) implies (#[trigger] entries[i]).0@ != key by {
            if i > 0 {
                assert(rest[i - 1] == entries[i]);
            }
        }
    }
}

proof fn lemma_position_at(entries: Seq<(String, String)>, key: Seq<char>, at: int)
    requires
        0 <= at <= entries.len(),
        at < entries.len() ==> entries[at].0@ == key,
        forall|i: int| 0 <= i < at ==> (#[trigger] entries[i]).0@ != key,
    ensures
        position(entries, key) == at,
{
    lemma_position(entries, key);
    if position(entries, key) < at {
        assert(entries[position(entries, key)].0@ != key);
    }
}

}
