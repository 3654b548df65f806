//! Maps and sets of texts, held as lists.

use vstd::prelude::*;

use crate::text::same_text;

verus! {

/// What a list of keys and values maps each key to.
pub open spec fn map_of<V>(entries: Seq<(String, V)>) -> Map<Seq<char>, V>
    decreases entries.len(),
{
    if entries.len() == 0 {
        Map::empty()
    } else {
        map_of(entries.drop_last()).insert(entries.last().0@, entries.last().1)
    }
}

/// Whether no key occurs twice.
pub open spec fn keys_differ<V>(entries: Seq<(String, V)>) -> bool {
    forall|i: int, j: int|
        0 <= i < j < entries.len() ==> (#[trigger] entries[i]).0@ != (#[trigger] entries[j]).0@
}

/// A list with different keys maps each to the value beside it, and no other.
pub proof fn lemma_map_of<V>(entries: Seq<(String, V)>)
    requires
        keys_differ(entries),
    ensures
        forall|i: int|
            0 <= i < entries.len() ==> map_of(entries).contains_key((#[trigger] entries[i]).0@)
                && map_of(entries)[entries[i].0@] == entries[i].1,
        forall|key: Seq<char>| #[trigger]
            map_of(entries).contains_key(key) ==> exists|i: int|
                0 <= i < entries.len() && (#[trigger] entries[i]).0@ == key,
    decreases entries.len(),
{
    if entries.len() > 0 {
        let rest = entries.drop_last();
        assert(keys_differ(rest)) by {
            assert forall|i: int, j: int| 0 <= i < j < rest.len() implies (#[trigger] rest[i]).0@
                != (#[trigger] rest[j]).0@ by {
                assert(entries[i].0@ != entries[j].0@);
            }
        }
        lemma_map_of(rest);
        assert forall|i: int| 0 <= i < entries.len() implies map_of(entries).contains_key(
            (#[trigger] entries[i]).0@,
        ) && map_of(entries)[entries[i].0@] == entries[i].1 by {
            if i < rest.len() {
                assert(rest[i] == entries[i]);
                assert(entries[i].0@ != entries[entries.len() - 1].0@);
            }
        }
        assert forall|key: Seq<char>| #[trigger] map_of(entries).contains_key(
            key,
        ) implies exists|i: int| 0 <= i < entries.len() && (#[trigger] entries[i]).0@ == key by {
            if key == entries.last().0@ {
                assert(entries[entries.len() - 1].0@ == key);
            } else {
                assert(map_of(rest).contains_key(key));
                let i = choose|i: int| 0 <= i < rest.len() && (#[trigger] rest[i]).0@ == key;
                assert(rest[i] == entries[i]);
            }
        }
    }
}

/// A map from texts.
#[derive(Debug)]
pub struct TextMap<V> {
    pub entries: Vec<(String, V)>,
}

impl<V> View for TextMap<V> {
    type V = Map<Seq<char>, V>;

    open spec fn view(&self) -> Map<Seq<char>, V> {
        map_of(self.entries@)
    }
}

impl<V> TextMap<V> {
    /// No key is held twice.
    pub open spec fn wf(&self) -> bool {
        keys_differ(self.entries@)
    }

    /// A map of nothing.
    pub fn new() -> (map: Self)
        ensures
            map.wf(),
            map@ == Map::<Seq<char>, V>::empty(),
    {
        TextMap { entries: Vec::new() }
    }

    /// Where a key is held.
    fn place(&self, key: &str) -> (at: Option<usize>)
        requires
            self.wf(),
        ensures
            match at {
                Some(i) => i < self.entries.len() && self.entries@[i as int].0@ == key@
                    && self@.contains_key(key@) && self@[key@] == self.entries@[i as int].1,
                None => !self@.contains_key(key@),
            },
    {
        proof {
            lemma_map_of(self.entries@);
        }
        let mut i: usize = 0;
        while i < self.entries.len()
            invariant
                i <= self.entries@.len(),
                forall|k: int| 0 <= k < i ==> (#[trigger] self.entries@[k]).0@ != key@,
                forall|k: int|
                    0 <= k < self.entries@.len() ==> self@.contains_key(
                        (#[trigger] self.entries@[k]).0@,
                    ) && self@[self.entries@[k].0@] == self.entries@[k].1,
                forall|k: Seq<char>| #[trigger]
                    self@.contains_key(k) ==> exists|i: int|
                        0 <= i < self.entries@.len() && (#[trigger] self.entries@[i]).0@ == k,
            decreases self.entries@.len() - i,
        {
            if same_text(self.entries[i].0.as_str(), key) {
                return Some(i);
            }
            i += 1;
        }
        None
    }

    /// What a key is mapped to.
    pub fn get(&self, key: &str) -> (value: Option<&V>)
        requires
            self.wf(),
        ensures
            match value {
                Some(v) => self@.contains_key(key@) && *v == self@[key@],
                None => !self@.contains_key(key@),
            },
    {
        match self.place(key) {
            Some(at) => Some(&self.entries[at].1),
            None => None,
        }
    }

    /// Whether a key is mapped to anything.
    pub fn contains(&self, key: &str) -> (r: bool)
        requires
            self.wf(),
        ensures
            r == self@.contains_key(key@),
    {
        self.place(key).is_some()
    }

    /// Takes out what a key is mapped to.
    pub fn take(&mut self, key: &str) -> (value: Option<V>)
        requires
            old(self).wf(),
        ensures
            final(self).wf(),
            final(self)@ == old(self)@.remove(key@),
            match value {
                Some(v) => old(self)@.contains_key(key@) && v == old(self)@[key@],
                None => !old(self)@.contains_key(key@),
            },
    {
        let ghost before = self.entries@;
        match self.place(key) {
            Some(at) => {
                let (_, value) = self.entries.remove(at);
                proof {
                    lemma_map_without(before, at as int);
                }
                Some(value)
            },
            None => {
                assert(self@.remove(key@) =~= self@);
                None
            },
        }
    }

    /// Maps a key to a value, and gives back what it was mapped to before.
    pub fn insert(&mut self, key: String, value: V) -> (before: Option<V>)
        requires
            old(self).wf(),
        ensures
            final(self).wf(),
            final(self)@ == old(self)@.insert(key@, value),
            match before {
                Some(v) => old(self)@.contains_key(key@) && v == old(self)@[key@],
                None => !old(self)@.contains_key(key@),
            },
    {
        let before = self.take(key.as_str());
        let ghost rest = self.entries@;
        let ghost whole = self@;
        let ghost k = key@;
        let ghost v = value;
        proof {
            lemma_map_of(rest);
        }
        self.entries.push((key, value));
        proof {
            assert(self.entries@.drop_last() =~= rest);
            assert(self@ =~= whole.insert(k, v));
            assert(whole.insert(k, v) =~= old(self)@.insert(k, v));
            assert forall|i: int, j: int| 0 <= i < j < self.entries@.len() implies (
            #[trigger] self.entries@[i]).0@ != (#[trigger] self.entries@[j]).0@ by {
                assert(self.entries@[i] == rest[i]);
                if j == rest.len() {
                    assert(whole.contains_key(rest[i].0@));
                } else {
                    assert(self.entries@[j] == rest[j]);
                }
            }
        }
        before
    }

    /// Drops the keys that `test` does not keep.
    pub fn retain<F: Fn(&str) -> bool>(
        &mut self,
        test: F,
        Ghost(keep): Ghost<spec_fn(Seq<char>) -> bool>,
    )
        requires
            old(self).wf(),
            forall|key: &str| test.requires((key,)),
            forall|key: &str, r: bool| test.ensures((key,), r) ==> r == keep(key@),
        ensures
            final(self).wf(),
            final(self)@ == old(self)@.restrict(
                Set::new(|key: Seq<char>| old(self)@.contains_key(key) && keep(key)),
            ),
    {
        let ghost whole = self@;
        let ghost kept = Set::new(|key: Seq<char>| whole.contains_key(key) && keep(key));
        let mut i: usize = 0;
        proof {
            lemma_map_of(self.entries@);
        }
        while i < self.entries.len()
            invariant
                i <= self.entries@.len(),
                self.wf(),
                kept == Set::new(|key: Seq<char>| whole.contains_key(key) && keep(key)),
                self@.submap_of(whole),
                forall|key: Seq<char>|
                    whole.contains_key(key) && keep(key) ==> #[trigger] self@.contains_key(key),
                forall|k: int| 0 <= k < i ==> keep((#[trigger] self.entries@[k]).0@),
                forall|key: &str| test.requires((key,)),
                forall|key: &str, r: bool| test.ensures((key,), r) ==> r == keep(key@),
            decreases self.entries@.len() - i,
        {
            if test(self.entries[i].0.as_str()) {
                i += 1;
            } else {
                let ghost before = self.entries@;
                self.entries.remove(i);
                proof {
                    lemma_map_without(before, i as int);
                    assert forall|k: int| 0 <= k < i implies keep(
                        (#[trigger] self.entries@[k]).0@,
                    ) by {
                        assert(self.entries@[k] == before[k]);
                    }
                }
            }
        }
        proof {
            lemma_map_of(self.entries@);
            assert forall|key: Seq<char>| #[trigger] self@.contains_key(key) implies whole.contains_key(
                key,
            ) && keep(key) by {
                let k = choose|k: int|
                    0 <= k < self.entries@.len() && (#[trigger] self.entries@[k]).0@ == key;
                assert(keep(self.entries@[k].0@));
            }
            assert(self@ =~= whole.restrict(kept));
            assert(kept =~= Set::new(
                |key: Seq<char>| old(self)@.contains_key(key) && keep(key),
            ));
        }
    }
}

/// A list without an entry maps the other keys as before.
pub proof fn lemma_map_without<V>(entries: Seq<(String, V)>, at: int)
    requires
        keys_differ(entries),
        0 <= at < entries.len(),
    ensures
        keys_differ(entries.remove(at)),
        map_of(entries.remove(at)) == map_of(entries).remove(entries[at].0@),
{
    let rest = entries.remove(at);
    let old_place = |k: int|
        if k < at {
            k
        } else {
            k + 1
        };
    assert forall|i: int, j: int| 0 <= i < j < rest.len() implies (#[trigger] rest[i]).0@ != (
    #[trigger] rest[j]).0@ by {
        assert(rest[i] == entries[old_place(i)]);
        assert(rest[j] == entries[old_place(j)]);
        assert(entries[old_place(i)].0@ != entries[old_place(j)].0@);
    }
    lemma_map_of(entries);
    lemma_map_of(rest);
    let key = entries[at].0@;
    assert forall|k: Seq<char>| #[trigger] map_of(rest).contains_key(k) implies map_of(
        entries,
    ).remove(key).contains_key(k) && map_of(rest)[k] == map_of(entries).remove(key)[k] by {
        let i = choose|i: int| 0 <= i < rest.len() && (#[trigger] rest[i]).0@ == k;
        assert(rest[i] == entries[old_place(i)]);
        if i < at {
            assert(entries[i].0@ != entries[at].0@);
        } else {
            assert(entries[at].0@ != entries[i + 1].0@);
        }
    }
    assert forall|k: Seq<char>| #[trigger] map_of(entries).remove(key).contains_key(
        k,
    ) implies map_of(rest).contains_key(k) by {
        assert(map_of(entries).contains_key(k));
        let i = choose|i: int| 0 <= i < entries.len() && (#[trigger] entries[i]).0@ == k;
        let j = if i < at {
            i
        } else {
            i - 1
        };
        assert(rest[j] == entries[i]);
    }
    assert(map_of(rest) =~= map_of(entries).remove(key));
}

} // verus!
