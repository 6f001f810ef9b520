use vstd::prelude::*;

verus! {

/// An unbounded in-memory mapping from string keys to string values.
pub struct Store {
    entries: Vec<(String, String)>,
    contents: Ghost<Map<Seq<char>, Seq<char>>>,
}

impl View for Store {
    type V = Map<Seq<char>, Seq<char>>;

    closed spec fn view(&self) -> Map<Seq<char>, Seq<char>> {
        self.contents@
    }
}

impl Store {
    /// The entries hold each key at most once, and are exactly the mapping.
    pub closed spec fn wf(&self) -> bool {
        &&& forall|i: int|
            0 <= i < self.entries.len() ==> #[trigger] self.contents@.contains_key(self.entries[i].0@)
                && self.contents@[self.entries[i].0@] == self.entries[i].1@
        &&& forall|k: Seq<char>|
            #[trigger] self.contents@.contains_key(k) ==> exists|i: int|
                0 <= i < self.entries.len() && #[trigger] self.entries[i].0@ == k
        &&& forall|i: int, j: int|
            0 <= i < self.entries.len() && 0 <= j < self.entries.len() && i != j
                ==> #[trigger] self.entries[i].0@ != #[trigger] self.entries[j].0@
    }

    /// An empty store.
    pub fn new() -> (r: Store)
        ensures
            r.wf(),
            r@ == Map::<Seq<char>, Seq<char>>::empty(),
    {
        Store { entries: Vec::new(), contents: Ghost(Map::empty()) }
    }

    /// The index of the entry for `key`, if there is one.
    fn find(&self, key: &String) -> (r: Option<usize>)
        requires
            self.wf(),
        ensures
            match r {
                Some(i) => i < self.entries.len() && self.entries[i as int].0@ == key@,
                None => !self@.contains_key(key@),
            },
    {
        let mut i: usize = 0;
        while i < self.entries.len()
            invariant
                self.wf(),
                i <= self.entries.len(),
                forall|j: int| 0 <= j < i ==> self.entries[j].0@ != key@,
            decreases self.entries.len() - i,
        {
            if self.entries[i].0 == *key {
                return Some(i);
            }
            i = i + 1;
        }
        None
    }

    /// Binds `key` to `value`, replacing any earlier value.
    pub fn set(&mut self, key: String, value: String)
        requires
            old(self).wf(),
        ensures
            final(self).wf(),
            final(self)@ == old(self)@.insert(key@, value@),
    {
        let ghost m = self.contents@.insert(key@, value@);
        match self.find(&key) {
            Some(i) => {
                let ghost old_entries = self.entries@;
                self.entries.set(i, (key, value));
                self.contents = Ghost(m);
                assert forall|a: int| 0 <= a < self.entries.len() implies #[trigger] self.contents@.contains_key(self.entries[a].0@)
                    && self.contents@[self.entries[a].0@] == self.entries[a].1@ by {
                    if a != i {
                        assert(old_entries[a].0@ != old_entries[i as int].0@);
                        assert(old(self).contents@.contains_key(old(self).entries[a].0@));
                    }
                }
                assert forall|a: int, c: int|
                    0 <= a < self.entries.len() && 0 <= c < self.entries.len() && a != c
                        implies #[trigger] self.entries[a].0@ != #[trigger] self.entries[c].0@ by {
                    assert(old_entries[a].0@ != old_entries[c].0@);
                }
                assert forall|k: Seq<char>| #[trigger] self.contents@.contains_key(k) implies exists|j: int|
                    0 <= j < self.entries.len() && #[trigger] self.entries[j].0@ == k by {
                    if k != self.entries[i as int].0@ {
                        let j = choose|j: int| 0 <= j < old(self).entries.len() && #[trigger] old(self).entries[j].0@ == k;
                        assert(self.entries[j].0@ == k);
                    }
                }
            },
            None => {
                let ghost kv = key@;
                let ghost old_entries = self.entries@;
                self.entries.push((key, value));
                self.contents = Ghost(m);
                assert forall|a: int| 0 <= a < self.entries.len() implies #[trigger] self.contents@.contains_key(self.entries[a].0@)
                    && self.contents@[self.entries[a].0@] == self.entries[a].1@ by {
                    if a < old_entries.len() {
                        assert(old(self).contents@.contains_key(old(self).entries[a].0@));
                    }
                }
                assert forall|a: int, c: int|
                    0 <= a < self.entries.len() && 0 <= c < self.entries.len() && a != c
                        implies #[trigger] self.entries[a].0@ != #[trigger] self.entries[c].0@ by {
                    if a < old_entries.len() && c < old_entries.len() {
                        assert(old_entries[a].0@ != old_entries[c].0@);
                    } else if a < old_entries.len() {
                        assert(old(self).contents@.contains_key(old(self).entries[a].0@));
                    } else if c < old_entries.len() {
                        assert(old(self).contents@.contains_key(old(self).entries[c].0@));
                    }
                }
                assert forall|k: Seq<char>| #[trigger] self.contents@.contains_key(k) implies exists|j: int|
                    0 <= j < self.entries.len() && #[trigger] self.entries[j].0@ == k by {
                    if k != kv {
                        let j = choose|j: int| 0 <= j < old(self).entries.len() && #[trigger] old(self).entries[j].0@ == k;
                        assert(self.entries[j].0@ == k);
                    } else {
                        assert(self.entries[self.entries.len() - 1].0@ == k);
                    }
                }
            },
        }
    }

    /// The value bound to `key`, if any. The store is left as it was.
    pub fn get(&mut self, key: String) -> (r: Option<String>)
        requires
            old(self).wf(),
        ensures
            final(self).wf(),
            final(self)@ == old(self)@,
            match r {
                Some(v) => old(self)@.contains_key(key@) && v@ == old(self)@[key@],
                None => !old(self)@.contains_key(key@),
            },
    {
        match self.find(&key) {
            Some(i) => {
                let v = self.entries[i].1.clone();
                assert(self.contents@.contains_key(self.entries[i as int].0@));
                Some(v)
            },
            None => None,
        }
    }

    /// Removes the binding of `key`, if there is one.
    pub fn del(&mut self, key: String)
        requires
            old(self).wf(),
        ensures
            final(self).wf(),
            final(self)@ == old(self)@.remove(key@),
    {
        let ghost m = self.contents@.remove(key@);
        match self.find(&key) {
            Some(i) => {
                let ghost old_entries = self.entries@;
                self.entries.remove(i);
                self.contents = Ghost(m);
                assert forall|a: int| 0 <= a < self.entries.len() implies #[trigger] self.contents@.contains_key(self.entries[a].0@)
                    && self.contents@[self.entries[a].0@] == self.entries[a].1@ by {
                    let b = if a < i { a } else { a + 1 };
                    assert(self.entries[a] == old_entries[b]);
                    assert(old_entries[b].0@ != old_entries[i as int].0@);
                    assert(old(self).contents@.contains_key(old(self).entries[b].0@));
                }
                assert forall|k: Seq<char>| #[trigger] self.contents@.contains_key(k) implies exists|j: int|
                    0 <= j < self.entries.len() && #[trigger] self.entries[j].0@ == k by {
                    let j = choose|j: int| 0 <= j < old_entries.len() && #[trigger] old_entries[j].0@ == k;
                    assert(j != i);
                    let a = if j < i { j } else { j - 1 };
                    assert(self.entries[a] == old_entries[j]);
                }
                assert forall|a: int, c: int|
                    0 <= a < self.entries.len() && 0 <= c < self.entries.len() && a != c
                        implies #[trigger] self.entries[a].0@ != #[trigger] self.entries[c].0@ by {
                    let b = if a < i { a } else { a + 1 };
                    let d = if c < i { c } else { c + 1 };
                    assert(self.entries[a] == old_entries[b]);
                    assert(self.entries[c] == old_entries[d]);
                }
            },
            None => {
                assert(self.contents@ =~= m);
            },
        }
    }
}

} // verus!
