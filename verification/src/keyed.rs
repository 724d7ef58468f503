use vstd::prelude::*;

verus! {

/// Values with a copy equal to themselves.
pub trait Copied: Sized {
    /// A copy, equal to the value.
    fn copied(&self) -> (r: Self)
        ensures
            r == *self,
    ;
}

impl Copied for u64 {
    fn copied(&self) -> (r: Self) {
        *self
    }
}

/// Values found by a string key; a later insert under the same key replaces the value.
#[derive(Debug)]
pub struct Keyed<T> {
    entries: Vec<(String, T)>,
}

/// The entries of a list, found by key; a later entry wins.
pub open spec fn keyed_map<T>(s: Seq<(String, T)>) -> Map<Seq<char>, T>
    decreases s.len(),
{
    if s.len() == 0 {
        Map::empty()
    } else {
        keyed_map(s.drop_last()).insert(s.last().0@, s.last().1)
    }
}

pub open spec fn keys_distinct<T>(s: Seq<(String, T)>) -> bool {
    forall|i: int, j: int| 0 <= i < j < s.len() ==> s[i].0@ != s[j].0@
}

proof fn lemma_keyed_map<T>(s: Seq<(String, T)>)
    requires
        keys_distinct(s),
    ensures
        forall|i: int| 0 <= i < s.len() ==> #[trigger] keyed_map(s).contains_key(s[i].0@) && keyed_map(s)[s[i].0@] == s[i].1,
        forall|k: Seq<char>| #[trigger] keyed_map(s).contains_key(k) ==> exists|i: int| 0 <= i < s.len() && s[i].0@ == k,
    decreases s.len(),
{
    if s.len() > 0 {
        let t = s.drop_last();
        assert forall|i: int, j: int| 0 <= i < j < t.len() implies t[i].0@ != t[j].0@ by {
            assert(t[i] == s[i] && t[j] == s[j]);
        }
        lemma_keyed_map(t);
        assert forall|i: int| 0 <= i < s.len() implies #[trigger] keyed_map(s).contains_key(s[i].0@) && keyed_map(s)[s[i].0@] == s[i].1 by {
            if i < s.len() - 1 {
                assert(t[i] == s[i]);
                assert(keyed_map(t).contains_key(t[i].0@));
                assert(s[i].0@ != s.last().0@);
            }
        }
        assert forall|k: Seq<char>| #[trigger] keyed_map(s).contains_key(k) implies exists|i: int| 0 <= i < s.len() && s[i].0@ == k by {
            if k != s.last().0@ {
                assert(keyed_map(t).contains_key(k));
                let i = choose|i: int| 0 <= i < t.len() && t[i].0@ == k;
                assert(s[i] == t[i]);
            } else {
                assert(s[s.len() - 1].0@ == k);
            }
        }
    }
}

proof fn lemma_keyed_map_update<T>(s: Seq<(String, T)>, i: int, e: (String, T))
    requires
        keys_distinct(s),
        0 <= i < s.len(),
        s[i].0@ == e.0@,
    ensures
        keys_distinct(s.update(i, e)),
        keyed_map(s.update(i, e)) =~= keyed_map(s).insert(e.0@, e.1),
    decreases s.len(),
{
    let u = s.update(i, e);
    assert forall|a: int, b: int| 0 <= a < b < u.len() implies u[a].0@ != u[b].0@ by {
        assert(u[a].0@ == s[a].0@ && u[b].0@ == s[b].0@);
    }
    let t = s.drop_last();
    assert forall|a: int, b: int| 0 <= a < b < t.len() implies t[a].0@ != t[b].0@ by {
        assert(t[a] == s[a] && t[b] == s[b]);
    }
    if i == s.len() - 1 {
        assert(u.drop_last() =~= t);
    } else {
        assert(u.drop_last() =~= t.update(i, e));
        assert(t[i] == s[i]);
        lemma_keyed_map_update(t, i, e);
        assert(s.last().0@ != e.0@);
    }
}

impl<T> View for Keyed<T> {
    type V = Map<Seq<char>, T>;

    closed spec fn view(&self) -> Map<Seq<char>, T> {
        keyed_map(self.entries@)
    }
}

impl<T> Keyed<T> {
    /// Keys are distinct.
    pub closed spec fn wf(&self) -> bool {
        keys_distinct(self.entries@)
    }

    /// No entries.
    pub fn new() -> (r: Keyed<T>)
        ensures
            r@ == Map::<Seq<char>, T>::empty(),
            r.wf(),
    {
        Keyed { entries: Vec::new() }
    }

    fn find(&self, key: &String) -> (r: Option<usize>)
        requires
            self.wf(),
        ensures
            r matches Some(i) ==> i < self.entries@.len() && self.entries@[i as int].0@ == key@,
            r is None ==> !self@.contains_key(key@),
    {
        proof {
            lemma_keyed_map(self.entries@);
        }
        let mut i: usize = 0;
        while i < self.entries.len()
            invariant
                i <= self.entries@.len(),
                forall|j: int| 0 <= j < i ==> #[trigger] self.entries@[j].0@ != key@,
            decreases self.entries@.len() - i,
        {
            if self.entries[i].0 == *key {
                return Some(i);
            }
            i = i + 1;
        }
        None
    }

    /// Stores a value under a key, replacing the value stored there before.
    pub fn insert(&mut self, key: String, value: T)
        requires
            old(self).wf(),
        ensures
            final(self).wf(),
            final(self)@ == old(self)@.insert(key@, value),
    {
        match self.find(&key) {
            Some(i) => {
                let ghost e = (key, value);
                proof {
                    lemma_keyed_map_update(self.entries@, i as int, e);
                }
                self.entries.set(i, (key, value));
            },
            None => {
                proof {
                    lemma_keyed_map(self.entries@);
                }
                let ghost e = (key, value);
                self.entries.push((key, value));
                proof {
                    assert(self.entries@.drop_last() =~= old(self).entries@);
                    assert forall|a: int, b: int| 0 <= a < b < self.entries@.len() implies self.entries@[a].0@
                        != self.entries@[b].0@ by {
                        assert(old(self).entries@.len() == self.entries@.len() - 1);
                        assert(self.entries@[a] == old(self).entries@[a]);
                        if b < self.entries@.len() - 1 {
                            assert(self.entries@[b] == old(self).entries@[b]);
                        } else {
                            assert(self.entries@[b] == e);
                        }
                    }
                }
            },
        }
    }

    /// The value stored under a key.
    pub fn get(&self, key: &String) -> (r: Option<&T>)
        requires
            self.wf(),
        ensures
            r is None <==> !self@.contains_key(key@),
            r matches Some(v) ==> *v == self@[key@],
    {
        match self.find(key) {
            Some(i) => {
                proof {
                    lemma_keyed_map(self.entries@);
                    assert(keyed_map(self.entries@).contains_key(self.entries@[i as int].0@));
                }
                Some(&self.entries[i].1)
            },
            None => None,
        }
    }

    /// Removes every entry and hands them out, each key once, in no particular order.
    pub fn take_all(&mut self) -> (r: Vec<(String, T)>)
        requires
            old(self).wf(),
        ensures
            final(self)@ == Map::<Seq<char>, T>::empty(),
            final(self).wf(),
            forall|i: int| 0 <= i < r@.len() ==> #[trigger] old(self)@.contains_key(r@[i].0@) && old(self)@[r@[i].0@] == r@[i].1,
            forall|k: Seq<char>| #[trigger] old(self)@.contains_key(k) ==> exists|i: int| 0 <= i < r@.len() && r@[i].0@ == k,
            forall|i: int, j: int| 0 <= i < j < r@.len() ==> r@[i].0@ != r@[j].0@,
    {
        proof {
            lemma_keyed_map(self.entries@);
        }
        let mut taken = Vec::new();
        std::mem::swap(&mut taken, &mut self.entries);
        taken
    }

    /// The number of entries.
    pub fn len(&self) -> (r: usize)
        requires
            self.wf(),
        ensures
            r as nat == self@.dom().len(),
    {
        proof {
            self.lemma_len();
        }
        self.entries.len()
    }

    proof fn lemma_len(&self)
        requires
            self.wf(),
        ensures
            self@.dom().len() == self.entries@.len(),
            self@.dom().finite(),
    {
        lemma_keyed_len(self.entries@);
    }
}

proof fn lemma_keyed_len<T>(s: Seq<(String, T)>)
    requires
        keys_distinct(s),
    ensures
        keyed_map(s).dom().len() == s.len(),
        keyed_map(s).dom().finite(),
    decreases s.len(),
{
    if s.len() > 0 {
        let t = s.drop_last();
        assert forall|i: int, j: int| 0 <= i < j < t.len() implies t[i].0@ != t[j].0@ by {
            assert(t[i] == s[i] && t[j] == s[j]);
        }
        lemma_keyed_len(t);
        lemma_keyed_map(t);
        if keyed_map(t).contains_key(s.last().0@) {
            let i = choose|i: int| 0 <= i < t.len() && t[i].0@ == s.last().0@;
            assert(t[i] == s[i]);
        }
    }
}

impl<T: Copied> Keyed<T> {
    /// A copy of the entries.
    pub fn duplicate(&self) -> (r: Keyed<T>)
        requires
            self.wf(),
        ensures
            r@ == self@,
            r.wf(),
    {
        let mut entries: Vec<(String, T)> = Vec::new();
        let mut i: usize = 0;
        while i < self.entries.len()
            invariant
                i <= self.entries@.len(),
                entries@.len() == i,
                forall|j: int| 0 <= j < i ==> (#[trigger] entries@[j]).0@ == self.entries@[j].0@ && entries@[j].1
                    == self.entries@[j].1,
            decreases self.entries@.len() - i,
        {
            let e = &self.entries[i];
            entries.push((e.0.clone(), e.1.copied()));
            i = i + 1;
        }
        let r = Keyed { entries };
        proof {
            lemma_keyed_same(r.entries@, self.entries@);
        }
        r
    }

}

impl Keyed<u64> {
    /// The entries, each key once, in no particular order.
    pub fn entries(&self) -> (r: Vec<(String, u64)>)
        requires
            self.wf(),
        ensures
            forall|i: int| 0 <= i < r@.len() ==> #[trigger] self@.contains_key(r@[i].0@) && self@[r@[i].0@] == r@[i].1,
            forall|k: Seq<char>| #[trigger] self@.contains_key(k) ==> exists|i: int| 0 <= i < r@.len() && r@[i].0@ == k,
            forall|i: int, j: int| 0 <= i < j < r@.len() ==> r@[i].0@ != r@[j].0@,
    {
        let c = self.duplicate();
        proof {
            lemma_keyed_map(c.entries@);
        }
        c.entries
    }
}

proof fn lemma_keyed_same<T>(a: Seq<(String, T)>, b: Seq<(String, T)>)
    requires
        a.len() == b.len(),
        forall|j: int| 0 <= j < a.len() ==> (#[trigger] a[j]).0@ == b[j].0@ && a[j].1 == b[j].1,
    ensures
        keyed_map(a) == keyed_map(b),
        keys_distinct(b) ==> keys_distinct(a),
    decreases a.len(),
{
    if a.len() > 0 {
        lemma_keyed_same(a.drop_last(), b.drop_last());
        assert(a.last().0@ == b.last().0@);
    }
    if keys_distinct(b) {
        assert forall|i: int, j: int| 0 <= i < j < a.len() implies a[i].0@ != a[j].0@ by {
            assert(a[i].0@ == b[i].0@ && a[j].0@ == b[j].0@);
        }
    }
}

} // verus!
