use vstd::prelude::*;

verus! {

/// The value stored under `k` in a list of pairs: that of the last pair with key `k`.
pub open spec fn lookup(s: Seq<(Seq<char>, Seq<char>)>, k: Seq<char>) -> Option<Seq<char>>
    decreases s.len(),
{
    if s.len() == 0 {
        None
    } else if s.last().0 == k {
        Some(s.last().1)
    } else {
        lookup(s.drop_last(), k)
    }
}

/// The mapping that a list of pairs describes.
pub open spec fn pairs_to_map(s: Seq<(Seq<char>, Seq<char>)>) -> Map<Seq<char>, Seq<char>> {
    Map::new(|k: Seq<char>| lookup(s, k) is Some, |k: Seq<char>| lookup(s, k)->0)
}

/// No two pairs share a key.
pub open spec fn distinct_keys(s: Seq<(Seq<char>, Seq<char>)>) -> bool {
    forall|i: int, j: int| 0 <= i < j < s.len() ==> s[i].0 != s[j].0
}

/// The views of a list of string pairs.
pub open spec fn view_pairs(v: Seq<(String, String)>) -> Seq<(Seq<char>, Seq<char>)> {
    v.map_values(|p: (String, String)| (p.0@, p.1@))
}

proof fn lemma_lookup(s: Seq<(Seq<char>, Seq<char>)>, k: Seq<char>)
    requires
        distinct_keys(s),
    ensures
        forall|i: int| 0 <= i < s.len() && s[i].0 == k ==> lookup(s, k) == Some(s[i].1),
        (forall|i: int| 0 <= i < s.len() ==> s[i].0 != k) ==> lookup(s, k) is None,
    decreases s.len(),
{
    if s.len() > 0 {
        let t = s.drop_last();
        assert(distinct_keys(t));
        lemma_lookup(t, k);
        assert forall|i: int| 0 <= i < s.len() && s[i].0 == k implies lookup(s, k) == Some(
            s[i].1,
        ) by {
            if i < s.len() - 1 {
                assert(t[i] == s[i]);
            }
        }
        if forall|i: int| 0 <= i < s.len() ==> s[i].0 != k {
            assert(s[s.len() - 1].0 != k);
            assert forall|i: int| 0 <= i < t.len() implies t[i].0 != k by {
                assert(t[i] == s[i]);
            }
        }
    }
}

/// A mapping from string keys to string values that keeps its keys in the
/// order of their first insertion.
pub struct KeyValues {
    entries: Vec<(String, String)>,
}

impl View for KeyValues {
    type V = Map<Seq<char>, Seq<char>>;

    open spec fn view(&self) -> Map<Seq<char>, Seq<char>> {
        pairs_to_map(self.pairs())
    }
}

impl KeyValues {
    /// The entries as views, in order.
    pub closed spec fn pairs(&self) -> Seq<(Seq<char>, Seq<char>)> {
        view_pairs(self.entries@)
    }

    #[verifier::type_invariant]
    spec fn keys_unique(&self) -> bool {
        distinct_keys(self.pairs())
    }

    /// An empty mapping.
    pub fn new() -> (r: KeyValues)
        ensures
            r@ == Map::<Seq<char>, Seq<char>>::empty(),
            r.pairs().len() == 0,
    {
        let r = KeyValues { entries: Vec::new() };
        assert(r@ =~= Map::<Seq<char>, Seq<char>>::empty());
        r
    }

    /// The entries in insertion order.
    pub fn entries(&self) -> (r: &Vec<(String, String)>)
        ensures
            view_pairs(r@) == self.pairs(),
            distinct_keys(self.pairs()),
            pairs_to_map(view_pairs(r@)) == self@,
    {
        proof {
            use_type_invariant(self);
        }
        &self.entries
    }

    fn position(&self, key: &String) -> (r: Option<usize>)
        ensures
            match r {
                Some(i) => i < self.pairs().len() && self.pairs()[i as int].0 == key@,
                None => forall|i: int| 0 <= i < self.pairs().len() ==> self.pairs()[i].0 != key@,
            },
    {
        let mut i: usize = 0;
        while i < self.entries.len()
            invariant
                i <= self.entries.len(),
                forall|j: int| 0 <= j < i ==> self.pairs()[j].0 != key@,
            decreases self.entries.len() - i,
        {
            if self.entries[i].0 == *key {
                return Some(i);
            }
            i = i + 1;
        }
        None
    }

    /// The value stored under `key`.
    pub fn get(&self, key: &String) -> (r: Option<&String>)
        ensures
            r is Some <==> self@.contains_key(key@),
            r is Some ==> r->0@ == self@[key@],
    {
        proof {
            use_type_invariant(self);
            lemma_lookup(self.pairs(), key@);
        }
        match self.position(key) {
            Some(i) => Some(&self.entries[i].1),
            None => None,
        }
    }

    /// Stores `value` under `key`, replacing what was there; a new key goes last.
    pub fn insert(&mut self, key: String, value: String)
        ensures
            final(self)@ == old(self)@.insert(key@, value@),
    {
        proof {
            use_type_invariant(&*self);
        }
        let ghost s = self.pairs();
        let ghost k = key@;
        let ghost v = value@;
        let pos = self.position(&key);
        let mut entries: Vec<(String, String)> = Vec::new();
        std::mem::swap(&mut self.entries, &mut entries);
        match pos {
            Some(i) => {
                entries.set(i, (key, value));
                let ghost t = view_pairs(entries@);
                assert(t =~= s.update(i as int, (k, v)));
                assert(distinct_keys(t));
                assert forall|q: Seq<char>| #![trigger lookup(t, q)] lookup(t, q) == (if q == k {
                    Some(v)
                } else {
                    lookup(s, q)
                }) by {
                    lemma_lookup(s, q);
                    lemma_lookup(t, q);
                    assert(t[i as int] == (k, v));
                    if q != k {
                        if exists|j: int| 0 <= j < s.len() && s[j].0 == q {
                            let j = choose|j: int| 0 <= j < s.len() && s[j].0 == q;
                            assert(t[j] == s[j]);
                        } else {
                            assert forall|j: int| 0 <= j < t.len() implies t[j].0 != q by {
                                if j != i {
                                    assert(t[j] == s[j]);
                                }
                            }
                        }
                    }
                }
            },
            None => {
                entries.push((key, value));
                let ghost t = view_pairs(entries@);
                assert(t =~= s.push((k, v)));
                assert forall|a: int, b: int| 0 <= a < b < t.len() implies t[a].0 != t[b].0 by {
                    if b == s.len() {
                        assert(t[a] == s[a]);
                    }
                }
                assert(t.drop_last() =~= s);
                assert forall|q: Seq<char>| #![trigger lookup(t, q)] lookup(t, q) == (if q == k {
                    Some(v)
                } else {
                    lookup(s, q)
                }) by {}
            },
        }
        std::mem::swap(&mut self.entries, &mut entries);
        assert(self@ =~= old(self)@.insert(k, v));
    }
    /// Takes out the value stored under `key`.
    pub fn remove(&mut self, key: &String) -> (r: Option<String>)
        ensures
            final(self)@ == old(self)@.remove(key@),
            r is Some <==> old(self)@.contains_key(key@),
            r is Some ==> r->0@ == old(self)@[key@],
    {
        proof {
            use_type_invariant(&*self);
            lemma_lookup(self.pairs(), key@);
        }
        let ghost s = self.pairs();
        let ghost k = key@;
        match self.position(key) {
            None => {
                assert(self@ =~= old(self)@.remove(k));
                None
            },
            Some(i) => {
                let mut entries: Vec<(String, String)> = Vec::new();
                std::mem::swap(&mut self.entries, &mut entries);
                let (_, value) = entries.remove(i);
                let ghost t = view_pairs(entries@);
                assert(t =~= s.remove(i as int));
                assert(distinct_keys(t));
                assert forall|q: Seq<char>| #![trigger lookup(t, q)] lookup(t, q) == (if q == k {
                    None
                } else {
                    lookup(s, q)
                }) by {
                    lemma_lookup(s, q);
                    lemma_lookup(t, q);
                    if q != k {
                        if exists|j: int| 0 <= j < s.len() && s[j].0 == q {
                            let j = choose|j: int| 0 <= j < s.len() && s[j].0 == q;
                            if j < i {
                                assert(t[j] == s[j]);
                            } else {
                                assert(t[j - 1] == s[j]);
                            }
                        }
                    }
                }
                std::mem::swap(&mut self.entries, &mut entries);
                assert(self@ =~= old(self)@.remove(k));
                Some(value)
            },
        }
    }
}

} // verus!
