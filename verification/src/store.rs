use vstd::prelude::*;

verus! {

/// The mapping described by a sequence of key/value pairs, where a later
/// pair for the same key overwrites an earlier one.
pub open spec fn map_of_pairs(s: Seq<(String, String)>) -> Map<Seq<char>, Seq<char>>
    decreases s.len(),
{
    if s.len() == 0 {
        Map::empty()
    } else {
        map_of_pairs(s.drop_last()).insert(s.last().0@, s.last().1@)
    }
}

/// No two pairs of the sequence share a key.
pub open spec fn unique_keys(s: Seq<(String, String)>) -> bool {
    forall|i: int, j: int| 0 <= i < j < s.len() ==> s[i].0@ != s[j].0@
}

/// The value that a backwards scan of the pairs finds for `k`.
spec fn lookup_of_pairs(s: Seq<(String, String)>, k: Seq<char>) -> Option<Seq<char>>
    decreases s.len(),
{
    if s.len() == 0 {
        None
    } else if s.last().0@ == k {
        Some(s.last().1@)
    } else {
        lookup_of_pairs(s.drop_last(), k)
    }
}

/// A scan finds exactly the entries of the mapping, with their values.
proof fn lemma_lookup_agrees(s: Seq<(String, String)>, k: Seq<char>)
    ensures
        map_of_pairs(s).contains_key(k) <==> lookup_of_pairs(s, k) is Some,
        lookup_of_pairs(s, k) is Some ==> map_of_pairs(s)[k] == lookup_of_pairs(s, k)->Some_0,
    decreases s.len(),
{
    if s.len() > 0 {
        lemma_lookup_agrees(s.drop_last(), k);
    }
}

/// If no pair carries `k`, a scan finds nothing.
proof fn lemma_lookup_absent(s: Seq<(String, String)>, k: Seq<char>)
    requires
        forall|j: int| 0 <= j < s.len() ==> s[j].0@ != k,
    ensures
        lookup_of_pairs(s, k) is None,
    decreases s.len(),
{
    if s.len() > 0 {
        lemma_lookup_absent(s.drop_last(), k);
    }
}

/// With unique keys, the pair at `i` is the one a scan for its key finds.
proof fn lemma_lookup_found(s: Seq<(String, String)>, i: int)
    requires
        unique_keys(s),
        0 <= i < s.len(),
    ensures
        lookup_of_pairs(s, s[i].0@) == Some(s[i].1@),
    decreases s.len(),
{
    if i == s.len() - 1 {
    } else {
        assert(s.drop_last()[i] == s[i]);
        lemma_lookup_found(s.drop_last(), i);
    }
}

/// Removing the pair at `i` does not change what a scan finds for any
/// other key.
proof fn lemma_lookup_remove(s: Seq<(String, String)>, i: int, k: Seq<char>)
    requires
        0 <= i < s.len(),
        s[i].0@ != k,
    ensures
        lookup_of_pairs(s.remove(i), k) == lookup_of_pairs(s, k),
    decreases s.len(),
{
    if i == s.len() - 1 {
        assert(s.remove(i) =~= s.drop_last());
    } else {
        let r = s.remove(i);
        assert(r.last() == s.last());
        if s.last().0@ == k {
        } else {
            assert(r.drop_last() =~= s.drop_last().remove(i));
            lemma_lookup_remove(s.drop_last(), i, k);
        }
    }
}

/// Finds the value paired with `key` in a list of pairs with unique keys.
pub fn lookup<'a>(pairs: &'a Vec<(String, String)>, key: &String) -> (r: Option<&'a String>)
    requires
        unique_keys(pairs@),
    ensures
        match r {
            Some(v) => map_of_pairs(pairs@).contains_key(key@) && v@ == map_of_pairs(pairs@)[key@],
            None => !map_of_pairs(pairs@).contains_key(key@),
        },
{
    let mut i: usize = 0;
    while i < pairs.len()
        invariant
            unique_keys(pairs@),
            i <= pairs.len(),
            forall|j: int| 0 <= j < i ==> pairs@[j].0@ != key@,
        decreases pairs.len() - i,
    {
        if pairs[i].0 == *key {
            proof {
                lemma_lookup_found(pairs@, i as int);
                lemma_lookup_agrees(pairs@, key@);
            }
            return Some(&pairs[i].1);
        }
        i += 1;
    }
    proof {
        lemma_lookup_absent(pairs@, key@);
        lemma_lookup_agrees(pairs@, key@);
    }
    None
}

/// A shared in-memory table from string keys to string values.
///
/// The table is the single piece of state the whole system mutates; its
/// only write operation is `put`, which inserts or overwrites one entry
/// and never fails.
pub struct Store {
    entries: Vec<(String, String)>,
}

impl View for Store {
    type V = Map<Seq<char>, Seq<char>>;

    closed spec fn view(&self) -> Map<Seq<char>, Seq<char>> {
        map_of_pairs(self.entries@)
    }
}

impl Store {
    /// Each key appears in at most one entry.
    pub closed spec fn wf(&self) -> bool {
        unique_keys(self.entries@)
    }

    /// An empty table.
    pub fn new() -> (s: Store)
        ensures
            s.wf(),
            s@ == Map::<Seq<char>, Seq<char>>::empty(),
    {
        Store { entries: Vec::new() }
    }

    /// Inserts `value` under `key`, overwriting any earlier value.
    pub fn put(&mut self, key: String, value: String)
        requires
            old(self).wf(),
        ensures
            final(self).wf(),
            final(self)@ == old(self)@.insert(key@, value@),
    {
        let ghost s0 = self.entries@;
        let mut i: usize = 0;
        while i < self.entries.len()
            invariant
                i <= self.entries.len(),
                self.entries@ == s0,
                s0 == old(self).entries@,
                unique_keys(s0),
                forall|j: int| 0 <= j < i ==> s0[j].0@ != key@,
            decreases self.entries.len() - i,
        {
            if self.entries[i].0 == key {
                let ghost idx = i as int;
                self.entries.remove(i);
                self.entries.push((key, value));
                proof {
                    let s1 = s0.remove(idx);
                    s0.remove_ensures(idx);
                    assert(s0[idx].0@ == key@);
                    assert forall|j: int| 0 <= j < s1.len() implies s1[j].0@ != key@ by {
                        if j < idx {
                            assert(s1[j] == s0[j]);
                        } else {
                            assert(s1[j] == s0[j + 1]);
                            assert(s0[idx].0@ != s0[j + 1].0@);
                        }
                    }
                    assert forall|a: int, b: int| 0 <= a < b < s1.len() implies s1[a].0@
                        != s1[b].0@ by {
                        let a0: int = if a < idx {
                            a
                        } else {
                            a + 1
                        };
                        let b0: int = if b < idx {
                            b
                        } else {
                            b + 1
                        };
                        assert(s1[a] == s0[a0]);
                        assert(s1[b] == s0[b0]);
                        assert(s0[a0].0@ != s0[b0].0@);
                    }
                    assert(unique_keys(s1));
                    assert(self.entries@ =~= s1.push((key, value)));
                    assert(self.entries@.drop_last() =~= s1);
                    assert(self.entries@.last() == (key, value));
                    assert forall|a: int, b: int|
                        0 <= a < b < self.entries@.len() implies self.entries@[a].0@
                        != self.entries@[b].0@ by {
                        if b < s1.len() {
                            assert(self.entries@[a] == s1[a]);
                            assert(self.entries@[b] == s1[b]);
                        } else {
                            assert(self.entries@[a] == s1[a]);
                            assert(self.entries@[b] == (key, value));
                        }
                    }
                    assert(unique_keys(self.entries@));
                    assert(map_of_pairs(self.entries@) == map_of_pairs(s1).insert(
                        key@,
                        value@,
                    ));
                    let m1 = map_of_pairs(s1).insert(key@, value@);
                    let m0 = map_of_pairs(s0).insert(key@, value@);
                    assert forall|k: Seq<char>|
                        #![trigger m1.dom().contains(k)]
                        #![trigger m0.dom().contains(k)]
                        m1.dom().contains(k) == m0.dom().contains(k) && (m1.dom().contains(k)
                        ==> m1[k] == m0[k]) by {
                        if k != key@ {
                            lemma_lookup_remove(s0, idx, k);
                            lemma_lookup_agrees(s0, k);
                            lemma_lookup_agrees(s1, k);
                        }
                    }
                    assert(m1.dom() =~= m0.dom());
                    assert(m1 =~= m0);
                    assert(map_of_pairs(self.entries@) =~= m0);
                }
                return;
            }
            i += 1;
        }
        self.entries.push((key, value));
        proof {
            assert(self.entries@.drop_last() =~= s0);
            assert(unique_keys(self.entries@)) by {
                assert(forall|j: int| 0 <= j < s0.len() ==> s0[j].0@ != key@);
            }
        }
    }

    /// Reads the value stored under `key`, if any.
    pub fn get(&self, key: &String) -> (r: Option<&String>)
        requires
            self.wf(),
        ensures
            match r {
                Some(v) => self@.contains_key(key@) && v@ == self@[key@],
                None => !self@.contains_key(key@),
            },
    {
        lookup(&self.entries, key)
    }
}

} // verus!
