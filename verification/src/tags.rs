//! The tag collection of a map element: string keys, each with one string value.
use vstd::prelude::*;

verus! {

/// Key/value pairs as character sequences.
pub type TagSeq = Seq<(Seq<char>, Seq<char>)>;

/// Position of the first pair whose key is `k`, or -1.
pub open spec fn key_index(s: TagSeq, k: Seq<char>) -> int
    decreases s.len(),
{
    if s.len() == 0 {
        -1
    } else if s.last().0 == k && key_index(s.drop_last(), k) < 0 {
        s.len() - 1
    } else {
        key_index(s.drop_last(), k)
    }
}

/// The map that a sequence of pairs stands for: each key with the value of its first pair.
pub open spec fn tag_map(s: TagSeq) -> Map<Seq<char>, Seq<char>> {
    Map::new(|k: Seq<char>| key_index(s, k) >= 0, |k: Seq<char>| s[key_index(s, k)].1)
}

proof fn lemma_key_index_bounds(s: TagSeq, k: Seq<char>)
    ensures
        -1 <= key_index(s, k) < s.len(),
        key_index(s, k) >= 0 ==> s[key_index(s, k)].0 == k,
        key_index(s, k) < 0 ==> forall|i: int| 0 <= i < s.len() ==> (#[trigger] s[i]).0 != k,
    decreases s.len(),
{
    if s.len() > 0 {
        lemma_key_index_bounds(s.drop_last(), k);
        if key_index(s.drop_last(), k) < 0 {
            assert forall|i: int| 0 <= i < s.len() - 1 implies (#[trigger] s[i]).0 != k by {
                assert(s[i] == s.drop_last()[i]);
            }
        } else {
            assert(s[key_index(s, k)] == s.drop_last()[key_index(s, k)]);
        }
    }
}

/// `key_index` reads only the keys.
proof fn lemma_key_index_same_keys(s: TagSeq, t: TagSeq, k: Seq<char>)
    requires
        s.len() == t.len(),
        forall|i: int| 0 <= i < s.len() ==> (#[trigger] s[i]).0 == t[i].0,
    ensures
        key_index(s, k) == key_index(t, k),
    decreases s.len(),
{
    if s.len() > 0 {
        assert(s.last().0 == t.last().0);
        assert forall|i: int| 0 <= i < s.drop_last().len() implies (
        #[trigger] s.drop_last()[i]).0 == t.drop_last()[i].0 by {
            assert(s[i].0 == t[i].0);
        }
        lemma_key_index_same_keys(s.drop_last(), t.drop_last(), k);
    }
}

proof fn lemma_key_index_push(s: TagSeq, e: (Seq<char>, Seq<char>), k: Seq<char>)
    ensures
        key_index(s.push(e), k) == (if key_index(s, k) >= 0 {
            key_index(s, k)
        } else if e.0 == k {
            s.len() as int
        } else {
            -1
        }),
{
    assert(s.push(e).drop_last() =~= s);
    lemma_key_index_bounds(s, k);
}

/// Whether no key occurs twice.
pub open spec fn keys_unique(s: TagSeq) -> bool {
    forall|i: int, j: int| 0 <= i < j < s.len() ==> (#[trigger] s[i]).0 != (#[trigger] s[j]).0
}

/// Pairs of strings as pairs of character sequences.
pub open spec fn pairs_of(v: Seq<(String, String)>) -> TagSeq {
    Seq::new(v.len(), |i: int| (v[i].0@, v[i].1@))
}

/// The tags of one element: each key with one value. No key occurs twice.
pub struct Tags {
    entries: Vec<(String, String)>,
}

impl Tags {
    /// The pairs as character sequences.
    pub closed spec fn pairs(&self) -> TagSeq {
        pairs_of(self.entries@)
    }

    #[verifier::type_invariant]
    spec fn well_formed(self) -> bool {
        keys_unique(pairs_of(self.entries@))
    }
}

impl View for Tags {
    type V = Map<Seq<char>, Seq<char>>;

    closed spec fn view(&self) -> Map<Seq<char>, Seq<char>> {
        tag_map(self.pairs())
    }
}

impl Tags {
    /// An empty tag collection.
    pub fn new() -> (res: Tags)
        ensures
            res@ == Map::<Seq<char>, Seq<char>>::empty(),
    {
        let res = Tags { entries: Vec::new() };
        assert(res@ =~= Map::<Seq<char>, Seq<char>>::empty());
        res
    }

    /// Position of the pair with key `key`, if there is one.
    fn find(&self, key: &str) -> (res: Option<usize>)
        ensures
            match res {
                Some(i) => i == key_index(self.pairs(), key@),
                None => key_index(self.pairs(), key@) < 0,
            },
    {
        let k: String = key.to_owned();
        let mut i: usize = 0;
        while i < self.entries.len()
            invariant
                k@ == key@,
                i <= self.entries.len(),
                forall|j: int| 0 <= j < i ==> (#[trigger] self.pairs()[j]).0 != key@,
            decreases self.entries.len() - i,
        {
            if self.entries[i].0 == k {
                proof {
                    lemma_first_match(self.pairs(), key@, i as int);
                }
                return Some(i);
            }
            i = i + 1;
        }
        proof {
            let s = self.pairs();
            lemma_key_index_bounds(s, key@);
            if key_index(s, key@) >= 0 {
                assert(s[key_index(s, key@)].0 == key@);
            }
        }
        None
    }

    /// The value of `key`, if the key is present.
    pub fn get(&self, key: &str) -> (res: Option<&String>)
        ensures
            match res {
                Some(v) => self@.contains_key(key@) && self@[key@] == v@,
                None => !self@.contains_key(key@),
            },
    {
        match self.find(key) {
            Some(i) => {
                proof {
                    lemma_key_index_bounds(self.pairs(), key@);
                }
                Some(&self.entries[i].1)
            },
            None => None,
        }
    }

    /// Sets the value of `key`, replacing the one it had.
    pub fn insert(&mut self, key: String, value: String)
        ensures
            final(self)@ == old(self)@.insert(key@, value@),
    {
        proof {
            use_type_invariant(&*self);
        }
        let ghost before = self.pairs();
        let ghost k = key@;
        let ghost v = value@;
        let found = self.find(key.as_str());
        proof {
            lemma_key_index_bounds(before, k);
        }
        let mut entries: Vec<(String, String)> = Vec::new();
        std::mem::swap(&mut entries, &mut self.entries);
        assert(pairs_of(entries@) == before);
        match found {
            Some(i) => {
                entries.set(i, (key, value));
                proof {
                    let after = pairs_of(entries@);
                    assert(after =~= before.update(i as int, (k, v)));
                    assert forall|j: int| 0 <= j < before.len() implies (#[trigger] before[j]).0
                        == after[j].0 by {}
                    assert forall|q: Seq<char>| #[trigger] key_index(before, q) == key_index(
                        after,
                        q,
                    ) by {
                        lemma_key_index_same_keys(before, after, q);
                    }
                    assert forall|q: Seq<char>| #[trigger] tag_map(after).contains_key(q) && q != k implies
                        tag_map(after)[q] == tag_map(before)[q] by {
                        lemma_key_index_bounds(before, q);
                    }
                    assert(tag_map(after) =~= tag_map(before).insert(k, v));
                    assert(keys_unique(after)) by {
                        assert forall|a: int, b: int| 0 <= a < b < after.len() implies (
                        #[trigger] after[a]).0 != (#[trigger] after[b]).0 by {
                            assert(before[a].0 != before[b].0);
                        }
                    }
                }
            },
            None => {
                entries.push((key, value));
                proof {
                    let after = pairs_of(entries@);
                    assert(after =~= before.push((k, v)));
                    assert forall|q: Seq<char>| #[trigger] tag_map(after).contains_key(q)
                        == tag_map(before).insert(k, v).contains_key(q) && (tag_map(
                        after,
                    ).contains_key(q) ==> tag_map(after)[q] == tag_map(before).insert(k, v)[q]) by {
                        lemma_key_index_bounds(before, q);
                        lemma_key_index_push(before, (k, v), q);
                        if key_index(before, q) >= 0 {
                            assert(after[key_index(before, q)] == before[key_index(before, q)]);
                        }
                    }
                    assert(tag_map(after) =~= tag_map(before).insert(k, v));
                    assert(keys_unique(after)) by {
                        assert forall|a: int, b: int| 0 <= a < b < after.len() implies (
                        #[trigger] after[a]).0 != (#[trigger] after[b]).0 by {
                            if b < before.len() {
                                assert(before[a].0 != before[b].0);
                            } else {
                                assert(before[a].0 != k);
                            }
                        }
                    }
                }
            },
        }
        self.entries = entries;
    }
}

/// The first position whose key is `k`, when all earlier ones differ, is `key_index`.
proof fn lemma_first_match(s: TagSeq, k: Seq<char>, i: int)
    requires
        0 <= i < s.len(),
        s[i].0 == k,
        forall|j: int| 0 <= j < i ==> (#[trigger] s[j]).0 != k,
    ensures
        key_index(s, k) == i,
    decreases s.len(),
{
    if i < s.len() - 1 {
        let t = s.drop_last();
        assert forall|j: int| 0 <= j < i implies (#[trigger] t[j]).0 != k by {
            assert(t[j] == s[j]);
        }
        assert(t[i] == s[i]);
        lemma_first_match(t, k, i);
    } else {
        let t = s.drop_last();
        lemma_key_index_bounds(t, k);
        if key_index(t, k) >= 0 {
            assert(t[key_index(t, k)] == s[key_index(t, k)]);
        }
    }
}

} // verus!
