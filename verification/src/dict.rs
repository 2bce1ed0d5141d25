//! An ordered key/value map held as a vector of entries sorted strictly by
//! the key order, abstracted as a `Map<Key, (i32, Seq<char>)>`.

use crate::key::{key_lt, Key};
use crate::record::Value;
use vstd::prelude::*;

verus! {

/// The map that a sequence of entries denotes: later entries win, though in a
/// well-formed dictionary keys are distinct.
pub open spec fn seq_to_map(s: Seq<(Key, Value)>) -> Map<Key, (i32, Seq<char>)>
    decreases s.len(),
{
    if s.len() == 0 {
        Map::empty()
    } else {
        seq_to_map(s.drop_last()).insert(s.last().0, s.last().1@)
    }
}

/// All keys of an entry sequence are distinct.
pub open spec fn distinct_keys(s: Seq<(Key, Value)>) -> bool {
    forall|i: int, j: int|
        0 <= i < j < s.len() ==> (#[trigger] s[i]).0 != (#[trigger] s[j]).0
}

/// A key occurs in the denoted map exactly when some entry holds it.
pub proof fn lemma_seq_to_map_contains(s: Seq<(Key, Value)>, k: Key)
    ensures
        seq_to_map(s).contains_key(k) <==> exists|i: int| 0 <= i < s.len() && (#[trigger] s[i]).0
            == k,
    decreases s.len(),
{
    if s.len() > 0 {
        lemma_seq_to_map_contains(s.drop_last(), k);
        if s.last().0 == k {
            assert(s[s.len() - 1].0 == k);
        } else {
            assert(seq_to_map(s).contains_key(k) <==> seq_to_map(s.drop_last()).contains_key(k));
            if exists|i: int| 0 <= i < s.len() && (#[trigger] s[i]).0 == k {
                let i = choose|i: int| 0 <= i < s.len() && (#[trigger] s[i]).0 == k;
                assert(s.drop_last()[i] == s[i]);
            }
            if exists|i: int| 0 <= i < s.drop_last().len() && (#[trigger] s.drop_last()[i]).0
                == k {
                let i = choose|i: int|
                    0 <= i < s.drop_last().len() && (#[trigger] s.drop_last()[i]).0 == k;
                assert(s[i].0 == k);
            }
        }
    }
}

/// With distinct keys, the denoted map sends each entry's key to its value.
pub proof fn lemma_seq_to_map_value(s: Seq<(Key, Value)>, i: int)
    requires
        distinct_keys(s),
        0 <= i < s.len(),
    ensures
        seq_to_map(s).contains_key(s[i].0),
        seq_to_map(s)[s[i].0] == s[i].1@,
    decreases s.len(),
{
    lemma_seq_to_map_contains(s, s[i].0);
    if i == s.len() - 1 {
    } else {
        assert(s.drop_last()[i] == s[i]);
        lemma_seq_to_map_value(s.drop_last(), i);
        assert(s.last().0 != s[i].0);
    }
}

/// Inserting an entry with a fresh key inserts its binding into the map.
pub proof fn lemma_seq_to_map_insert(s: Seq<(Key, Value)>, i: int, kv: (Key, Value))
    requires
        0 <= i <= s.len(),
        forall|j: int| 0 <= j < s.len() ==> (#[trigger] s[j]).0 != kv.0,
    ensures
        seq_to_map(s.insert(i, kv)) == seq_to_map(s).insert(kv.0, kv.1@),
    decreases s.len(),
{
    let t = s.insert(i, kv);
    if i == s.len() {
        assert(t.drop_last() =~= s);
        assert(t.last() == kv);
    } else {
        assert(t.last() == s.last());
        assert(t.drop_last() =~= s.drop_last().insert(i, kv));
        assert(forall|j: int|
            0 <= j < s.drop_last().len() ==> (#[trigger] s.drop_last()[j]).0 != kv.0) by {
            assert(forall|j: int| 0 <= j < s.len() - 1 ==> s.drop_last()[j] == s[j]);
        }
        lemma_seq_to_map_insert(s.drop_last(), i, kv);
        assert(s.last().0 != kv.0);
        assert(seq_to_map(s.drop_last()).insert(kv.0, kv.1@).insert(s.last().0, s.last().1@)
            =~= seq_to_map(s.drop_last()).insert(s.last().0, s.last().1@).insert(kv.0, kv.1@));
    }
}

/// With distinct keys, removing the entry at `i` removes its key's binding.
pub proof fn lemma_seq_to_map_remove(s: Seq<(Key, Value)>, i: int)
    requires
        distinct_keys(s),
        0 <= i < s.len(),
    ensures
        seq_to_map(s.remove(i)) == seq_to_map(s).remove(s[i].0),
    decreases s.len(),
{
    let t = s.remove(i);
    if i == s.len() - 1 {
        assert(t =~= s.drop_last());
        lemma_seq_to_map_contains(s.drop_last(), s[i].0);
        assert(forall|j: int| 0 <= j < s.len() - 1 ==> s.drop_last()[j] == s[j]);
        assert(!seq_to_map(s.drop_last()).contains_key(s[i].0));
        assert(seq_to_map(s.drop_last()).insert(s.last().0, s.last().1@).remove(s.last().0)
            =~= seq_to_map(s.drop_last()));
    } else {
        assert(t.last() == s.last());
        assert(t.drop_last() =~= s.drop_last().remove(i));
        assert(forall|j: int| 0 <= j < s.len() - 1 ==> s.drop_last()[j] == s[j]);
        lemma_seq_to_map_remove(s.drop_last(), i);
        assert(s.last().0 != s[i].0);
        assert(seq_to_map(s.drop_last()).remove(s[i].0).insert(s.last().0, s.last().1@)
            =~= seq_to_map(s.drop_last()).insert(s.last().0, s.last().1@).remove(s[i].0));
    }
}

/// With distinct keys, the denoted map has one binding per entry.
pub proof fn lemma_seq_to_map_len(s: Seq<(Key, Value)>)
    requires
        distinct_keys(s),
    ensures
        seq_to_map(s).dom().finite(),
        seq_to_map(s).dom().len() == s.len(),
    decreases s.len(),
{
    if s.len() > 0 {
        assert(forall|j: int| 0 <= j < s.len() - 1 ==> s.drop_last()[j] == s[j]);
        lemma_seq_to_map_len(s.drop_last());
        lemma_seq_to_map_contains(s.drop_last(), s.last().0);
        assert(!seq_to_map(s.drop_last()).contains_key(s.last().0));
    }
}

/// One partition's private ordered key/value map.
#[derive(Debug)]
pub struct Dict {
    entries: Vec<(Key, Value)>,
}

impl View for Dict {
    type V = Map<Key, (i32, Seq<char>)>;

    closed spec fn view(&self) -> Map<Key, (i32, Seq<char>)> {
        seq_to_map(self.entries@)
    }
}

impl Dict {
    /// The entries in iteration order.
    pub closed spec fn entries_seq(&self) -> Seq<(Key, Value)> {
        self.entries@
    }

    /// Well-formed: entries are strictly increasing by (upper, lower, tail).
    pub open spec fn wf(&self) -> bool {
        forall|i: int, j: int|
            0 <= i < j < self.entries_seq().len() ==> key_lt(
                (#[trigger] self.entries_seq()[i]).0,
                (#[trigger] self.entries_seq()[j]).0,
            )
    }

    proof fn lemma_wf_distinct(&self)
        requires
            self.wf(),
        ensures
            distinct_keys(self.entries@),
    {
        assert forall|i: int, j: int|
            0 <= i < j < self.entries@.len() implies (#[trigger] self.entries@[i]).0
            != (#[trigger] self.entries@[j]).0 by {
            assert(key_lt((self.entries_seq()[i]).0, (self.entries_seq()[j]).0));
        }
    }

    /// An empty dictionary.
    pub fn new() -> (d: Dict)
        ensures
            d.wf(),
            d@ == Map::<Key, (i32, Seq<char>)>::empty(),
            d.entries_seq() == Seq::<(Key, Value)>::empty(),
    {
        Dict { entries: Vec::new() }
    }

    /// The number of entries, which equals the number of keys in the map.
    pub fn len(&self) -> (n: usize)
        requires
            self.wf(),
        ensures
            n == self.entries_seq().len(),
            n == self@.dom().len(),
    {
        proof {
            self.lemma_wf_distinct();
            lemma_seq_to_map_len(self.entries@);
        }
        self.entries.len()
    }

    /// The entries in iteration order: strictly increasing by key, one per
    /// binding of the map, each bound to its value.
    pub fn entries(&self) -> (r: &Vec<(Key, Value)>)
        ensures
            r@ == self.entries_seq(),
    {
        &self.entries
    }

    /// Inserts a binding, replacing any previous binding of the same key.
    pub fn insert(&mut self, key: Key, value: Value)
        requires
            old(self).wf(),
        ensures
            final(self).wf(),
            final(self)@ == old(self)@.insert(key, value@),
    {
        let n = self.entries.len();
        let mut i: usize = 0;
        while i < n && self.entries[i].0.lt(&key)
            invariant
                i <= n,
                n == self.entries@.len(),
                old(self).wf(),
                forall|j: int| 0 <= j < i ==> key_lt((#[trigger] self.entries@[j]).0, key),
                *self == *old(self),
            decreases n - i,
        {
            i = i + 1;
        }
        proof {
            self.lemma_wf_distinct();
        }
        let ghost s0 = self.entries@;
        if i < n && self.entries[i].0 == key {
            let _ = self.entries.remove(i);
            proof {
                lemma_seq_to_map_remove(s0, i as int);
                let s1 = s0.remove(i as int);
                assert forall|j: int| 0 <= j < s1.len() implies (#[trigger] s1[j]).0 != key by {
                    if j < i {
                        assert(s1[j] == s0[j]);
                        assert(s0[j].0 != s0[i as int].0);
                    } else {
                        assert(s1[j] == s0[j + 1]);
                        assert(s0[j + 1].0 != s0[i as int].0);
                    }
                }
                lemma_seq_to_map_insert(s1, i as int, (key, value));
            }
            self.entries.insert(i, (key, value));
            proof {
                assert(old(self)@.remove(key).insert(key, value@) =~= old(self)@.insert(
                    key,
                    value@,
                ));
                let t = self.entries@;
                assert(t =~= s0.update(i as int, (key, value)));
                assert forall|a: int, b: int|
                    0 <= a < b < t.len() implies key_lt((#[trigger] t[a]).0, (#[trigger] t[b]).0) by {
                    assert(key_lt(
                        (old(self).entries_seq()[a]).0,
                        (old(self).entries_seq()[b]).0,
                    ));
                }
            }
        } else {
            proof {
                assert forall|j: int| 0 <= j < s0.len() implies (#[trigger] s0[j]).0 != key by {
                    if j < i {
                        assert(key_lt(s0[j].0, key));
                    } else if j > i {
                        assert(key_lt(
                            (old(self).entries_seq()[i as int]).0,
                            (old(self).entries_seq()[j]).0,
                        ));
                    }
                }
                lemma_seq_to_map_contains(s0, key);
                lemma_seq_to_map_insert(s0, i as int, (key, value));
            }
            self.entries.insert(i, (key, value));
            proof {
                let t = self.entries@;
                assert(forall|j: int|
                    0 <= j < t.len() ==> #[trigger] t[j] == (if j < i {
                        s0[j]
                    } else if j == i {
                        (key, value)
                    } else {
                        s0[j - 1]
                    }));
                assert forall|a: int, b: int|
                    0 <= a < b < t.len() implies key_lt((#[trigger] t[a]).0, (#[trigger] t[b]).0) by {
                    if a < i && b < i {
                        assert(key_lt(
                            (old(self).entries_seq()[a]).0,
                            (old(self).entries_seq()[b]).0,
                        ));
                    } else if a < i && b == i {
                        assert(key_lt(s0[a].0, key));
                    } else if a < i && b > i {
                        if a < b - 1 {
                            assert(key_lt(
                                (old(self).entries_seq()[a]).0,
                                (old(self).entries_seq()[b - 1]).0,
                            ));
                        }
                    } else if a == i {
                        assert(key_lt(key, s0[i as int].0));
                        if b - 1 > i {
                            assert(key_lt(
                                (old(self).entries_seq()[i as int]).0,
                                (old(self).entries_seq()[b - 1]).0,
                            ));
                        }
                    } else {
                        assert(key_lt(
                            (old(self).entries_seq()[a - 1]).0,
                            (old(self).entries_seq()[b - 1]).0,
                        ));
                    }
                }
            }
        }
    }

    /// Removes a key's binding; returns its value where the key was bound.
    pub fn remove(&mut self, key: &Key) -> (r: Option<Value>)
        requires
            old(self).wf(),
        ensures
            final(self).wf(),
            final(self)@ == old(self)@.remove(*key),
            match r {
                Some(v) => old(self)@.contains_key(*key) && v@ == old(self)@[*key],
                None => !old(self)@.contains_key(*key),
            },
    {
        let n = self.entries.len();
        let mut i: usize = 0;
        while i < n
            invariant
                i <= n,
                n == self.entries@.len(),
                old(self).wf(),
                forall|j: int| 0 <= j < i ==> (#[trigger] self.entries@[j]).0 != *key,
                *self == *old(self),
            decreases n - i,
        {
            if self.entries[i].0 == *key {
                proof {
                    self.lemma_wf_distinct();
                    lemma_seq_to_map_remove(self.entries@, i as int);
                    lemma_seq_to_map_value(self.entries@, i as int);
                }
                let ghost s0 = self.entries@;
                let (_, v) = self.entries.remove(i);
                proof {
                    let t = self.entries@;
                    assert(forall|j: int|
                        0 <= j < t.len() ==> #[trigger] t[j] == (if j < i {
                            s0[j]
                        } else {
                            s0[j + 1]
                        }));
                    assert forall|a: int, b: int|
                        0 <= a < b < t.len() implies key_lt(
                        (#[trigger] t[a]).0,
                        (#[trigger] t[b]).0,
                    ) by {
                        let a0 = if a < i {
                            a
                        } else {
                            a + 1
                        };
                        let b0 = if b < i {
                            b
                        } else {
                            b + 1
                        };
                        assert(key_lt(
                            (old(self).entries_seq()[a0]).0,
                            (old(self).entries_seq()[b0]).0,
                        ));
                    }
                }
                return Some(v);
            }
            i = i + 1;
        }
        proof {
            lemma_seq_to_map_contains(self.entries@, *key);
            assert(!old(self)@.contains_key(*key));
            assert(old(self)@.remove(*key) =~= old(self)@);
        }
        None
    }
}

/// Iteration-order law: within one partition map the entries are strictly
/// increasing by (upper, lower, tail).
pub proof fn lemma_iteration_order(d: &Dict)
    requires
        d.wf(),
    ensures
        forall|i: int, j: int|
            0 <= i < j < d.entries_seq().len() ==> key_lt(
                (#[trigger] d.entries_seq()[i]).0,
                (#[trigger] d.entries_seq()[j]).0,
            ),
{
}

} // verus!
