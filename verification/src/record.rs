//! Parsed records: values and one line's worth of inserts and deletes.

use crate::dict::Dict;
use crate::key::Key;
use vstd::prelude::*;

verus! {

/// The payload stored under a key: the record header's `tag` and the textual
/// floating-point amount.  The pipeline never computes with the amount, it
/// only carries it, so it is held as its (validated) token; rendering it as a
/// number is the surrounding layer's concern.
#[derive(Clone, Debug)]
pub struct Value {
    pub b: i32,
    pub amount: Vec<char>,
}

impl View for Value {
    type V = (i32, Seq<char>);

    open spec fn view(&self) -> (i32, Seq<char>) {
        (self.b, self.amount@)
    }
}

/// One parsed input line: keys to insert, paired positionally with values,
/// and keys to delete.
#[derive(Clone, Debug)]
pub struct LineItem {
    pub keys: Vec<Key>,
    pub values: Vec<Value>,
    pub del_keys: Vec<Key>,
}

/// The views of a sequence of values.
pub open spec fn value_views(vs: Seq<Value>) -> Seq<(i32, Seq<char>)> {
    Seq::new(vs.len(), |i: int| vs[i]@)
}

impl View for LineItem {
    type V = (Seq<Key>, Seq<(i32, Seq<char>)>, Seq<Key>);

    open spec fn view(&self) -> (Seq<Key>, Seq<(i32, Seq<char>)>, Seq<Key>) {
        (self.keys@, value_views(self.values@), self.del_keys@)
    }
}

impl LineItem {
    /// A record's key list and value list are paired positionally, so they
    /// must have the same length.
    pub open spec fn wf(&self) -> bool {
        self.keys@.len() == self.values@.len()
    }
}

/// The map after inserting the paired keys and values, in order.
pub open spec fn apply_inserts(
    m: Map<Key, (i32, Seq<char>)>,
    keys: Seq<Key>,
    values: Seq<(i32, Seq<char>)>,
) -> Map<Key, (i32, Seq<char>)>
    decreases keys.len(),
{
    if keys.len() == 0 || values.len() == 0 {
        m
    } else {
        apply_inserts(m, keys.drop_last(), values.drop_last()).insert(keys.last(), values.last())
    }
}

/// The map after attempting each deletion in order, paired with the keys
/// that were not found at their turn.
pub open spec fn apply_deletes(m: Map<Key, (i32, Seq<char>)>, dels: Seq<Key>) -> (
    Map<Key, (i32, Seq<char>)>,
    Seq<Key>,
)
    decreases dels.len(),
{
    if dels.len() == 0 {
        (m, Seq::empty())
    } else {
        let (m1, nf) = apply_deletes(m, dels.drop_last());
        if m1.contains_key(dels.last()) {
            (m1.remove(dels.last()), nf)
        } else {
            (m1, nf.push(dels.last()))
        }
    }
}

/// One record applied to a map: all its inserts, then all its deletes.
pub open spec fn consume_spec(
    m: Map<Key, (i32, Seq<char>)>,
    rec: (Seq<Key>, Seq<(i32, Seq<char>)>, Seq<Key>),
) -> (Map<Key, (i32, Seq<char>)>, Seq<Key>) {
    apply_deletes(apply_inserts(m, rec.0, rec.1), rec.2)
}

impl LineItem {
    /// Inserts the key/value pairs and then attempts each deletion key.
    /// Returns the deletion keys that were not found.
    pub fn consume(self, dict: &mut Dict) -> (not_found: Vec<Key>)
        requires
            old(dict).wf(),
            self.wf(),
        ensures
            final(dict).wf(),
            final(dict)@ == consume_spec(old(dict)@, self@).0,
            not_found@ == consume_spec(old(dict)@, self@).1,
    {
        let ghost m0 = dict@;
        let ghost kv = self.keys@;
        let ghost vs0 = self.values@;
        let ghost dv = self.del_keys@;
        let keys = self.keys;
        let mut values = self.values;
        let del_keys = self.del_keys;
        let n = keys.len();
        let mut i: usize = 0;
        while i < n
            invariant
                i <= n,
                n == kv.len(),
                n == vs0.len(),
                keys@ == kv,
                values@ == vs0.skip(i as int),
                dict.wf(),
                dict@ == apply_inserts(m0, kv.take(i as int), value_views(vs0).take(i as int)),
            decreases n - i,
        {
            let v = values.remove(0);
            proof {
                assert(v == vs0[i as int]);
                assert(values@ =~= vs0.skip(i as int + 1));
            }
            dict.insert(keys[i], v);
            proof {
                assert(kv.take(i as int + 1).drop_last() =~= kv.take(i as int));
                assert(value_views(vs0).take(i as int + 1).drop_last() =~= value_views(vs0).take(
                    i as int,
                ));
                assert(kv.take(i as int + 1).last() == kv[i as int]);
                assert(value_views(vs0).take(i as int + 1).last() == vs0[i as int]@);
            }
            i = i + 1;
        }
        proof {
            assert(kv.take(n as int) =~= kv);
            assert(value_views(vs0).take(n as int) =~= value_views(vs0));
        }
        let ghost m1 = dict@;
        let dn = del_keys.len();
        let mut not_found: Vec<Key> = Vec::new();
        let mut j: usize = 0;
        while j < dn
            invariant
                j <= dn,
                dn == dv.len(),
                del_keys@ == dv,
                dict.wf(),
                dict@ == apply_deletes(m1, dv.take(j as int)).0,
                not_found@ == apply_deletes(m1, dv.take(j as int)).1,
            decreases dn - j,
        {
            let k = del_keys[j];
            proof {
                assert(dv.take(j as int + 1).drop_last() =~= dv.take(j as int));
                assert(dv.take(j as int + 1).last() == dv[j as int]);
            }
            let r = dict.remove(&k);
            match r {
                Some(_) => {},
                None => {
                    proof {
                        assert(apply_deletes(m1, dv.take(j as int)).0.remove(k) =~= apply_deletes(
                            m1,
                            dv.take(j as int),
                        ).0);
                    }
                    not_found.push(k);
                },
            }
            j = j + 1;
        }
        proof {
            assert(dv.take(dn as int) =~= dv);
        }
        not_found
    }
}

} // verus!
