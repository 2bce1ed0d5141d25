//! One partition's task-local state and the final reconciliation sweep.

use crate::dict::Dict;
use crate::key::Key;
use crate::record::{consume_spec, LineItem};
use vstd::prelude::*;

verus! {

/// One partition's task-local state: its private ordered map, whether its
/// ring predecessor has closed its sending end, and the removal keys this
/// partition could not forward to its successor.
pub struct Partition {
    pub dict: Dict,
    pub predecessor_closed: bool,
    pub leftover: Vec<Key>,
}

impl Partition {
    pub open spec fn wf(&self) -> bool {
        self.dict.wf()
    }

    /// A fresh partition with an empty map.
    pub fn new() -> (p: Partition)
        ensures
            p.wf(),
            p.dict@ == Map::<Key, (i32, Seq<char>)>::empty(),
            !p.predecessor_closed,
            p.leftover@ == Seq::<Key>::empty(),
    {
        Partition { dict: Dict::new(), predecessor_closed: false, leftover: Vec::new() }
    }

    /// A removal token arrived from the predecessor: remove the key locally
    /// if it is here; otherwise hand it back, to be forwarded to the
    /// successor.
    pub fn on_removal(&mut self, key: Key) -> (forward: Option<Key>)
        requires
            old(self).wf(),
        ensures
            final(self).wf(),
            final(self).predecessor_closed == old(self).predecessor_closed,
            final(self).leftover == old(self).leftover,
            final(self).dict@ == old(self).dict@.remove(key),
            old(self).dict@.contains_key(key) ==> forward == None::<Key>,
            !old(self).dict@.contains_key(key) ==> final(self).dict@ == old(self).dict@ && forward
                == Some(key),
    {
        match self.dict.remove(&key) {
            Some(_) => None,
            None => {
                proof {
                    assert(old(self).dict@.remove(key) =~= old(self).dict@);
                }
                Some(key)
            },
        }
    }

    /// The forward to the successor was refused because the successor's
    /// receiving end is already gone: keep the key for the final sweep.
    pub fn on_forward_refused(&mut self, key: Key)
        requires
            old(self).wf(),
        ensures
            final(self).wf(),
            final(self).dict == old(self).dict,
            final(self).predecessor_closed == old(self).predecessor_closed,
            final(self).leftover@ == old(self).leftover@.push(key),
    {
        self.leftover.push(key);
    }

    /// The predecessor closed its sending end: disable that polling branch
    /// so the loop does not spin on a permanently empty channel.
    pub fn on_predecessor_closed(&mut self)
        requires
            old(self).wf(),
        ensures
            final(self).wf(),
            final(self).dict == old(self).dict,
            final(self).leftover == old(self).leftover,
            final(self).predecessor_closed,
    {
        self.predecessor_closed = true;
    }

    /// Applies one record: all its inserts, then all its deletes.  Returns
    /// the deletion keys not found locally, to be forwarded around the ring.
    pub fn on_record(&mut self, item: LineItem) -> (unresolved: Vec<Key>)
        requires
            old(self).wf(),
            item.wf(),
        ensures
            final(self).wf(),
            final(self).predecessor_closed == old(self).predecessor_closed,
            final(self).leftover == old(self).leftover,
            final(self).dict@ == consume_spec(old(self).dict@, item@).0,
            unresolved@ == consume_spec(old(self).dict@, item@).1,
    {
        item.consume(&mut self.dict)
    }
}

/// The map after removing each of the keys, in order.
pub open spec fn remove_all(m: Map<Key, (i32, Seq<char>)>, keys: Seq<Key>) -> Map<
    Key,
    (i32, Seq<char>),
>
    decreases keys.len(),
{
    if keys.len() == 0 {
        m
    } else {
        remove_all(m, keys.drop_last()).remove(keys.last())
    }
}

/// Leftover-reconciliation law: after the final sweep, no swept key is
/// present in the resulting map.
pub proof fn lemma_remove_all_absent(m: Map<Key, (i32, Seq<char>)>, keys: Seq<Key>, j: int)
    requires
        0 <= j < keys.len(),
    ensures
        !remove_all(m, keys).contains_key(keys[j]),
    decreases keys.len(),
{
    if j == keys.len() - 1 {
    } else {
        assert(keys.drop_last()[j] == keys[j]);
        lemma_remove_all_absent(m, keys.drop_last(), j);
    }
}

/// The final sweep: remove every leftover key from every partition map, so
/// that no stranded deletion is lost when the ring is torn down mid-flight.
pub fn reconcile(dicts: Vec<Dict>, leftovers: &Vec<Key>) -> (r: Vec<Dict>)
    requires
        forall|i: int| 0 <= i < dicts@.len() ==> (#[trigger] dicts@[i]).wf(),
    ensures
        r@.len() == dicts@.len(),
        forall|i: int| 0 <= i < r@.len() ==> (#[trigger] r@[i]).wf(),
        forall|i: int|
            0 <= i < r@.len() ==> (#[trigger] r@[i])@ == remove_all(dicts@[i]@, leftovers@),
        forall|i: int, j: int|
            0 <= i < r@.len() && 0 <= j < leftovers@.len() ==> !(#[trigger] r@[i])@.contains_key(
                #[trigger] leftovers@[j],
            ),
{
    let ghost dv0 = dicts@;
    let ghost lv = leftovers@;
    let n = dicts.len();
    let mut rest = dicts;
    let mut result: Vec<Dict> = Vec::new();
    let mut i: usize = 0;
    while i < n
        invariant
            i <= n,
            n == dv0.len(),
            rest@ == dv0.skip(i as int),
            lv == leftovers@,
            forall|q: int| 0 <= q < dv0.len() ==> (#[trigger] dv0[q]).wf(),
            result@.len() == i,
            forall|q: int| 0 <= q < i ==> (#[trigger] result@[q]).wf(),
            forall|q: int|
                0 <= q < i ==> (#[trigger] result@[q])@ == remove_all(dv0[q]@, lv),
        decreases n - i,
    {
        let mut d = rest.remove(0);
        proof {
            assert(d == dv0[i as int]);
            assert(rest@ =~= dv0.skip(i as int + 1));
        }
        let ghost m0 = d@;
        let ln = leftovers.len();
        let mut j: usize = 0;
        while j < ln
            invariant
                j <= ln,
                ln == lv.len(),
                lv == leftovers@,
                d.wf(),
                d@ == remove_all(m0, lv.take(j as int)),
            decreases ln - j,
        {
            proof {
                assert(lv.take(j as int + 1).drop_last() =~= lv.take(j as int));
                assert(lv.take(j as int + 1).last() == lv[j as int]);
            }
            let _ = d.remove(&leftovers[j]);
            j = j + 1;
        }
        proof {
            assert(lv.take(ln as int) =~= lv);
        }
        result.push(d);
        i = i + 1;
    }
    proof {
        assert forall|i2: int, j2: int|
            0 <= i2 < result@.len() && 0 <= j2 < lv.len() implies !(#[trigger] result@[i2])@
            .contains_key(#[trigger] lv[j2]) by {
            lemma_remove_all_absent(dv0[i2]@, lv, j2);
        }
    }
    result
}

} // verus!
