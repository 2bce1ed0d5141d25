//! Construction of the ring of removal channels between partitions.

use vstd::prelude::*;

verus! {

/// Plans the ring of removal channels for `count` partitions over channels
/// numbered `0..count`.  Entry `i` is for partition `i`: the number of the
/// channel it sends removals into, and the number of the channel it receives
/// removals from.  Partition `i` receives from channel `i` and sends into
/// channel `(i + 1) % count`, so its sending channel is exactly its ring
/// successor's receiving channel, and no channel is shared between two
/// non-adjacent partitions.
pub fn ring_formation(count: usize) -> (r: Vec<(usize, usize)>)
    ensures
        r@.len() == count,
        forall|i: int|
            0 <= i < count ==> (#[trigger] r@[i]).1 == i && r@[i].0 == (if i + 1 < count {
                i + 1
            } else {
                0
            }),
{
    let mut r: Vec<(usize, usize)> = Vec::new();
    let mut i: usize = 0;
    while i < count
        invariant
            i <= count,
            r@.len() == i,
            forall|j: int|
                0 <= j < i ==> (#[trigger] r@[j]).1 == j && r@[j].0 == (if j + 1 < count {
                    j + 1
                } else {
                    0
                }),
        decreases count - i,
    {
        let send = if i + 1 < count {
            i + 1
        } else {
            0
        };
        r.push((send, i));
        i = i + 1;
    }
    r
}

/// Ring adjacency: each partition's sending channel is the receiving channel
/// of its successor `(i + 1) % count`, and distinct partitions send into
/// distinct channels and receive from distinct channels.
pub proof fn lemma_ring_adjacency(r: Seq<(usize, usize)>, count: usize)
    requires
        r.len() == count,
        forall|i: int|
            0 <= i < count ==> (#[trigger] r[i]).1 == i && r[i].0 == (if i + 1 < count {
                i + 1
            } else {
                0
            }),
    ensures
        forall|i: int|
            0 <= i < count ==> (#[trigger] r[i]).0 == r[(if i + 1 < count {
                i + 1
            } else {
                0
            }) as int].1,
        forall|i: int, j: int| 0 <= i < j < count ==> (#[trigger] r[i]).0 != (#[trigger] r[j]).0,
        forall|i: int, j: int| 0 <= i < j < count ==> (#[trigger] r[i]).1 != (#[trigger] r[j]).1,
{
}

} // verus!
