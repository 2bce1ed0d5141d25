//! The pipeline's global guarantees, proved of the sequential model.

use crate::key::Key;
use crate::partition::remove_all;
use crate::pipeline::{
    final_model, lemma_walk_all_len, lemma_walk_delete_len, ring_next, run_model, walk_all,
    walk_delete,
};
use crate::record::{apply_deletes, apply_inserts, consume_spec};
use vstd::prelude::*;

verus! {

/// Whether a key occurs in a sequence of keys.
pub open spec fn has_key(s: Seq<Key>, k: Key) -> bool {
    exists|q: int| 0 <= q < s.len() && s[q] == k
}

/// Whether a record inserts `k`.
pub open spec fn rec_inserts(rec: (Seq<Key>, Seq<(i32, Seq<char>)>, Seq<Key>), k: Key) -> bool {
    has_key(rec.0, k)
}

/// Whether a record deletes `k`.
pub open spec fn rec_deletes(rec: (Seq<Key>, Seq<(i32, Seq<char>)>, Seq<Key>), k: Key) -> bool {
    has_key(rec.2, k)
}

/// `k` is in none of the maps.
pub open spec fn nowhere(dicts: Seq<Map<Key, (i32, Seq<char>)>>, k: Key) -> bool {
    forall|q: int| 0 <= q < dicts.len() ==> !(#[trigger] dicts[q]).contains_key(k)
}

/// `k` is at most in map `home`.
pub open spec fn only_home(dicts: Seq<Map<Key, (i32, Seq<char>)>>, home: int, k: Key) -> bool {
    forall|q: int| 0 <= q < dicts.len() && q != home ==> !(#[trigger] dicts[q]).contains_key(k)
}

proof fn lemma_apply_inserts_other(
    m: Map<Key, (i32, Seq<char>)>,
    keys: Seq<Key>,
    values: Seq<(i32, Seq<char>)>,
    k: Key,
)
    requires
        !has_key(keys, k),
    ensures
        apply_inserts(m, keys, values).contains_key(k) == m.contains_key(k),
        m.contains_key(k) ==> apply_inserts(m, keys, values)[k] == m[k],
    decreases keys.len(),
{
    if keys.len() > 0 && values.len() > 0 {
        assert(forall|q: int| 0 <= q < keys.len() - 1 ==> keys.drop_last()[q] == keys[q]);
        assert(!has_key(keys.drop_last(), k));
        lemma_apply_inserts_other(m, keys.drop_last(), values.drop_last(), k);
        assert(keys.last() != k);
    }
}

proof fn lemma_apply_inserts_unique(
    m: Map<Key, (i32, Seq<char>)>,
    keys: Seq<Key>,
    values: Seq<(i32, Seq<char>)>,
    i: int,
    k: Key,
)
    requires
        keys.len() == values.len(),
        0 <= i < keys.len(),
        keys[i] == k,
        forall|q: int| 0 <= q < keys.len() && q != i ==> keys[q] != k,
    ensures
        apply_inserts(m, keys, values).contains_key(k),
        apply_inserts(m, keys, values)[k] == values[i],
    decreases keys.len(),
{
    if i == keys.len() - 1 {
    } else {
        assert(forall|q: int| 0 <= q < keys.len() - 1 ==> keys.drop_last()[q] == keys[q]);
        lemma_apply_inserts_unique(m, keys.drop_last(), values.drop_last(), i, k);
        assert(keys.last() != k);
    }
}

proof fn lemma_apply_deletes_other(m: Map<Key, (i32, Seq<char>)>, dels: Seq<Key>, k: Key)
    requires
        !has_key(dels, k),
    ensures
        apply_deletes(m, dels).0.contains_key(k) == m.contains_key(k),
        m.contains_key(k) ==> apply_deletes(m, dels).0[k] == m[k],
        !has_key(apply_deletes(m, dels).1, k),
    decreases dels.len(),
{
    if dels.len() > 0 {
        assert(forall|q: int| 0 <= q < dels.len() - 1 ==> dels.drop_last()[q] == dels[q]);
        assert(!has_key(dels.drop_last(), k));
        lemma_apply_deletes_other(m, dels.drop_last(), k);
        assert(dels.last() != k);
        let nf1 = apply_deletes(m, dels.drop_last()).1;
        if !apply_deletes(m, dels.drop_last()).0.contains_key(dels.last()) {
            assert(forall|q: int| 0 <= q < nf1.len() ==> nf1.push(dels.last())[q] == nf1[q]);
        }
    }
}

proof fn lemma_apply_deletes_self(m: Map<Key, (i32, Seq<char>)>, dels: Seq<Key>, k: Key)
    requires
        has_key(dels, k),
    ensures
        !apply_deletes(m, dels).0.contains_key(k),
    decreases dels.len(),
{
    assert(forall|q: int| 0 <= q < dels.len() - 1 ==> dels.drop_last()[q] == dels[q]);
    if dels.last() == k {
    } else {
        let q = choose|q: int| 0 <= q < dels.len() && dels[q] == k;
        assert(dels.drop_last()[q] == k);
        lemma_apply_deletes_self(m, dels.drop_last(), k);
    }
}

proof fn lemma_apply_deletes_notfound(m: Map<Key, (i32, Seq<char>)>, dels: Seq<Key>, k: Key)
    requires
        !m.contains_key(k),
        has_key(dels, k),
    ensures
        has_key(apply_deletes(m, dels).1, k),
    decreases dels.len(),
{
    assert(forall|q: int| 0 <= q < dels.len() - 1 ==> dels.drop_last()[q] == dels[q]);
    let m1 = apply_deletes(m, dels.drop_last()).0;
    let nf1 = apply_deletes(m, dels.drop_last()).1;
    if has_key(dels.drop_last(), k) {
        lemma_apply_deletes_notfound(m, dels.drop_last(), k);
        let q = choose|q: int| 0 <= q < nf1.len() && nf1[q] == k;
        if !m1.contains_key(dels.last()) {
            assert(nf1.push(dels.last())[q] == k);
        }
    } else {
        assert(dels.last() == k);
        lemma_apply_deletes_other(m, dels.drop_last(), k);
        assert(!m1.contains_key(k));
        assert(nf1.push(k)[nf1.len() as int] == k);
    }
}

proof fn lemma_walk_delete_other(
    dicts: Seq<Map<Key, (i32, Seq<char>)>>,
    at: int,
    rem: nat,
    k2: Key,
    k: Key,
)
    requires
        k2 != k,
    ensures
        walk_delete(dicts, at, rem, k2).0.len() == dicts.len(),
        forall|q: int|
            0 <= q < dicts.len() ==> (#[trigger] walk_delete(dicts, at, rem, k2).0[q]).contains_key(
                k,
            ) == dicts[q].contains_key(k) && (dicts[q].contains_key(k) ==> walk_delete(
                dicts,
                at,
                rem,
                k2,
            ).0[q][k] == dicts[q][k]),
    decreases rem,
{
    if rem == 0 {
    } else if 0 <= at < dicts.len() && dicts[at].contains_key(k2) {
    } else {
        lemma_walk_delete_other(dicts, ring_next(at, dicts.len() as int), (rem - 1) as nat, k2, k);
    }
}

proof fn lemma_walk_delete_nofind(
    dicts: Seq<Map<Key, (i32, Seq<char>)>>,
    at: int,
    rem: nat,
    k: Key,
)
    requires
        nowhere(dicts, k),
    ensures
        walk_delete(dicts, at, rem, k) == (dicts, false),
    decreases rem,
{
    if rem > 0 {
        lemma_walk_delete_nofind(dicts, ring_next(at, dicts.len() as int), (rem - 1) as nat, k);
    }
}

proof fn lemma_walk_delete_clears(
    dicts: Seq<Map<Key, (i32, Seq<char>)>>,
    at: int,
    rem: nat,
    home: int,
    k: Key,
)
    requires
        0 <= home < dicts.len(),
        0 <= at < dicts.len(),
        only_home(dicts, home, k),
        (if home >= at {
            home - at
        } else {
            home - at + dicts.len()
        }) < rem,
    ensures
        nowhere(walk_delete(dicts, at, rem, k).0, k),
    decreases rem,
{
    let n = dicts.len() as int;
    if dicts[at].contains_key(k) {
        assert(at == home);
        let d2 = dicts.update(at, dicts[at].remove(k));
        assert(forall|q: int| 0 <= q < n && q != at ==> d2[q] == dicts[q]);
    } else {
        if !dicts[home].contains_key(k) {
            lemma_walk_delete_nofind(dicts, at, rem, k);
        } else {
            assert(at != home);
            lemma_walk_delete_clears(dicts, ring_next(at, n), (rem - 1) as nat, home, k);
        }
    }
}

proof fn lemma_walk_all_other(
    dicts: Seq<Map<Key, (i32, Seq<char>)>>,
    leftover: Seq<Key>,
    nf: Seq<Key>,
    p: int,
    k: Key,
)
    requires
        !has_key(nf, k),
    ensures
        walk_all(dicts, leftover, nf, p).0.len() == dicts.len(),
        forall|q: int|
            0 <= q < dicts.len() ==> (#[trigger] walk_all(dicts, leftover, nf, p).0[q]).contains_key(
                k,
            ) == dicts[q].contains_key(k) && (dicts[q].contains_key(k) ==> walk_all(
                dicts,
                leftover,
                nf,
                p,
            ).0[q][k] == dicts[q][k]),
        has_key(walk_all(dicts, leftover, nf, p).1, k) == has_key(leftover, k),
    decreases nf.len(),
{
    if nf.len() > 0 {
        assert(forall|q: int| 0 <= q < nf.len() - 1 ==> nf.drop_last()[q] == nf[q]);
        assert(!has_key(nf.drop_last(), k));
        lemma_walk_all_other(dicts, leftover, nf.drop_last(), p, k);
        let d1 = walk_all(dicts, leftover, nf.drop_last(), p).0;
        let l1 = walk_all(dicts, leftover, nf.drop_last(), p).1;
        let n = dicts.len() as int;
        let rem = (if n >= 1 {
            n - 1
        } else {
            0
        }) as nat;
        assert(nf.last() != k);
        lemma_walk_delete_other(d1, ring_next(p, n), rem, nf.last(), k);
        if !walk_delete(d1, ring_next(p, n), rem, nf.last()).1 {
            assert(has_key(l1.push(nf.last()), k) == has_key(l1, k)) by {
                assert(forall|q: int| 0 <= q < l1.len() ==> l1.push(nf.last())[q] == l1[q]);
                if has_key(l1, k) {
                    let q = choose|q: int| 0 <= q < l1.len() && l1[q] == k;
                    assert(l1.push(nf.last())[q] == k);
                }
                if has_key(l1.push(nf.last()), k) {
                    let q = choose|q: int|
                        0 <= q < l1.push(nf.last()).len() && l1.push(nf.last())[q] == k;
                    assert(q < l1.len());
                }
            }
        }
    }
}

proof fn lemma_walk_all_absent(
    dicts: Seq<Map<Key, (i32, Seq<char>)>>,
    leftover: Seq<Key>,
    nf: Seq<Key>,
    p: int,
    k: Key,
)
    requires
        nowhere(dicts, k),
    ensures
        nowhere(walk_all(dicts, leftover, nf, p).0, k),
        walk_all(dicts, leftover, nf, p).0.len() == dicts.len(),
    decreases nf.len(),
{
    if nf.len() > 0 {
        lemma_walk_all_absent(dicts, leftover, nf.drop_last(), p, k);
        let d1 = walk_all(dicts, leftover, nf.drop_last(), p).0;
        let n = dicts.len() as int;
        let rem = (if n >= 1 {
            n - 1
        } else {
            0
        }) as nat;
        if nf.last() == k {
            lemma_walk_delete_nofind(d1, ring_next(p, n), rem, k);
        } else {
            lemma_walk_delete_other(d1, ring_next(p, n), rem, nf.last(), k);
            lemma_walk_delete_len(d1, ring_next(p, n), rem, nf.last());
        }
    }
}

proof fn lemma_walk_all_clears(
    dicts: Seq<Map<Key, (i32, Seq<char>)>>,
    leftover: Seq<Key>,
    nf: Seq<Key>,
    p: int,
    home: int,
    k: Key,
)
    requires
        dicts.len() >= 1,
        0 <= p < dicts.len(),
        0 <= home < dicts.len(),
        home != p,
        only_home(dicts, home, k),
        has_key(nf, k),
    ensures
        nowhere(walk_all(dicts, leftover, nf, p).0, k),
    decreases nf.len(),
{
    assert(forall|q: int| 0 <= q < nf.len() - 1 ==> nf.drop_last()[q] == nf[q]);
    let d1 = walk_all(dicts, leftover, nf.drop_last(), p).0;
    let n = dicts.len() as int;
    let rem = (n - 1) as nat;
    let a0 = ring_next(p, n);
    if has_key(nf.drop_last(), k) {
        lemma_walk_all_clears(dicts, leftover, nf.drop_last(), p, home, k);
        lemma_walk_all_len(dicts, leftover, nf.drop_last(), p);
        if nf.last() == k {
            lemma_walk_delete_nofind(d1, a0, rem, k);
        } else {
            lemma_walk_delete_other(d1, a0, rem, nf.last(), k);
        }
    } else {
        assert(nf.last() == k) by {
            let q = choose|q: int| 0 <= q < nf.len() && nf[q] == k;
            if q < nf.len() - 1 {
                assert(nf.drop_last()[q] == k);
            }
        }
        lemma_walk_all_other(dicts, leftover, nf.drop_last(), p, k);
        assert(only_home(d1, home, k));
        if d1[home].contains_key(k) {
            assert((if home >= a0 {
                home - a0
            } else {
                home - a0 + n
            }) < rem);
            lemma_walk_delete_clears(d1, a0, rem, home, k);
        } else {
            assert(nowhere(d1, k));
            lemma_walk_delete_nofind(d1, a0, rem, k);
        }
    }
}

proof fn lemma_remove_all_subset(m: Map<Key, (i32, Seq<char>)>, keys: Seq<Key>, k: Key)
    ensures
        remove_all(m, keys).contains_key(k) ==> m.contains_key(k),
    decreases keys.len(),
{
    if keys.len() > 0 {
        lemma_remove_all_subset(m, keys.drop_last(), k);
    }
}

proof fn lemma_remove_all_other(m: Map<Key, (i32, Seq<char>)>, keys: Seq<Key>, k: Key)
    requires
        !has_key(keys, k),
    ensures
        remove_all(m, keys).contains_key(k) == m.contains_key(k),
        m.contains_key(k) ==> remove_all(m, keys)[k] == m[k],
    decreases keys.len(),
{
    if keys.len() > 0 {
        assert(forall|q: int| 0 <= q < keys.len() - 1 ==> keys.drop_last()[q] == keys[q]);
        assert(!has_key(keys.drop_last(), k));
        lemma_remove_all_other(m, keys.drop_last(), k);
        assert(keys.last() != k);
    }
}

proof fn lemma_p1_state(
    records: Seq<(Seq<Key>, Seq<(i32, Seq<char>)>, Seq<Key>)>,
    schedule: Seq<usize>,
    n: nat,
    r: int,
    i: int,
    k: Key,
    t: int,
)
    requires
        n >= 1,
        schedule.len() == records.len(),
        forall|t2: int| 0 <= t2 < schedule.len() ==> (#[trigger] schedule[t2]) < n,
        0 <= r < records.len(),
        0 <= i < records[r].0.len(),
        records[r].0[i] == k,
        records[r].1.len() == records[r].0.len(),
        forall|q: int| 0 <= q < records[r].0.len() && q != i ==> (#[trigger] records[r].0[q]) != k,
        forall|t2: int|
            0 <= t2 < records.len() && t2 != r ==> !rec_inserts(#[trigger] records[t2], k),
        forall|t2: int| 0 <= t2 < records.len() ==> !rec_deletes(#[trigger] records[t2], k),
        0 <= t <= records.len(),
    ensures
        run_model(records.take(t), schedule.take(t), n).0.len() == n,
        !has_key(run_model(records.take(t), schedule.take(t), n).1, k),
        only_home(run_model(records.take(t), schedule.take(t), n).0, schedule[r] as int, k),
        t <= r ==> nowhere(run_model(records.take(t), schedule.take(t), n).0, k),
        t > r ==> run_model(records.take(t), schedule.take(t), n).0[schedule[r] as int].contains_key(
            k,
        ) && run_model(records.take(t), schedule.take(t), n).0[schedule[r] as int][k]
            == records[r].1[i],
    decreases t,
{
    let home = schedule[r] as int;
    let rt = records.take(t);
    let st = schedule.take(t);
    if t == 0 {
        assert(rt.len() == 0);
        assert(run_model(rt, st, n).0 == Seq::new(
            n,
            |q: int| Map::<Key, (i32, Seq<char>)>::empty(),
        ));
    } else {
        lemma_p1_state(records, schedule, n, r, i, k, t - 1);
        let e = t - 1;
        let d = run_model(records.take(e), schedule.take(e), n).0;
        let l = run_model(records.take(e), schedule.take(e), n).1;
        assert(rt.drop_last() =~= records.take(e));
        assert(st.drop_last() =~= schedule.take(e));
        assert(rt.last() == records[e]);
        assert(st[rt.len() - 1] == schedule[e]);
        let rec = records[e];
        let p = schedule[e] as int;
        let m1 = apply_inserts(d[p], rec.0, rec.1);
        let m2 = consume_spec(d[p], rec).0;
        let nf = consume_spec(d[p], rec).1;
        let d1 = d.update(p, m2);
        assert(run_model(rt, st, n) == walk_all(d1, l, nf, p));
        if e == r {
            lemma_apply_inserts_unique(d[p], rec.0, rec.1, i, k);
        } else {
            assert(!rec_inserts(rec, k));
            lemma_apply_inserts_other(d[p], rec.0, rec.1, k);
        }
        assert(!rec_deletes(rec, k));
        lemma_apply_deletes_other(m1, rec.2, k);
        lemma_walk_all_other(d1, l, nf, p, k);
        let w = walk_all(d1, l, nf, p).0;
        assert(only_home(w, home, k)) by {
            assert forall|q: int| 0 <= q < w.len() && q != home implies !(#[trigger] w[q])
                .contains_key(k) by {
                assert(w[q].contains_key(k) == d1[q].contains_key(k));
                if q == p {
                    assert(e != r);
                    assert(d1[q] == m2);
                } else {
                    assert(d1[q] == d[q]);
                }
            }
        }
        if t <= r {
            assert(nowhere(w, k)) by {
                assert forall|q: int| 0 <= q < w.len() implies !(#[trigger] w[q]).contains_key(
                    k,
                ) by {
                    assert(w[q].contains_key(k) == d1[q].contains_key(k));
                    if q == p {
                        assert(d1[q] == m2);
                    } else {
                        assert(d1[q] == d[q]);
                    }
                }
            }
        }
        if t > r {
            assert(w[home].contains_key(k) && w[home][k] == records[r].1[i]) by {
                if e == r {
                    assert(p == home);
                    assert(d1[home] == m2);
                    assert(m2.contains_key(k) && m2[k] == rec.1[i]);
                } else {
                    assert(d1[home].contains_key(k) == d[home].contains_key(k));
                }
            }
        }
    }
}

/// Unique-insert survival law: a key inserted by exactly one record position
/// across the whole stream, and deleted by none, ends up bound to its value
/// exactly in the partition that processed its record, and in no other,
/// whatever the schedule.  (A deletion of the key anywhere in the stream is
/// excluded even before the insert: an undeliverable deletion token lands in
/// the leftovers, and the final sweep would also remove a later insert.)
pub proof fn lemma_unique_insert_survives(
    records: Seq<(Seq<Key>, Seq<(i32, Seq<char>)>, Seq<Key>)>,
    schedule: Seq<usize>,
    n: nat,
    r: int,
    i: int,
    k: Key,
)
    requires
        n >= 1,
        schedule.len() == records.len(),
        forall|t2: int| 0 <= t2 < schedule.len() ==> (#[trigger] schedule[t2]) < n,
        0 <= r < records.len(),
        0 <= i < records[r].0.len(),
        records[r].0[i] == k,
        records[r].1.len() == records[r].0.len(),
        forall|q: int| 0 <= q < records[r].0.len() && q != i ==> (#[trigger] records[r].0[q]) != k,
        forall|t2: int|
            0 <= t2 < records.len() && t2 != r ==> !rec_inserts(#[trigger] records[t2], k),
        forall|t2: int| 0 <= t2 < records.len() ==> !rec_deletes(#[trigger] records[t2], k),
    ensures
        final_model(records, schedule, n)[schedule[r] as int].contains_key(k),
        final_model(records, schedule, n)[schedule[r] as int][k] == records[r].1[i],
        forall|q: int|
            0 <= q < n && q != schedule[r] as int ==> !(#[trigger] final_model(
                records,
                schedule,
                n,
            )[q]).contains_key(k),
{
    let home = schedule[r] as int;
    let len = records.len() as int;
    lemma_p1_state(records, schedule, n, r, i, k, len);
    assert(records.take(len) =~= records);
    assert(schedule.take(len) =~= schedule);
    let d = run_model(records, schedule, n).0;
    let l = run_model(records, schedule, n).1;
    assert(!has_key(l, k));
    lemma_remove_all_other(d[home], l, k);
    assert(final_model(records, schedule, n)[home] == remove_all(d[home], l));
    assert forall|q: int|
        0 <= q < n && q != home implies !(#[trigger] final_model(records, schedule, n)[q])
        .contains_key(k) by {
        lemma_remove_all_subset(d[q], l, k);
    }
}

proof fn lemma_p2_state(
    records: Seq<(Seq<Key>, Seq<(i32, Seq<char>)>, Seq<Key>)>,
    schedule: Seq<usize>,
    n: nat,
    r: int,
    i: int,
    dl: int,
    k: Key,
    t: int,
)
    requires
        n >= 1,
        schedule.len() == records.len(),
        forall|t2: int| 0 <= t2 < schedule.len() ==> (#[trigger] schedule[t2]) < n,
        0 <= r <= dl < records.len(),
        0 <= i < records[r].0.len(),
        records[r].0[i] == k,
        forall|q: int| 0 <= q < records[r].0.len() && q != i ==> (#[trigger] records[r].0[q]) != k,
        forall|t2: int|
            0 <= t2 < records.len() && t2 != r ==> !rec_inserts(#[trigger] records[t2], k),
        rec_deletes(records[dl], k),
        0 <= t <= records.len(),
    ensures
        run_model(records.take(t), schedule.take(t), n).0.len() == n,
        only_home(run_model(records.take(t), schedule.take(t), n).0, schedule[r] as int, k),
        t <= r ==> nowhere(run_model(records.take(t), schedule.take(t), n).0, k),
        t > dl ==> nowhere(run_model(records.take(t), schedule.take(t), n).0, k),
    decreases t,
{
    let home = schedule[r] as int;
    let rt = records.take(t);
    let st = schedule.take(t);
    if t == 0 {
        assert(rt.len() == 0);
        assert(run_model(rt, st, n).0 == Seq::new(
            n,
            |q: int| Map::<Key, (i32, Seq<char>)>::empty(),
        ));
    } else {
        lemma_p2_state(records, schedule, n, r, i, dl, k, t - 1);
        let e = t - 1;
        let d = run_model(records.take(e), schedule.take(e), n).0;
        let l = run_model(records.take(e), schedule.take(e), n).1;
        assert(rt.drop_last() =~= records.take(e));
        assert(st.drop_last() =~= schedule.take(e));
        assert(rt.last() == records[e]);
        assert(st[rt.len() - 1] == schedule[e]);
        let rec = records[e];
        let p = schedule[e] as int;
        let m1 = apply_inserts(d[p], rec.0, rec.1);
        let m2 = consume_spec(d[p], rec).0;
        let nf = consume_spec(d[p], rec).1;
        let d1 = d.update(p, m2);
        assert(run_model(rt, st, n) == walk_all(d1, l, nf, p));
        let w = walk_all(d1, l, nf, p).0;
        lemma_walk_all_len(d1, l, nf, p);
        if !rec_deletes(rec, k) {
            // No deletion of the key in this record: every map keeps its
            // binding of the key.
            if e != r {
                assert(!rec_inserts(rec, k));
                lemma_apply_inserts_other(d[p], rec.0, rec.1, k);
            }
            lemma_apply_deletes_other(m1, rec.2, k);
            lemma_walk_all_other(d1, l, nf, p, k);
            assert(only_home(w, home, k)) by {
                assert forall|q: int| 0 <= q < w.len() && q != home implies !(#[trigger] w[q])
                    .contains_key(k) by {
                    assert(w[q].contains_key(k) == d1[q].contains_key(k));
                    if q == p {
                        assert(e != r);
                        assert(d1[q] == m2);
                    } else {
                        assert(d1[q] == d[q]);
                    }
                }
            }
            if t <= r || t > dl {
                assert(nowhere(w, k)) by {
                    assert forall|q: int| 0 <= q < w.len() implies !(#[trigger] w[q]).contains_key(
                        k,
                    ) by {
                        assert(w[q].contains_key(k) == d1[q].contains_key(k));
                        if q == p {
                            assert(e != r);
                            assert(d1[q] == m2);
                        } else {
                            assert(d1[q] == d[q]);
                        }
                    }
                }
            }
        } else {
            // This record deletes the key: afterwards it is in no map.
            lemma_apply_deletes_self(m1, rec.2, k);
            assert(!m2.contains_key(k));
            if p == home {
                assert(nowhere(d1, k)) by {
                    assert forall|q: int| 0 <= q < d1.len() implies !(#[trigger] d1[q])
                        .contains_key(k) by {
                        if q == p {
                            assert(d1[q] == m2);
                        } else {
                            assert(d1[q] == d[q]);
                        }
                    }
                }
                lemma_walk_all_absent(d1, l, nf, p, k);
            } else {
                assert(e != r);
                assert(!rec_inserts(rec, k));
                lemma_apply_inserts_other(d[p], rec.0, rec.1, k);
                assert(!m1.contains_key(k));
                assert(only_home(d1, home, k)) by {
                    assert forall|q: int| 0 <= q < d1.len() && q != home implies !(#[trigger] d1[q])
                        .contains_key(k) by {
                        if q == p {
                            assert(d1[q] == m2);
                        } else {
                            assert(d1[q] == d[q]);
                        }
                    }
                }
                if d1[home].contains_key(k) {
                    lemma_apply_deletes_notfound(m1, rec.2, k);
                    lemma_walk_all_clears(d1, l, nf, p, home, k);
                } else {
                    assert(nowhere(d1, k));
                    lemma_walk_all_absent(d1, l, nf, p, k);
                }
            }
            assert(nowhere(w, k));
        }
    }
}

/// Delete-wins law: a key inserted by at most one record position, and
/// deleted by some record at or after the inserting one, is absent from
/// every final map, for any partition count and any schedule.  (A second
/// insert of the key with no second deletion could survive: one deletion
/// token removes only the first copy it meets.)
pub proof fn lemma_deleted_key_absent(
    records: Seq<(Seq<Key>, Seq<(i32, Seq<char>)>, Seq<Key>)>,
    schedule: Seq<usize>,
    n: nat,
    r: int,
    i: int,
    dl: int,
    k: Key,
)
    requires
        n >= 1,
        schedule.len() == records.len(),
        forall|t2: int| 0 <= t2 < schedule.len() ==> (#[trigger] schedule[t2]) < n,
        0 <= r <= dl < records.len(),
        0 <= i < records[r].0.len(),
        records[r].0[i] == k,
        forall|q: int| 0 <= q < records[r].0.len() && q != i ==> (#[trigger] records[r].0[q]) != k,
        forall|t2: int|
            0 <= t2 < records.len() && t2 != r ==> !rec_inserts(#[trigger] records[t2], k),
        rec_deletes(records[dl], k),
    ensures
        forall|q: int|
            0 <= q < n ==> !(#[trigger] final_model(records, schedule, n)[q]).contains_key(k),
{
    let len = records.len() as int;
    lemma_p2_state(records, schedule, n, r, i, dl, k, len);
    assert(records.take(len) =~= records);
    assert(schedule.take(len) =~= schedule);
    let d = run_model(records, schedule, n).0;
    let l = run_model(records, schedule, n).1;
    assert forall|q: int|
        0 <= q < n implies !(#[trigger] final_model(records, schedule, n)[q]).contains_key(k) by {
        lemma_remove_all_subset(d[q], l, k);
        assert(!d[q].contains_key(k));
    }
}

} // verus!
