//! A deterministic model of the whole pipeline: records are handed to
//! partitions by a schedule, unresolved deletions walk the ring, and the
//! leftovers are reconciled at the end.

use crate::dict::Dict;
use crate::key::Key;
use crate::parse::{line_views, spec_parse_all};
use crate::partition::{reconcile, remove_all};
use crate::parse::item_views;
use crate::record::consume_spec;
use crate::Error;
use vstd::prelude::*;

verus! {

/// The views of a sequence of dictionaries.
pub open spec fn dict_views(ds: Seq<Dict>) -> Seq<Map<Key, (i32, Seq<char>)>> {
    Seq::new(ds.len(), |i: int| ds[i]@)
}

/// The partition after `at` in a ring of `n`.
pub open spec fn ring_next(at: int, n: int) -> int {
    if at + 1 < n {
        at + 1
    } else {
        0
    }
}

/// One removal token's walk: starting at `at`, visit `remaining` partitions
/// in ring order and remove `k` from the first map found holding it; report
/// whether it was found.
pub open spec fn walk_delete(
    dicts: Seq<Map<Key, (i32, Seq<char>)>>,
    at: int,
    remaining: nat,
    k: Key,
) -> (Seq<Map<Key, (i32, Seq<char>)>>, bool)
    decreases remaining,
{
    if remaining == 0 {
        (dicts, false)
    } else if 0 <= at < dicts.len() && dicts[at].contains_key(k) {
        (dicts.update(at, dicts[at].remove(k)), true)
    } else {
        walk_delete(dicts, ring_next(at, dicts.len() as int), (remaining - 1) as nat, k)
    }
}

pub proof fn lemma_walk_delete_len(
    dicts: Seq<Map<Key, (i32, Seq<char>)>>,
    at: int,
    remaining: nat,
    k: Key,
)
    ensures
        walk_delete(dicts, at, remaining, k).0.len() == dicts.len(),
    decreases remaining,
{
    if remaining > 0 && !(0 <= at < dicts.len() && dicts[at].contains_key(k)) {
        lemma_walk_delete_len(dicts, ring_next(at, dicts.len() as int), (remaining - 1) as nat, k);
    }
}

/// One record's unresolved deletions, each walked around the ring from the
/// owner partition `p`'s successor; a key found nowhere joins the leftovers.
pub open spec fn walk_all(
    dicts: Seq<Map<Key, (i32, Seq<char>)>>,
    leftover: Seq<Key>,
    nf: Seq<Key>,
    p: int,
) -> (Seq<Map<Key, (i32, Seq<char>)>>, Seq<Key>)
    decreases nf.len(),
{
    if nf.len() == 0 {
        (dicts, leftover)
    } else {
        let (d1, l1) = walk_all(dicts, leftover, nf.drop_last(), p);
        let n = dicts.len() as int;
        let (d2, found) = walk_delete(
            d1,
            ring_next(p, n),
            (if n >= 1 {
                n - 1
            } else {
                0
            }) as nat,
            nf.last(),
        );
        if found {
            (d2, l1)
        } else {
            (d2, l1.push(nf.last()))
        }
    }
}

pub proof fn lemma_walk_all_len(
    dicts: Seq<Map<Key, (i32, Seq<char>)>>,
    leftover: Seq<Key>,
    nf: Seq<Key>,
    p: int,
)
    ensures
        walk_all(dicts, leftover, nf, p).0.len() == dicts.len(),
    decreases nf.len(),
{
    if nf.len() > 0 {
        lemma_walk_all_len(dicts, leftover, nf.drop_last(), p);
        let n = dicts.len() as int;
        lemma_walk_delete_len(
            walk_all(dicts, leftover, nf.drop_last(), p).0,
            ring_next(p, n),
            (if n >= 1 {
                n - 1
            } else {
                0
            }) as nat,
            nf.last(),
        );
    }
}

/// One record processed at partition `p`: its inserts and deletes applied to
/// `p`'s map, then the unresolved deletions walked around the ring.
pub open spec fn step_record(
    dicts: Seq<Map<Key, (i32, Seq<char>)>>,
    leftover: Seq<Key>,
    rec: (Seq<Key>, Seq<(i32, Seq<char>)>, Seq<Key>),
    p: int,
) -> (Seq<Map<Key, (i32, Seq<char>)>>, Seq<Key>) {
    let (m2, nf) = consume_spec(dicts[p], rec);
    walk_all(dicts.update(p, m2), leftover, nf, p)
}

/// The sequential model of the pipeline: records processed in order, record
/// `t` at partition `schedule[t]`.
pub open spec fn run_model(
    records: Seq<(Seq<Key>, Seq<(i32, Seq<char>)>, Seq<Key>)>,
    schedule: Seq<usize>,
    n: nat,
) -> (Seq<Map<Key, (i32, Seq<char>)>>, Seq<Key>)
    decreases records.len(),
{
    if records.len() == 0 {
        (Seq::new(n, |i: int| Map::empty()), Seq::empty())
    } else {
        let (d, l) = run_model(records.drop_last(), schedule.drop_last(), n);
        step_record(d, l, records.last(), schedule[records.len() - 1] as int)
    }
}

/// The final maps: the run's maps with every leftover key swept from each.
pub open spec fn final_model(
    records: Seq<(Seq<Key>, Seq<(i32, Seq<char>)>, Seq<Key>)>,
    schedule: Seq<usize>,
    n: nat,
) -> Seq<Map<Key, (i32, Seq<char>)>> {
    let (d, l) = run_model(records, schedule, n);
    Seq::new(n, |i: int| remove_all(d[i], l))
}

/// Runs the pipeline deterministically: decodes every line, hands record
/// `t` to partition `schedule[t]`, walks each unresolved deletion around the
/// ring of `dicts` partitions, and sweeps the leftovers at the end.  A
/// malformed line fails the whole run and no maps are returned.
pub fn run_schedule(lines: &Vec<String>, schedule: &Vec<usize>, dicts: usize) -> (r: Result<
    Vec<Dict>,
    Error,
>)
    requires
        dicts >= 1,
        schedule@.len() == lines@.len(),
        forall|t: int| 0 <= t < schedule@.len() ==> (#[trigger] schedule@[t]) < dicts,
    ensures
        match r {
            Ok(ds) => {
                &&& spec_parse_all(line_views(lines@)) is Ok
                &&& ds@.len() == dicts
                &&& forall|i: int| 0 <= i < dicts ==> (#[trigger] ds@[i]).wf()
                &&& forall|i: int|
                    0 <= i < dicts ==> (#[trigger] ds@[i])@ == final_model(
                        spec_parse_all(line_views(lines@))->Ok_0,
                        schedule@,
                        dicts as nat,
                    )[i]
            },
            Err(e) => {
                &&& spec_parse_all(line_views(lines@)) is Err
                &&& e == Error::ParseError(spec_parse_all(line_views(lines@))->Err_0)
            },
        },
{
    let mut items = match crate::parse::parse_records(lines) {
        Ok(items) => items,
        Err(e) => {
            return Err(Error::ParseError(e));
        },
    };
    proof {
        crate::parse::lemma_parse_all_len(line_views(lines@));
    }
    let ghost rv = item_views(items@);
    let ghost sv = schedule@;
    let rn = items.len();
    let mut ds: Vec<Dict> = Vec::new();
    let mut q: usize = 0;
    while q < dicts
        invariant
            q <= dicts,
            ds@.len() == q,
            forall|j: int|
                0 <= j < q ==> (#[trigger] ds@[j]).wf() && ds@[j]@ == Map::<
                    Key,
                    (i32, Seq<char>),
                >::empty(),
        decreases dicts - q,
    {
        ds.push(Dict::new());
        q = q + 1;
    }
    proof {
        assert(dict_views(ds@) =~= Seq::new(dicts as nat, |i: int| Map::<
            Key,
            (i32, Seq<char>),
        >::empty()));
        assert(rv.take(0) =~= Seq::<(Seq<Key>, Seq<(i32, Seq<char>)>, Seq<Key>)>::empty());
        assert(sv.take(0) =~= Seq::<usize>::empty());
    }
    let mut leftover: Vec<Key> = Vec::new();
    let mut idx: usize = 0;
    while idx < rn
        invariant
            idx <= rn,
            dicts >= 1,
            rn == rv.len(),
            sv.len() == rv.len(),
            sv == schedule@,
            forall|t: int| 0 <= t < sv.len() ==> (#[trigger] sv[t]) < dicts,
            items@.len() == rn - idx,
            forall|t: int|
                0 <= t < items@.len() ==> (#[trigger] items@[t]).wf() && items@[t]@ == rv[t + idx],
            ds@.len() == dicts,
            forall|j: int| 0 <= j < dicts ==> (#[trigger] ds@[j]).wf(),
            dict_views(ds@) == run_model(rv.take(idx as int), sv.take(idx as int), dicts as nat).0,
            leftover@ == run_model(rv.take(idx as int), sv.take(idx as int), dicts as nat).1,
        decreases rn - idx,
    {
        let p = schedule[idx];
        let item = items.remove(0);
        proof {
            assert(item@ == rv[idx as int]);
            assert(forall|t: int|
                0 <= t < items@.len() ==> (#[trigger] items@[t]).wf() && items@[t]@ == rv[t + idx
                    + 1]);
        }
        let ghost d0 = dict_views(ds@);
        let ghost l0 = leftover@;
        let mut d = ds.remove(p);
        let nf = item.consume(&mut d);
        ds.insert(p, d);
        proof {
            assert(dict_views(ds@) =~= d0.update(p as int, consume_spec(d0[p as int], rv[idx as int]).0));
            assert(nf@ == consume_spec(d0[p as int], rv[idx as int]).1);
        }
        let ghost wbase = dict_views(ds@);
        let ghost nfv = nf@;
        proof {
            assert(walk_all(wbase, l0, nfv.take(0), p as int) == (wbase, l0)) by {
                assert(nfv.take(0) =~= Seq::<Key>::empty());
            }
        }
        let nfn = nf.len();
        let mut j: usize = 0;
        while j < nfn
            invariant
                j <= nfn,
                nfn == nfv.len(),
                nf@ == nfv,
                dicts >= 1,
                p < dicts,
                ds@.len() == dicts,
                wbase.len() == dicts,
                forall|q2: int| 0 <= q2 < dicts ==> (#[trigger] ds@[q2]).wf(),
                dict_views(ds@) == walk_all(wbase, l0, nfv.take(j as int), p as int).0,
                leftover@ == walk_all(wbase, l0, nfv.take(j as int), p as int).1,
            decreases nfn - j,
        {
            let k = nf[j];
            proof {
                assert(nfv.take(j as int + 1).drop_last() =~= nfv.take(j as int));
                assert(nfv.take(j as int + 1).last() == nfv[j as int]);
                lemma_walk_all_len(wbase, l0, nfv.take(j as int), p as int);
            }
            let ghost w0 = dict_views(ds@);
            let ghost a0 = ring_next(p as int, dicts as int);
            let mut at: usize = if p + 1 < dicts {
                p + 1
            } else {
                0
            };
            let mut rem: usize = dicts - 1;
            let mut found: bool = false;
            while rem > 0 && !found
                invariant
                    at < dicts,
                    rem <= dicts,
                    dicts >= 1,
                    ds@.len() == dicts,
                    forall|q2: int| 0 <= q2 < dicts ==> (#[trigger] ds@[q2]).wf(),
                    walk_delete(w0, a0, (dicts - 1) as nat, k) == (if found {
                        (dict_views(ds@), true)
                    } else {
                        walk_delete(dict_views(ds@), at as int, rem as nat, k)
                    }),
                decreases rem,
            {
                let ghost pre = dict_views(ds@);
                let mut dd = ds.remove(at);
                let r = dd.remove(&k);
                ds.insert(at, dd);
                proof {
                    assert(dict_views(ds@) =~= pre.update(at as int, dd@));
                }
                match r {
                    Some(_) => {
                        found = true;
                    },
                    None => {
                        proof {
                            assert(dd@ =~= pre[at as int]);
                            assert(dict_views(ds@) =~= pre);
                        }
                    },
                }
                at = if at + 1 < dicts {
                    at + 1
                } else {
                    0
                };
                rem = rem - 1;
            }
            if !found {
                leftover.push(k);
            }
            j = j + 1;
        }
        proof {
            assert(nfv.take(nfn as int) =~= nfv);
            assert(rv.take(idx as int + 1).drop_last() =~= rv.take(idx as int));
            assert(sv.take(idx as int + 1).drop_last() =~= sv.take(idx as int));
            assert(rv.take(idx as int + 1).last() == rv[idx as int]);
            assert(sv.take(idx as int + 1)[idx as int] == sv[idx as int]);
            assert(rv.take(idx as int + 1).len() == idx + 1);
        }
        idx = idx + 1;
    }
    proof {
        assert(rv.take(rn as int) =~= rv);
        assert(sv.take(rn as int) =~= sv);
    }
    let result = reconcile(ds, &leftover);
    proof {
        assert(forall|i: int|
            0 <= i < dicts ==> (#[trigger] result@[i])@ == final_model(rv, sv, dicts as nat)[i]);
    }
    Ok(result)
}

} // verus!
