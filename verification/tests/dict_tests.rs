use read_test::dict::Dict;
use read_test::key::Key;
use read_test::partition::{reconcile, Partition};
use read_test::record::{LineItem, Value};
use read_test::ring::ring_formation;

fn key(upper: u128, lower: u128, tail: u8) -> Key {
    Key { upper, lower, tail }
}

fn value(b: i32, amount: &str) -> Value {
    Value {
        b,
        amount: amount.chars().collect(),
    }
}

#[test]
fn dict_insert_and_remove() {
    let mut d = Dict::new();
    assert_eq!(d.len(), 0);
    d.insert(key(1, 0, 0), value(7, "1.0"));
    d.insert(key(0, 5, 3), value(8, "2.0"));
    assert_eq!(d.len(), 2);
    let removed = d.remove(&key(0, 5, 3)).unwrap();
    assert_eq!(removed.b, 8);
    assert_eq!(d.len(), 1);
    assert!(d.remove(&key(0, 5, 3)).is_none());
}

#[test]
fn dict_insert_replaces_existing_binding() {
    let mut d = Dict::new();
    d.insert(key(1, 2, 3), value(1, "1.0"));
    d.insert(key(1, 2, 3), value(2, "2.0"));
    assert_eq!(d.len(), 1);
    assert_eq!(d.entries()[0].1.b, 2);
}

#[test]
fn dict_iteration_order_is_strictly_increasing() {
    let mut d = Dict::new();
    d.insert(key(2, 0, 0), value(0, "0"));
    d.insert(key(0, 9, 9), value(1, "0"));
    d.insert(key(2, 0, 1), value(2, "0"));
    d.insert(key(0, 9, 8), value(3, "0"));
    d.insert(key(1, 1, 1), value(4, "0"));
    let entries = d.entries();
    assert_eq!(entries.len(), 5);
    for w in entries.windows(2) {
        let a = &w[0].0;
        let b = &w[1].0;
        assert!((a.upper, a.lower, a.tail) < (b.upper, b.lower, b.tail));
    }
}

#[test]
fn consume_inserts_then_deletes_and_reports_not_found() {
    let mut d = Dict::new();
    let item = LineItem {
        keys: vec![key(0, 0, 1), key(0, 0, 2)],
        values: vec![value(5, "1.5"), value(5, "2.5")],
        del_keys: vec![key(0, 0, 1), key(9, 9, 9)],
    };
    let not_found = item.consume(&mut d);
    assert_eq!(not_found, vec![key(9, 9, 9)]);
    assert_eq!(d.len(), 1);
    assert_eq!(d.entries()[0].0, key(0, 0, 2));
}

#[test]
fn ring_formation_adjacency() {
    for count in 1usize..=5 {
        let r = ring_formation(count);
        assert_eq!(r.len(), count);
        for i in 0..count {
            // Partition i sends into its successor's receiving channel.
            let succ = (i + 1) % count;
            assert_eq!(r[i].0, r[succ].1);
            assert_eq!(r[i].1, i);
        }
        // No channel is shared between two partitions.
        for i in 0..count {
            for j in 0..count {
                if i != j {
                    assert_ne!(r[i].0, r[j].0);
                    assert_ne!(r[i].1, r[j].1);
                }
            }
        }
    }
}

#[test]
fn partition_removal_and_forwarding() {
    let mut p = Partition::new();
    let item = LineItem {
        keys: vec![key(0, 0, 1)],
        values: vec![value(1, "1.0")],
        del_keys: vec![],
    };
    let unresolved = p.on_record(item);
    assert!(unresolved.is_empty());
    // A token for a key held here is consumed.
    assert_eq!(p.on_removal(key(0, 0, 1)), None);
    // A token for an absent key is handed back for forwarding.
    assert_eq!(p.on_removal(key(0, 0, 2)), Some(key(0, 0, 2)));
    // A refused forward lands in the leftovers.
    p.on_forward_refused(key(0, 0, 2));
    assert_eq!(p.leftover, vec![key(0, 0, 2)]);
    assert!(!p.predecessor_closed);
    p.on_predecessor_closed();
    assert!(p.predecessor_closed);
}

#[test]
fn reconcile_removes_stranded_keys_from_every_map() {
    // A deletion token was in flight when its target shut down: the key it
    // names must not survive in any map.
    let mut d0 = Dict::new();
    d0.insert(key(0, 0, 1), value(1, "1.0"));
    d0.insert(key(0, 0, 2), value(1, "2.0"));
    let mut d1 = Dict::new();
    d1.insert(key(0, 0, 1), value(2, "3.0"));
    let leftovers = vec![key(0, 0, 1)];
    let swept = reconcile(vec![d0, d1], &leftovers);
    assert_eq!(swept.len(), 2);
    assert_eq!(swept[0].len(), 1);
    assert_eq!(swept[0].entries()[0].0, key(0, 0, 2));
    assert_eq!(swept[1].len(), 0);
}
