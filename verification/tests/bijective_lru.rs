use geph_nat::BijectiveLru;
use geph_nat::Endpoint;
use geph_nat::Flow;
use geph_nat::TransKey;

fn rem() -> Endpoint {
    Endpoint { ip: 900, port: 90 }
}

fn key(n: u16) -> TransKey {
    TransKey { port: n, remote: rem() }
}

fn flow(n: u16) -> Flow {
    Flow {
        internal: Endpoint { ip: n as u32, port: n },
        remote: rem(),
    }
}

// tests that things don't get pushed out when table is not full
#[test]
fn test_1() {
    let mut table = BijectiveLru::new(1);
    table.push(key(1), flow(2));
    assert_eq!(table.get_value(&key(1)).unwrap(), flow(2));
    assert_eq!(table.get_key(&flow(2)).unwrap(), key(1));
}

// tests that the oldest entries get pushed out when table is full; the
// lookup on the key side refreshes the whole pair, and eviction removes a
// pair together with its partner, so the flow side of the evicted pair is
// gone too.
#[test]
fn test2() {
    let mut table = BijectiveLru::new(2);
    table.push(key(1), flow(2));
    table.push(key(3), flow(4));
    assert_eq!(table.get_value(&key(1)), Some(flow(2)));
    table.push(key(5), flow(6));

    assert_eq!(table.get_value(&key(3)), None);
    assert_eq!(table.get_key(&flow(4)), None);
}

#[test]
fn test3() {
    let mut table = BijectiveLru::new(2);
    table.push(key(1), flow(2));
    table.push(key(3), flow(4));
    table.push(key(5), flow(6));

    assert_eq!(table.get_value(&key(1)), None);

    assert_eq!(table.get_value(&key(5)).unwrap(), flow(6));
    assert_eq!(table.get_value(&key(3)).unwrap(), flow(4));
}

// Bijection: after any sequence of inserts, every present key's flow maps
// back to the key, and every present flow's key maps forward to the flow.
#[test]
fn bijection_after_inserts() {
    let mut table = BijectiveLru::new(4);
    for n in 1u16..=10 {
        table.push(key(n), flow(n + 100));
        for m in 1u16..=n {
            if let Some(found) = table.get_value(&key(m)) {
                assert_eq!(table.get_key(&found), Some(key(m)));
            }
            if let Some(found) = table.get_key(&flow(m + 100)) {
                assert_eq!(table.get_value(&found), Some(flow(m + 100)));
            }
        }
    }
}

// Inserting a pair that reuses an existing flow removes the stale key, so
// the mapping never becomes one-to-many.
#[test]
fn reinsert_same_flow_replaces_key() {
    let mut table = BijectiveLru::new(4);
    table.push(key(1), flow(2));
    table.push(key(3), flow(2));
    assert_eq!(table.get_value(&key(1)), None);
    assert_eq!(table.get_value(&key(3)), Some(flow(2)));
    assert_eq!(table.get_key(&flow(2)), Some(key(3)));
    assert_eq!(table.len(), 1);
}

// Capacity bound: after inserting capacity + 1 distinct pairs with no
// intervening lookups, exactly capacity pairs remain and the evicted pair
// is the first one inserted.
#[test]
fn capacity_bound_evicts_first() {
    let cap: usize = 100;
    let mut table = BijectiveLru::new(cap);
    for n in 0u16..=(cap as u16) {
        table.push(key(n), flow(n + 1000));
    }
    assert_eq!(table.len(), cap);
    assert_eq!(table.get_value(&key(0)), None);
    assert_eq!(table.get_key(&flow(1000)), None);
    for n in 1u16..=(cap as u16) {
        assert_eq!(table.get_value(&key(n)), Some(flow(n + 1000)));
    }
}

// The pair evicted for capacity is reported by push.
#[test]
fn push_reports_eviction() {
    let mut table = BijectiveLru::new(2);
    assert_eq!(table.push(key(1), flow(2)), None);
    assert_eq!(table.push(key(3), flow(4)), None);
    assert_eq!(table.push(key(5), flow(6)), Some((key(1), flow(2))));
}
