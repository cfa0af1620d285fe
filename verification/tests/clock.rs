use aster::clock::Clock;
use aster::key::{NodeId, SecretKey};

fn node(n: u8) -> NodeId {
    SecretKey::from_bytes(&[n; 32]).public()
}

#[test]
fn incr() {
    let alice: NodeId = SecretKey::generate().public();

    let mut clock = Clock::new();

    assert_eq!(clock.get(alice), 0);

    clock.incr(alice);

    assert_eq!(clock.get(alice), 1);
}

#[test]
fn eq() {
    let alice: NodeId = SecretKey::generate().public();

    let mut t1 = Clock::new();
    let mut t2 = Clock::new();

    assert!(t1.eq(&t2));
    assert!(t2.eq(&t1));

    t1.incr(alice);

    assert!(!t1.eq(&t2));
    assert!(!t2.eq(&t1));

    t2.incr(alice);

    assert!(t1.eq(&t2));
    assert!(t2.eq(&t1));
}

#[test]
fn one_value() {
    let alice: NodeId = SecretKey::generate().public();

    let mut t1 = Clock::new();
    let t2 = Clock::new();

    assert!(t1.eq(&t2));
    assert!(t2.eq(&t1));
    assert!(!t1.happens_before(&t2));
    assert!(!t2.happens_before(&t1));
    assert!(!t1.happens_after(&t2));
    assert!(!t2.happens_after(&t1));
    assert!(!t1.concurrent_with(&t2));
    assert!(!t2.concurrent_with(&t1));

    t1.incr(alice);

    assert!(!t1.eq(&t2));
    assert!(!t2.eq(&t1));
    assert!(!t1.happens_before(&t2));
    assert!(t2.happens_before(&t1));
    assert!(t1.happens_after(&t2));
    assert!(!t2.happens_after(&t1));
    assert!(!t1.concurrent_with(&t2));
    assert!(!t2.concurrent_with(&t1));
}

#[test]
fn concurrent() {
    let alice: NodeId = SecretKey::generate().public();
    let bob: NodeId = SecretKey::generate().public();

    let mut t1 = Clock::new();
    let mut t2 = Clock::new();

    assert!(t1.eq(&t2));
    assert!(t2.eq(&t1));
    assert!(!t1.happens_before(&t2));
    assert!(!t2.happens_before(&t1));
    assert!(!t1.happens_after(&t2));
    assert!(!t2.happens_after(&t1));
    assert!(!t1.concurrent_with(&t2));
    assert!(!t2.concurrent_with(&t1));

    t1.incr(alice);
    t2.incr(bob);

    assert!(!t1.eq(&t2));
    assert!(!t2.eq(&t1));
    assert!(!t1.happens_before(&t2));
    assert!(!t2.happens_before(&t1));
    assert!(!t1.happens_after(&t2));
    assert!(!t2.happens_after(&t1));
    assert!(t1.concurrent_with(&t2));
    assert!(t2.concurrent_with(&t1));
}

#[test]
fn merge() {
    let alice: NodeId = SecretKey::generate().public();

    let mut t1 = Clock::new();
    let mut t2 = Clock::new();

    t1.incr(alice);

    assert_eq!(t2.get(alice), 0);
    t2.merge(&t1);
    assert_eq!(t2.get(alice), 1);
}

#[test]
fn merge_is_least_upper_bound() {
    let (a, b, c) = (node(1), node(2), node(3));
    let x = Clock { inner: vec![(a, 3), (b, 1)] };
    let y = Clock { inner: vec![(b, 4), (c, 2)] };

    let mut merged = x.clone();
    merged.merge(&y);
    assert_eq!(merged.inner, vec![(a, 3), (b, 4), (c, 2)]);
    assert!(x.lte(&merged));
    assert!(y.lte(&merged));

    let bound = Clock { inner: vec![(a, 3), (b, 5), (c, 2)] };
    assert!(merged.lte(&bound));

    let mut other_way = y.clone();
    other_way.merge(&x);
    assert!(other_way.eq(&merged));

    let again = {
        let mut again = merged.clone();
        again.merge(&y);
        again
    };
    assert_eq!(again.inner, merged.inner);
}

#[test]
fn counting_makes_later_clocks() {
    let a = node(1);
    let mut clock = Clock { inner: vec![(a, 1)] };
    let before = clock.clone();
    assert_eq!(clock.incr(a), 2);
    assert!(before.happens_before(&clock));
    assert!(clock.happens_after(&before));
    assert!(before.lte(&clock));
    assert!(!clock.lte(&before));
}

#[test]
fn first_entry_of_a_node_counts() {
    let a = node(1);
    let clock = Clock { inner: vec![(a, 2), (a, 7)] };
    assert_eq!(clock.get(a), 2);
    assert_eq!(clock.get(node(2)), 0);

    let mut other = Clock::new();
    other.merge(&clock);
    assert_eq!(other.get(a), 7);
}

#[test]
fn order_of_clocks_is_transitive() {
    let (a, b) = (node(1), node(2));
    let first = Clock { inner: vec![(a, 1)] };
    let second = Clock { inner: vec![(b, 1), (a, 1)] };
    let third = Clock { inner: vec![(a, 2), (b, 1)] };
    assert!(first.happens_before(&second));
    assert!(second.happens_before(&third));
    assert!(first.happens_before(&third));
}

#[test]
fn clock_entries_are_listed_in_order() {
    let (a, b) = (node(1), node(2));
    let clock = Clock { inner: vec![(b, 1), (a, 5)] };
    let listed: Vec<(NodeId, u64)> = clock.iter().copied().collect();
    assert_eq!(listed, vec![(b, 1), (a, 5)]);
    assert!(clock.names(a));
    assert!(!clock.names(node(3)));
}
