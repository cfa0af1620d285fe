use aster::acb::{CausalBroadcast, Payload};
use aster::clock::Clock;
use aster::dgm::{contains_node, GroupMembership, Operation};
use aster::key::{NodeId, SecretKey};

fn key(n: u8) -> SecretKey {
    SecretKey::from_bytes(&[n; 32])
}

fn id(n: u8) -> NodeId {
    key(n).public()
}

fn has_members(group: &GroupMembership, expected: &[NodeId]) -> bool {
    let members = group.evaluate_members();
    members.len() == expected.len() && expected.iter().all(|m| contains_node(&members, m))
}

fn sync(from: &GroupMembership, to: &mut GroupMembership) {
    for message in from.acb.received() {
        assert!(to.acb.try_receive(message));
    }
    assert!(to.acb.deliver_all().is_ok());
}

fn join(group: &GroupMembership, secret_key: SecretKey) -> GroupMembership {
    GroupMembership::from_causal_broadcast(CausalBroadcast::from_messages(
        secret_key,
        group.acb.local_clock().clone(),
        group.acb.received_copy(),
    ))
}

#[test]
fn founder_is_the_one_member() {
    let group = GroupMembership::with_id(key(1), 42);
    assert_eq!(group.group_id(), 42);
    assert_eq!(group.root_id(), Some(42));
    assert_eq!(group.evaluate_members(), vec![id(1)]);
    assert_eq!(group.members(), Some(vec![id(1)]));
}

#[test]
fn new_groups_have_different_identifiers() {
    let a = GroupMembership::new(key(1));
    let b = GroupMembership::new(key(1));
    assert_ne!(a.group_id(), b.group_id());
    assert_eq!(a.evaluate_members(), vec![id(1)]);
}

#[test]
fn members_are_added_and_removed() {
    let mut group = GroupMembership::with_id(key(1), 42);
    let added = group.add_member(id(2));
    assert_eq!(added.inner.payload, Operation::Add(id(2)));
    assert!(has_members(&group, &[id(1), id(2)]));
    group.add_member(id(2));
    assert!(has_members(&group, &[id(1), id(2)]));
    let removed = group.remove_member(id(2));
    assert_eq!(removed.inner.payload, Operation::Remove(id(2)));
    assert!(has_members(&group, &[id(1)]));
    group.remove_member(id(3));
    assert!(has_members(&group, &[id(1)]));
    assert_eq!(group.group_id(), 42);
}

#[test]
fn strangers_cannot_change_a_group() {
    let mut group = GroupMembership::with_id(key(1), 42);
    let mut stranger = join(&group, key(2));
    stranger.add_member(id(2));
    sync(&stranger, &mut group);
    assert_eq!(group.acb.delivered().len(), 2);
    assert!(has_members(&group, &[id(1)]));
}

#[test]
fn removed_members_cannot_change_a_group() {
    let mut alice = GroupMembership::with_id(key(1), 42);
    alice.add_member(id(2));
    let mut bob = join(&alice, key(2));
    bob.add_member(id(3));
    sync(&bob, &mut alice);
    alice.remove_member(id(2));
    sync(&alice, &mut bob);
    bob.add_member(id(4));
    sync(&bob, &mut alice);
    assert!(has_members(&alice, &[id(1), id(3)]));
    assert!(has_members(&bob, &[id(1), id(3)]));
}

#[test]
fn nodes_agree_on_members() {
    let mut alice = GroupMembership::with_id(key(1), 42);
    alice.add_member(id(2));
    let mut bob = join(&alice, key(2));
    alice.add_member(id(3));
    bob.add_member(id(4));
    bob.remove_member(id(4));
    alice.add_member(id(4));
    sync(&alice, &mut bob);
    sync(&bob, &mut alice);
    assert_eq!(alice.acb.ordered(), bob.acb.ordered());
    assert_eq!(alice.members(), bob.members());
    assert_eq!(alice.group_id(), bob.group_id());
}

#[test]
fn group_without_root_has_no_members() {
    let empty = GroupMembership::from_causal_broadcast(CausalBroadcast::new(key(1)));
    assert_eq!(empty.members(), None);
    assert_eq!(empty.root_id(), None);

    let mut acb = CausalBroadcast::new(key(1));
    acb.make_message(Operation::Add(id(2)));
    let unrooted = GroupMembership::from_causal_broadcast(acb);
    assert_eq!(unrooted.members(), None);
    assert_eq!(unrooted.root_id(), None);
}

#[test]
fn group_is_founded_once() {
    let mut acb = CausalBroadcast::new(key(1));
    acb.make_message(Operation::Root { group_id: 1, root_member: id(1) });
    acb.make_message(Operation::Root { group_id: 2, root_member: id(1) });
    let group = GroupMembership::from_causal_broadcast(acb);
    assert_eq!(group.members(), None);
    assert_eq!(group.root_id(), Some(1));
}

#[test]
fn undelivered_operations_do_not_count() {
    let mut alice = GroupMembership::with_id(key(1), 42);
    alice.add_member(id(2));
    let waiting = GroupMembership::from_causal_broadcast(CausalBroadcast::from_messages(
        key(2),
        Clock::new(),
        alice.acb.received_copy(),
    ));
    assert_eq!(waiting.members(), None);
}

#[test]
fn operations_are_signed_as_postcard_writes_them() {
    let member = iroh_base::SecretKey::from_bytes(&[2; 32]).public();
    let root = Operation::Root { group_id: 300, root_member: id(2) };
    assert_eq!(
        root.encode(),
        postcard::to_stdvec(&(0u32, 300u64, member)).unwrap()
    );
    assert_eq!(
        Operation::Add(id(2)).encode(),
        postcard::to_stdvec(&(1u32, member)).unwrap()
    );
    assert_eq!(
        Operation::Remove(id(2)).encode(),
        postcard::to_stdvec(&(2u32, member)).unwrap()
    );
    assert_eq!(root.duplicate(), root);
    assert_ne!(Operation::Add(id(2)).encode(), Operation::Remove(id(2)).encode());
}

#[test]
fn operations_of_a_group_are_genuine() {
    let mut group = GroupMembership::with_id(key(1), 42);
    let added = group.add_member(id(2));
    let removed = group.remove_member(id(2));
    assert!(added.is_genuine());
    assert!(removed.is_genuine());
    let received = group.acb.received_copy();
    assert_eq!(received.len(), 3);
    assert_eq!(received[0].public_key, id(1));
    assert_eq!(received[0].inner.clock.get(id(1)), 1);
    assert_eq!(
        received[0].inner.payload,
        Operation::Root { group_id: 42, root_member: id(1) }
    );
    assert!(received.iter().all(|message| message.is_genuine()));
}

#[test]
fn welcomed_member_hears_one_message_at_a_time() {
    let mut alice = GroupMembership::with_id(key(1), 42);
    alice.add_member(id(2));
    let mut bob = join(&alice, key(2));
    let third = alice.add_member(id(3));
    let fourth = alice.add_member(id(4));
    assert!(bob.acb.try_receive(&fourth));
    assert_eq!(bob.acb.deliver_all(), Ok(false));
    assert!(has_members(&bob, &[id(1), id(2)]));
    assert!(bob.acb.try_receive(&third));
    assert_eq!(bob.acb.deliver_all(), Ok(true));
    assert!(has_members(&bob, &[id(1), id(2), id(3), id(4)]));
    assert_eq!(bob.acb.ordered(), alice.acb.ordered());
}

#[test]
fn leaving_is_final() {
    let mut alice = GroupMembership::with_id(key(1), 42);
    alice.add_member(id(2));
    let mut bob = join(&alice, key(2));
    bob.remove_member(id(2));
    bob.add_member(id(2));
    sync(&bob, &mut alice);
    assert!(has_members(&alice, &[id(1)]));
    assert!(has_members(&bob, &[id(1)]));
}
