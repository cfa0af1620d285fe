use aster::acb::SignedMessage;
use aster::clock::Clock;
use aster::dgm::{contains_node, GroupMembership, Operation};
use aster::join::Verdict;
use aster::join_code::parse_join_code;
use aster::key::{NodeId, SecretKey};
use aster::proto::{
    check_reply, join_event, reconcile_group_members, Protocol, ProtocolError, ProtocolEvent,
    ProtocolState, Reaction,
};
use aster::sync::{
    alpn, on_connection, on_peer, on_read, on_write, ConnectionEvent, ConnectionStep, Message,
    PeerEvent, PeerStep, ReadEvent, ReadStep, WriteEvent, WriteStep,
};

fn key(n: u8) -> SecretKey {
    SecretKey::from_bytes(&[n; 32])
}

fn id(n: u8) -> NodeId {
    key(n).public()
}

fn founder() -> Protocol {
    let mut protocol = Protocol::new(key(1));
    assert_eq!(protocol.create_group(), Ok(()));
    protocol
}

fn members(protocol: &Protocol) -> Vec<NodeId> {
    protocol.group.as_ref().unwrap().evaluate_members()
}

fn group_id(protocol: &Protocol) -> u64 {
    protocol.group.as_ref().unwrap().group_id()
}

#[test]
fn group_is_created_once() {
    let mut protocol = founder();
    assert_eq!(members(&protocol), vec![id(1)]);
    assert_eq!(protocol.create_group(), Err(ProtocolError::AlreadyInGroup));
    assert_eq!(members(&protocol), vec![id(1)]);
}

#[test]
fn members_are_changed_only_in_a_group() {
    let mut protocol = Protocol::new(key(1));
    assert_eq!(
        protocol.add_group_member(id(2)).err(),
        Some(ProtocolError::NotInGroup)
    );
    assert_eq!(
        protocol.remove_group_member(id(2)).err(),
        Some(ProtocolError::NotInGroup)
    );
    assert!(protocol.group.is_none());
}

#[test]
fn added_member_is_connected_and_removed_member_disconnected() {
    let mut protocol = founder();
    let change = protocol.add_group_member(id(2)).unwrap();
    assert_eq!(change.message.inner.payload, Operation::Add(id(2)));
    let plan = change.plan.unwrap();
    assert_eq!(plan.connect, vec![id(2)]);
    assert!(plan.disconnect.is_empty());
    assert!(contains_node(&members(&protocol), &id(2)));

    protocol.peer_connected(id(2));
    protocol.peer_connected(id(2));
    assert_eq!(protocol.peers, vec![id(2)]);
    let change = protocol.remove_group_member(id(2)).unwrap();
    let plan = change.plan.unwrap();
    assert_eq!(plan.disconnect, vec![id(2)]);
    assert!(plan.connect.is_empty());
    protocol.peer_disconnected(id(2));
    assert!(protocol.peers.is_empty());
}

#[test]
fn plan_leaves_the_node_itself_alone() {
    let plan = reconcile_group_members(
        id(1),
        &vec![id(1), id(2), id(3)],
        &vec![id(1), id(3), id(4), id(5)],
    );
    assert_eq!(plan.disconnect, vec![id(4), id(5)]);
    assert_eq!(plan.connect, vec![id(2)]);
    let plan = reconcile_group_members(id(1), &vec![id(2)], &vec![id(1), id(2)]);
    assert!(plan.disconnect.is_empty());
    assert!(plan.connect.is_empty());
}

#[test]
fn broadcast_goes_to_every_peer() {
    let mut protocol = founder();
    protocol.peer_connected(id(2));
    protocol.peer_connected(id(3));
    let change = protocol.add_group_member(id(4)).unwrap();
    let expected = change.message.duplicate();
    let sent = protocol.broadcast_messages(&vec![change.message]);
    assert_eq!(sent.len(), 2);
    for (i, peer) in [id(2), id(3)].iter().enumerate() {
        assert_eq!(sent[i].0, *peer);
        assert_eq!(
            sent[i].1,
            Message::Sync { messages: vec![expected.duplicate()] }
        );
    }
}

#[test]
fn state_is_polled() {
    let mut alone = Protocol::new(key(1));
    let state = alone.poll_state().unwrap();
    assert!(state.group.is_none());
    assert!(state.peers.is_empty());

    let mut protocol = founder();
    protocol.peer_connected(id(2));
    let state = protocol.poll_state().unwrap();
    assert_eq!(state.peers, vec![id(2)]);
    let group = state.group.unwrap();
    assert_eq!(group.id, group_id(&protocol));
    assert_eq!(group.members, vec![id(1)]);
    assert_eq!(group.join_code.len(), 54);
    assert!(group.join_code.chars().all(|c| c.is_ascii_alphanumeric() || c == '+' || c == '/'));
    let (node, code) = parse_join_code(&group.join_code).unwrap();
    assert_eq!(node, id(1));
    assert_eq!(
        protocol.join.accept(&aster::join::join_request(code)),
        Verdict::Joined(code)
    );
    assert!(ProtocolState::default().group.is_none());
}

#[test]
fn welcome_shares_the_group() {
    let mut alice = founder();
    alice.add_group_member(id(2)).unwrap();
    let (my_group_id, greeting) = alice.sync_connect(true).unwrap();
    assert_eq!(my_group_id, group_id(&alice));

    let mut bob = Protocol::new(key(2));
    let accepted = bob.sync_accept(Some(greeting)).unwrap();
    assert!(accepted.plan.is_none());
    assert!(accepted.remote_clock.eq(alice.group.as_ref().unwrap().acb.local_clock()));
    assert_eq!(group_id(&bob), my_group_id);
    assert_eq!(members(&bob), members(&alice));

    let reply = bob.sync_reply().unwrap();
    let clock = check_reply(my_group_id, Some(reply)).unwrap();
    assert!(clock.eq(alice.group.as_ref().unwrap().acb.local_clock()));
}

#[test]
fn handshake_completes_in_the_same_group() {
    let mut alice = founder();
    alice.add_group_member(id(2)).unwrap();
    let mut bob = Protocol::new(key(2));
    let (my_group_id, greeting) = alice.sync_connect(true).unwrap();
    bob.sync_accept(Some(greeting)).unwrap();
    alice.add_group_member(id(3)).unwrap();

    let (_, greeting) = alice.sync_connect(false).unwrap();
    assert_eq!(
        greeting,
        Message::Handshake {
            group_id: my_group_id,
            local_clock: alice.group.as_ref().unwrap().acb.local_clock().clone(),
        }
    );
    assert!(bob.sync_accept(Some(greeting)).is_ok());
    assert_eq!(bob.group.as_ref().unwrap().acb.received().count(), 2);
    assert!(check_reply(my_group_id, Some(bob.sync_reply().unwrap())).is_ok());
}

#[test]
fn second_welcome_brings_new_messages() {
    let mut alice = founder();
    alice.add_group_member(id(2)).unwrap();
    let mut bob = Protocol::new(key(2));
    bob.sync_accept(Some(alice.sync_connect(true).unwrap().1)).unwrap();
    alice.add_group_member(id(3)).unwrap();
    let accepted = bob.sync_accept(Some(alice.sync_connect(true).unwrap().1)).unwrap();
    let plan = accepted.plan.unwrap();
    assert_eq!(plan.connect.len(), 2);
    assert!(contains_node(&plan.connect, &id(3)));
    assert_eq!(members(&bob).len(), 3);
}

#[test]
fn other_groups_are_refused() {
    let alice = founder();
    let mut bob = Protocol::new(key(2));
    bob.create_group().unwrap();
    let before = group_id(&bob);
    assert_eq!(
        bob.sync_accept(Some(alice.sync_connect(false).unwrap().1)).err(),
        Some(ProtocolError::GroupMismatch)
    );
    assert_eq!(
        bob.sync_accept(Some(alice.sync_connect(true).unwrap().1)).err(),
        Some(ProtocolError::AlreadyInOtherGroup)
    );
    assert_eq!(group_id(&bob), before);
    assert_eq!(members(&bob), vec![id(2)]);
}

#[test]
fn handshake_of_something_else_fails() {
    let mut bob = Protocol::new(key(2));
    assert_eq!(
        bob.sync_accept(None).err(),
        Some(ProtocolError::HandshakeFailed)
    );
    assert_eq!(
        bob.sync_accept(Some(Message::FileList(vec![]))).err(),
        Some(ProtocolError::HandshakeFailed)
    );
    let greeting = Message::Handshake { group_id: 1, local_clock: Clock::new() };
    assert!(bob.sync_accept(Some(greeting)).is_ok());
    assert_eq!(bob.sync_reply().err(), Some(ProtocolError::ReplyNotInGroup));
    assert_eq!(
        bob.sync_connect(true).err(),
        Some(ProtocolError::ConnectNotInGroup)
    );
}

#[test]
fn reply_is_checked() {
    let reply = |group_id| Some(Message::Handshake { group_id, local_clock: Clock::new() });
    assert_eq!(check_reply(1, reply(1)), Ok(Clock::new()));
    assert_eq!(check_reply(1, reply(2)), Err(ProtocolError::ReplyMismatch));
    assert_eq!(check_reply(1, None), Err(ProtocolError::HandshakeFailed));
    assert_eq!(
        check_reply(1, Some(Message::Sync { messages: vec![] })),
        Err(ProtocolError::HandshakeFailed)
    );
}

#[test]
fn messages_of_peers_are_delivered() {
    let mut alice = founder();
    alice.add_group_member(id(2)).unwrap();
    let mut bob = Protocol::new(key(2));
    bob.sync_accept(Some(alice.sync_connect(true).unwrap().1)).unwrap();
    let change = alice.add_group_member(id(3)).unwrap();
    let again = change.message.duplicate();
    let plan = bob.sync_messages(vec![change.message]).unwrap().unwrap();
    assert!(contains_node(&plan.connect, &id(3)));
    assert!(bob.sync_messages(vec![again]).unwrap().is_none());

    let mut nobody = Protocol::new(key(3));
    assert_eq!(
        nobody.sync_messages(vec![]).err(),
        Some(ProtocolError::NotInGroup)
    );
}

fn forged() -> SignedMessage<Operation> {
    let mut group = GroupMembership::with_id(key(9), 1);
    let mut message = group.add_member(id(2));
    message.inner.payload = Operation::Remove(id(2));
    message
}

#[test]
fn forged_messages_are_refused() {
    let mut alice = founder();
    let before = alice.group.as_ref().unwrap().acb.received().count();
    assert_eq!(
        alice.sync_messages(vec![forged()]).err(),
        Some(ProtocolError::BadSignature)
    );
    assert_eq!(alice.group.as_ref().unwrap().acb.received().count(), before);
    let greeting = Message::Welcome {
        group_id: group_id(&alice),
        local_clock: Clock::new(),
        messages: vec![forged()],
    };
    assert_eq!(
        alice.sync_accept(Some(greeting)).err(),
        Some(ProtocolError::BadSignature)
    );
}

#[test]
fn welcome_without_root_is_refused() {
    let mut founder_group = GroupMembership::with_id(key(1), 1);
    let add = founder_group.add_member(id(2));
    let mut message = add.duplicate();
    message.inner.clock = Clock { inner: vec![(id(1), 1)] };
    let mut bob = Protocol::new(key(2));
    let greeting = Message::Welcome {
        group_id: 1,
        local_clock: Clock::new(),
        messages: vec![message],
    };
    assert_eq!(
        bob.sync_accept(Some(greeting)).err(),
        Some(ProtocolError::NotRooted)
    );
    assert!(bob.group.is_none());
    let mut endless = add;
    endless.inner.clock = Clock::new();
    let greeting = Message::Welcome {
        group_id: 1,
        local_clock: Clock::new(),
        messages: vec![endless],
    };
    assert_eq!(
        bob.sync_accept(Some(greeting)).err(),
        Some(ProtocolError::EndlessDelivery)
    );
}

#[test]
fn used_up_numbers_are_told() {
    let mut group = GroupMembership::with_id(key(1), 1);
    let full = Clock { inner: vec![(id(1), u64::MAX)] };
    group.acb.deliver_all().unwrap();
    let messages = group.acb.received_copy();
    let mut protocol = Protocol::new(key(1));
    protocol
        .sync_accept(Some(Message::Welcome { group_id: 1, local_clock: full, messages }))
        .unwrap();
    assert_eq!(
        protocol.add_group_member(id(2)).err(),
        Some(ProtocolError::NumbersUsedUp)
    );
    assert!(protocol.group.is_some());
}

#[test]
fn events_are_handled() {
    let mut protocol = founder();
    match protocol.handle_event::<u8>(ProtocolEvent::AddGroupMember(id(2))) {
        Reaction::Changed(Ok(change)) => assert_eq!(change.plan.unwrap().connect, vec![id(2)]),
        _ => panic!("not changed"),
    }
    match protocol.handle_event(ProtocolEvent::SyncConnection(7u8)) {
        Reaction::Accept(connection) => assert_eq!(connection, 7),
        _ => panic!("not accepted"),
    }
    match protocol.handle_event::<u8>(ProtocolEvent::SyncMessages(vec![])) {
        Reaction::Synced(Ok(plan)) => assert!(plan.is_none()),
        _ => panic!("not synced"),
    }
    assert!(matches!(
        join_event::<u8>(&Verdict::Joined(1), id(3)),
        Some(ProtocolEvent::AddGroupMember(node)) if node == id(3)
    ));
    assert!(join_event::<u8>(&Verdict::Used(1), id(3)).is_none());
}

#[test]
fn protocol_errors_are_told() {
    let told = [
        (ProtocolError::AlreadyInGroup, "already in a group"),
        (ProtocolError::NotInGroup, "not in a group"),
        (ProtocolError::ConnectNotInGroup, "sync_connect failed, not in a group"),
        (
            ProtocolError::ReplyNotInGroup,
            "sync_accept failed, not in a group when replying",
        ),
        (
            ProtocolError::ReplyMismatch,
            "handshake failed, group id reply mismatched",
        ),
        (ProtocolError::GroupMismatch, "handshake failed, group id mismatched"),
        (
            ProtocolError::AlreadyInOtherGroup,
            "handshake failed, got welcome but already in different group",
        ),
        (ProtocolError::HandshakeFailed, "handshake failed"),
        (ProtocolError::BadSignature, "signature verification failed"),
        (
            ProtocolError::NotRooted,
            "must start with root and contain no additional roots",
        ),
        (ProtocolError::EndlessDelivery, "message does not count itself"),
        (ProtocolError::NumbersUsedUp, "no number left for a message"),
    ];
    for (error, text) in told {
        assert_eq!(error.message(), text);
    }
}

#[test]
fn failed_handshakes_close_the_connection() {
    assert!(ProtocolError::ReplyMismatch.closes_peer());
    assert!(ProtocolError::GroupMismatch.closes_peer());
    assert!(ProtocolError::AlreadyInOtherGroup.closes_peer());
    assert!(ProtocolError::HandshakeFailed.closes_peer());
    assert!(!ProtocolError::BadSignature.closes_peer());
    assert!(!ProtocolError::NotRooted.closes_peer());
    assert!(!ProtocolError::EndlessDelivery.closes_peer());
    assert!(!ProtocolError::ReplyNotInGroup.closes_peer());
}

#[test]
fn tasks_stop_when_cancelled() {
    assert!(matches!(on_read::<u8>(ReadEvent::Cancelled), ReadStep::Stop));
    assert!(matches!(on_write::<u8>(WriteEvent::Cancelled), WriteStep::FinishAndStop));
    assert!(matches!(
        on_connection::<u8, u8>(ConnectionEvent::Cancelled),
        ConnectionStep::CloseAndStop
    ));
    assert!(matches!(on_peer(PeerEvent::Cancelled), PeerStep::CloseAndStop));
}

#[test]
fn closing_cancels() {
    assert!(matches!(on_read::<u8>(ReadEvent::Failed), ReadStep::CancelAndStop));
    assert!(matches!(on_read::<u8>(ReadEvent::Finished), ReadStep::CancelAndStop));
    assert!(matches!(
        on_connection::<u8, u8>(ConnectionEvent::Closed),
        ConnectionStep::CancelAndStop
    ));
    assert!(matches!(on_peer(PeerEvent::Closed), PeerStep::Cancel));
    assert!(matches!(on_write::<u8>(WriteEvent::Closed), WriteStep::Stop));
}

#[test]
fn tasks_pass_things_on() {
    assert!(matches!(on_read(ReadEvent::Received(7u8)), ReadStep::Forward(7)));
    assert!(matches!(on_write(WriteEvent::Queued(7u8)), WriteStep::Send(7)));
    assert!(matches!(
        on_connection::<u8, u8>(ConnectionEvent::OpenRequested(7)),
        ConnectionStep::Open(7)
    ));
    assert!(matches!(
        on_connection::<u8, u8>(ConnectionEvent::Accepted(7)),
        ConnectionStep::Forward(7)
    ));
    assert!(matches!(
        on_connection::<u8, u8>(ConnectionEvent::AcceptFailed),
        ConnectionStep::GoOn
    ));
}

#[test]
fn connected_peer_syncs() {
    let mut group = GroupMembership::with_id(key(1), 1);
    let message = group.add_member(id(2));
    match on_peer(PeerEvent::Received(Message::Sync { messages: vec![message.duplicate()] })) {
        PeerStep::Deliver(messages) => assert_eq!(messages, vec![message]),
        _ => panic!("not delivered"),
    }
    let greeting = Message::Handshake { group_id: 1, local_clock: Clock::new() };
    assert!(matches!(on_peer(PeerEvent::Received(greeting)), PeerStep::Unexpected));
    let files = Message::FileList(vec!["a".to_string()]);
    match on_peer(PeerEvent::Received(files)) {
        PeerStep::Show(shown) => assert_eq!(shown, Message::FileList(vec!["a".to_string()])),
        _ => panic!("not shown"),
    }
}

#[test]
fn sync_protocol_has_a_name() {
    assert_eq!(alpn().as_bytes(), b"aster/0");
}
