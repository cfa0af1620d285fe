use arbtest::arbtest;
use aster::acb::{CausalBroadcast, EndlessDelivery, Message, SignedMessage};
use aster::clock::Clock;
use aster::key::{SecretKey, Signature};

type Operation = u32;

struct Actor {
    acb: CausalBroadcast<Operation>,
}

impl Actor {
    fn new(secret_key: SecretKey) -> Self {
        Self {
            acb: CausalBroadcast::new(secret_key),
        }
    }

    fn perform(&mut self, op: Operation) {
        self.acb.make_message(op);
    }
}

fn sync(alice: &mut Actor, bob: &mut Actor) {
    for msg in alice.acb.received() {
        assert!(bob.acb.try_receive(msg));
    }
    for msg in bob.acb.received() {
        assert!(alice.acb.try_receive(msg));
    }
}

#[test]
fn same_final_order() {
    arbtest(|u| {
        let alice_sk = SecretKey::generate();
        let bob_sk = SecretKey::generate();
        let charlie_sk = SecretKey::generate();

        let mut alice = Actor::new(alice_sk);
        let mut bob = Actor::new(bob_sk);
        let mut charlie = Actor::new(charlie_sk);

        let mut seq = 0;

        while !u.is_empty() {
            match *u.choose(&[
                "alice_operation",
                "bob_operation",
                "charlie_operation",
                "ab_sync",
                "ac_sync",
                "bc_sync",
            ])? {
                "alice_operation" => {
                    println!("alice_operation");
                    alice.perform(rand::random::<Operation>());
                    seq += 1;
                }
                "bob_operation" => {
                    println!("bob_operation");
                    bob.perform(rand::random::<Operation>());
                    seq += 1;
                }
                "charlie_operation" => {
                    println!("charlie_operation");
                    charlie.perform(rand::random::<Operation>());
                    seq += 1;
                }
                "ab_sync" => {
                    println!("ab_sync");
                    sync(&mut alice, &mut bob);
                    while let Some(_next) = alice.acb.deliver_next() {}
                    while let Some(_next) = bob.acb.deliver_next() {}
                }
                "ac_sync" => {
                    println!("ac_sync");
                    sync(&mut alice, &mut charlie);
                    while let Some(_next) = alice.acb.deliver_next() {}
                    while let Some(_next) = charlie.acb.deliver_next() {}
                }
                "bc_sync" => {
                    println!("bc_sync");
                    sync(&mut bob, &mut charlie);
                    while let Some(_next) = bob.acb.deliver_next() {}
                    while let Some(_next) = charlie.acb.deliver_next() {}
                }
                _ => unreachable!(),
            }
        }

        sync(&mut alice, &mut bob);
        sync(&mut alice, &mut charlie);
        sync(&mut bob, &mut charlie);

        while let Some(_next) = alice.acb.deliver_next() {}
        while let Some(_next) = bob.acb.deliver_next() {}
        while let Some(_next) = charlie.acb.deliver_next() {}

        // should have delivered all messages
        assert!(alice.acb.delivered().len() == seq);
        assert!(bob.acb.delivered().len() == seq);
        assert!(charlie.acb.delivered().len() == seq);

        // should have same clocks
        assert!(alice.acb.local_clock().eq(bob.acb.local_clock()));
        assert!(alice.acb.local_clock().eq(charlie.acb.local_clock()));
        assert!(bob.acb.local_clock().eq(charlie.acb.local_clock()));

        // should be in the same order
        assert_eq!(alice.acb.ordered(), bob.acb.ordered());
        assert_eq!(alice.acb.ordered(), charlie.acb.ordered());
        assert_eq!(bob.acb.ordered(), charlie.acb.ordered());

        Ok(())
    });
}

fn key(n: u8) -> SecretKey {
    SecretKey::from_bytes(&[n; 32])
}

fn payloads(messages: &[&SignedMessage<Operation>]) -> Vec<u32> {
    messages.iter().map(|m| m.inner.payload).collect()
}

#[test]
fn made_message_is_numbered_and_genuine() {
    let mut acb = CausalBroadcast::new(key(1));
    let first = acb.make_message(7);
    let second = acb.make_message(8);
    assert_eq!(first.seq(), 1);
    assert_eq!(second.seq(), 2);
    assert_eq!(first.public_key, key(1).public());
    assert_eq!(acb.local_id(), key(1).public());
    assert!(first.is_genuine());
    assert!(first.inner.clock.happens_before(&second.inner.clock));
    assert_eq!(acb.local_clock().get(acb.local_id()), 2);
    assert_eq!(acb.received().count(), 2);
    assert_eq!(payloads(&acb.delivered()), vec![7, 8]);
    assert_eq!(acb.received_copy(), vec![first, second]);
}

#[test]
fn forged_message_is_refused() {
    let mut alice = CausalBroadcast::new(key(1));
    let mut bob: CausalBroadcast<Operation> = CausalBroadcast::new(key(2));
    let mut forged = alice.make_message(7);
    forged.inner.payload = 8;
    assert!(!forged.is_genuine());
    assert!(!bob.try_receive(&forged));
    assert_eq!(bob.received().count(), 0);

    let mut stolen = alice.make_message(9);
    stolen.public_key = key(3).public();
    assert!(!bob.try_receive(&stolen));
}

#[test]
fn message_is_received_once() {
    let mut alice = CausalBroadcast::new(key(1));
    let mut bob = CausalBroadcast::new(key(2));
    let message = alice.make_message(7);
    assert!(bob.try_receive(&message));
    assert!(bob.try_receive(&message));
    bob.receive(&message);
    assert_eq!(bob.received().count(), 1);
}

#[test]
fn delivery_waits_for_the_causal_past() {
    let mut alice = CausalBroadcast::new(key(1));
    let mut bob = CausalBroadcast::new(key(2));
    let mut charlie = CausalBroadcast::new(key(3));
    let question = alice.make_message(1);
    assert!(bob.try_receive(&question));
    assert!(bob.deliver_next().is_some());
    let answer = bob.make_message(2);

    assert!(charlie.try_receive(&answer));
    assert!(charlie.deliver_next().is_none());
    assert!(charlie.delivered().is_empty());
    assert!(charlie.try_receive(&question));
    assert_eq!(charlie.deliver_all(), Ok(true));
    assert_eq!(charlie.deliver_all(), Ok(false));
    assert_eq!(payloads(&charlie.ordered()), vec![1, 2]);
}

#[test]
fn messages_received_one_by_one_converge() {
    let mut alice = CausalBroadcast::new(key(1));
    let mut bob = CausalBroadcast::new(key(2));
    let mut charlie = CausalBroadcast::new(key(3));
    let first = alice.make_message(1);
    let second = alice.make_message(2);
    // bob hears the second first, and sends in between
    assert!(bob.try_receive(&second));
    assert_eq!(bob.deliver_all(), Ok(false));
    let third = bob.make_message(3);
    assert!(bob.try_receive(&first));
    assert_eq!(bob.deliver_all(), Ok(true));
    let fourth = bob.make_message(4);

    for message in [&fourth, &second, &third, &first] {
        assert!(charlie.try_receive(message));
        assert!(charlie.deliver_all().is_ok());
    }
    for message in [&fourth, &third] {
        assert!(alice.try_receive(message));
        assert!(alice.deliver_all().is_ok());
    }
    assert_eq!(charlie.delivered().len(), 4);
    assert_eq!(alice.delivered().len(), 4);
    assert_eq!(bob.delivered().len(), 4);
    assert_eq!(alice.ordered(), bob.ordered());
    assert_eq!(alice.ordered(), charlie.ordered());
    assert!(alice.local_clock().lte(charlie.local_clock()));
    assert!(charlie.local_clock().lte(alice.local_clock()));
}

#[test]
fn deliveries_come_out_in_turn_and_once() {
    let mut alice = CausalBroadcast::new(key(1));
    let mut bob = CausalBroadcast::new(key(2));
    let mut charlie = CausalBroadcast::new(key(3));
    let mut sent = Vec::new();
    for n in 0..4 {
        sent.push(alice.make_message(n));
        assert!(bob.try_receive(&sent[sent.len() - 1]));
        assert!(bob.deliver_all().is_ok());
        sent.push(bob.make_message(100 + n));
    }
    charlie.make_message(7);
    let mut out: Vec<SignedMessage<Operation>> = Vec::new();
    for message in sent.iter().rev() {
        assert!(charlie.try_receive(message));
        assert!(charlie.try_receive(message));
        while let Some(next) = charlie.deliver_next() {
            out.push(next.duplicate());
        }
    }
    assert_eq!(out.len(), 8);
    assert!(out.len() <= charlie.received().count());
    for sender in [key(1).public(), key(2).public()] {
        let numbers: Vec<u64> =
            out.iter().filter(|m| m.public_key == sender).map(|m| m.seq()).collect();
        assert_eq!(numbers, vec![1, 2, 3, 4]);
    }
    for (x, m) in out.iter().enumerate() {
        for later in &out[x + 1..] {
            assert!(!later.inner.clock.happens_before(&m.inner.clock));
        }
    }
}

#[test]
fn concurrent_messages_are_ordered_by_sender() {
    let (low, high) = if key(1).public().is_before(&key(2).public()) {
        (key(1), key(2))
    } else {
        (key(2), key(1))
    };
    let mut first = CausalBroadcast::new(low);
    let mut second = CausalBroadcast::new(high);
    let a = first.make_message(1);
    let b = second.make_message(2);
    assert!(first.try_receive(&b));
    assert!(second.try_receive(&a));
    assert_eq!(first.deliver_all(), Ok(true));
    assert_eq!(second.deliver_all(), Ok(true));
    assert_eq!(payloads(&first.ordered()), vec![1, 2]);
    assert_eq!(payloads(&second.ordered()), vec![1, 2]);
    assert!(first.local_clock().eq(second.local_clock()));
}

#[test]
fn message_that_does_not_count_itself_is_not_delivered_forever() {
    let inner = Message {
        clock: Clock::new(),
        payload: 1,
    };
    let odd = SignedMessage {
        inner,
        public_key: key(1).public(),
        signature: Signature { bytes: [0; 64] },
    };
    let mut acb = CausalBroadcast::from_messages(key(2), Clock::new(), vec![odd]);
    assert_eq!(acb.deliver_all(), Err(EndlessDelivery));
}

#[test]
fn broadcast_continues_from_messages() {
    let mut alice = CausalBroadcast::new(key(1));
    alice.make_message(1);
    alice.make_message(2);
    let bob = CausalBroadcast::from_messages(
        key(2),
        alice.local_clock().clone(),
        alice.received_copy(),
    );
    assert_eq!(bob.local_id(), key(2).public());
    assert_eq!(bob.ordered(), alice.ordered());
}

#[test]
fn signed_bytes_are_clock_and_payload() {
    let mut acb = CausalBroadcast::new(key(1));
    let message = acb.make_message(300);
    let id = iroh_base::SecretKey::from_bytes(&[1; 32]).public();
    let plain: (Vec<(iroh_base::PublicKey, u64)>, u32) = (vec![(id, 1)], 300);
    let bytes = postcard::to_stdvec(&plain).unwrap();
    let signature = iroh_base::SecretKey::from_bytes(&[1; 32]).sign(&bytes);
    assert_eq!(message.signature.bytes, signature.to_bytes());
}
