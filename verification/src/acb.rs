//! Authenticated causal broadcast.

use crate::clock::{
    at_most, counted, first_entry, has_entry, highest_is_bound, merged, seq_of, seq_of_first,
    seq_of_merged, Clock, Entries,
};
use crate::codec::{clock_bytes, encode_entries, encode_number, varint};
use crate::key::{
    commits_to_neutral_point, ed25519_signature, signature_accepted, NodeId, PublicKey, SecretKey,
    Signature,
};
use crate::order::{causal_order, causal_order_is_permutation, in_order, sort_causally};
use vstd::prelude::*;

verus! {

/// A payload and the clock of its sender when it was sent.
#[derive(Debug, PartialEq, Eq)]
pub struct Message<P> {
    pub clock: Clock,
    pub payload: P,
}

/// A message with its sender and the sender's signature.
#[derive(Debug, PartialEq, Eq)]
pub struct SignedMessage<P> {
    pub inner: Message<P>,
    pub public_key: PublicKey,
    pub signature: Signature,
}

/// A signed message as a value of the model.
pub struct Signed<P> {
    pub clock: Entries,
    pub payload: P,
    pub public_key: PublicKey,
    pub signature: Signature,
}

impl<P> View for SignedMessage<P> {
    type V = Signed<P>;

    open spec fn view(&self) -> Signed<P> {
        Signed {
            clock: self.inner.clock@,
            payload: self.inner.payload,
            public_key: self.public_key,
            signature: self.signature,
        }
    }
}

/// The messages that a list of references points to.
pub open spec fn views<P>(messages: Seq<&SignedMessage<P>>) -> Seq<Signed<P>> {
    messages.map_values(|m: &SignedMessage<P>| m@)
}

/// The messages of a list.
pub open spec fn signed<P>(messages: Seq<SignedMessage<P>>) -> Seq<Signed<P>> {
    messages.map_values(|m: SignedMessage<P>| m@)
}

/// What a group can broadcast.
pub trait Payload: Sized {
    /// The bytes of the payload that are signed.
    spec fn encoding(&self) -> Seq<u8>;

    /// Writes the bytes of the payload that are signed.
    fn encode(&self) -> (bytes: Vec<u8>)
        ensures
            bytes@ == self.encoding(),
    ;

    /// A copy of the payload.
    fn duplicate(&self) -> (copy: Self)
        ensures
            copy == *self,
    ;
}

impl Payload for u32 {
    open spec fn encoding(&self) -> Seq<u8> {
        varint(*self as u64)
    }

    fn encode(&self) -> (bytes: Vec<u8>) {
        encode_number(*self as u64)
    }

    fn duplicate(&self) -> (copy: Self) {
        *self
    }
}

/// The bytes of a message that are signed: its clock and its payload.
pub open spec fn signed_bytes<P: Payload>(clock: Entries, payload: P) -> Seq<u8> {
    clock_bytes(clock) + payload.encoding()
}

/// Whether a message carries a signature of its sender.
pub open spec fn genuine<P: Payload>(m: Signed<P>) -> bool {
    signature_accepted(
        m.public_key.bytes@,
        signed_bytes(m.clock, m.payload),
        m.signature.bytes@,
    )
}

/// The number that a message has among those of its sender.
pub open spec fn number<P>(m: Signed<P>) -> u64 {
    seq_of(m.clock, m.public_key)
}

/// Whether a message with the sender and number of `m` is among `received`.
pub open spec fn known<P>(received: Seq<Signed<P>>, m: Signed<P>) -> bool {
    exists|i: int|
        0 <= i < received.len() && (#[trigger] received[i]).public_key == m.public_key && number(
            received[i],
        ) == number(m)
}

/// The messages after receiving `m`.
pub open spec fn with_message<P>(received: Seq<Signed<P>>, m: Signed<P>) -> Seq<Signed<P>> {
    if known(received, m) {
        received
    } else {
        received.push(m)
    }
}

/// Whether a message can be delivered: it is the next one of its sender, and
/// everything that its sender had seen of other nodes has been delivered.
pub open spec fn deliverable<P>(clock: Entries, m: Signed<P>) -> bool {
    forall|i: int|
        0 <= i < m.clock.len() ==> if (#[trigger] m.clock[i]).0 == m.public_key {
            seq_of(clock, m.clock[i].0) + 1 == m.clock[i].1
        } else {
            m.clock[i].1 <= seq_of(clock, m.clock[i].0)
        }
}

/// Whether `i` is the first message that can be delivered.
pub open spec fn first_deliverable<P>(clock: Entries, received: Seq<Signed<P>>, i: int) -> bool {
    &&& 0 <= i < received.len()
    &&& deliverable(clock, received[i])
    &&& forall|j: int| 0 <= j < i ==> !deliverable(clock, #[trigger] received[j])
}

/// Whether no message can be delivered.
pub open spec fn drained<P>(clock: Entries, received: Seq<Signed<P>>) -> bool {
    forall|i: int| 0 <= i < received.len() ==> !deliverable(clock, #[trigger] received[i])
}

/// The clock after up to `n` deliveries.
pub open spec fn clock_after<P>(clock: Entries, received: Seq<Signed<P>>, n: nat) -> Entries
    decreases n,
{
    if n == 0 {
        clock
    } else {
        let before = clock_after(clock, received, (n - 1) as nat);
        if exists|i: int| first_deliverable(before, received, i) {
            let i = choose|i: int| first_deliverable(before, received, i);
            merged(before, received[i].clock)
        } else {
            before
        }
    }
}

/// The received messages that a clock covers.
pub open spec fn covered<P>(clock: Entries, received: Seq<Signed<P>>) -> Seq<Signed<P>> {
    received.filter(|m: Signed<P>| at_most(m.clock, clock))
}

impl<P> SignedMessage<P> {
    /// The number of the message among those of its sender.
    pub fn seq(&self) -> (seq: u64)
        ensures
            seq == number(self@),
    {
        self.inner.clock.get(self.public_key)
    }
}

impl<P: Payload> SignedMessage<P> {
    /// A copy of the message.
    pub fn duplicate(&self) -> (copy: Self)
        ensures
            copy@ == self@,
    {
        SignedMessage {
            inner: Message {
                clock: self.inner.clock.clone(),
                payload: self.inner.payload.duplicate(),
            },
            public_key: self.public_key,
            signature: self.signature,
        }
    }

    /// Whether the message carries a signature of its sender.
    pub fn is_genuine(&self) -> (yes: bool)
        ensures
            yes == genuine(self@),
    {
        let bytes = message_bytes(&self.inner);
        self.public_key.verify(bytes.as_slice(), &self.signature)
    }
}

/// The bytes of a message that are signed.
fn message_bytes<P: Payload>(message: &Message<P>) -> (bytes: Vec<u8>)
    ensures
        bytes@ == signed_bytes(message.clock@, message.payload),
{
    let mut bytes = encode_entries(&message.clock.inner);
    let mut payload = message.payload.encode();
    bytes.append(&mut payload);
    bytes
}

/// A copy of messages.
pub fn duplicate_all<P: Payload>(messages: &Vec<SignedMessage<P>>) -> (copy: Vec<SignedMessage<P>>)
    ensures
        signed(copy@) == signed(messages@),
{
    let mut copy: Vec<SignedMessage<P>> = Vec::new();
    let mut i: usize = 0;
    while i < messages.len()
        invariant
            i <= messages@.len(),
            copy@.len() == i,
            forall|j: int| 0 <= j < i ==> (#[trigger] copy@[j])@ == messages@[j]@,
        decreases messages@.len() - i,
    {
        copy.push(messages[i].duplicate());
        i = i + 1;
    }
    assert(signed(copy@) =~= signed(messages@));
    copy
}

/// Authenticated causal broadcast: the messages that a node has sent and
/// received, and the clock of those that it has delivered.
pub struct CausalBroadcast<P> {
    /// Key pair of the local node, used for signing
    secret_key: SecretKey,
    /// Clock tracking delivered messages
    clock: Clock,
    /// All received messages, potentially undelivered
    received: Vec<SignedMessage<P>>,
}

/// The state of a causal broadcast as a value of the model.
pub struct Broadcast<P> {
    pub secret_key: SecretKey,
    pub clock: Entries,
    pub received: Seq<Signed<P>>,
}

impl<P> View for CausalBroadcast<P> {
    type V = Broadcast<P>;

    closed spec fn view(&self) -> Broadcast<P> {
        Broadcast {
            secret_key: self.secret_key,
            clock: self.clock@,
            received: signed(self.received@),
        }
    }
}

impl<P: Payload> CausalBroadcast<P> {
    /// A broadcast that has seen nothing.
    pub fn new(secret_key: SecretKey) -> (acb: Self)
        ensures
            acb@.secret_key == secret_key,
            acb@.clock == Entries::empty(),
            acb@.received == Seq::<Signed<P>>::empty(),
    {
        let acb = CausalBroadcast { secret_key, clock: Clock::new(), received: Vec::new() };
        assert(acb@.received =~= Seq::<Signed<P>>::empty());
        acb
    }

    /// A broadcast that starts from a clock and messages of another node.
    pub fn from_messages(
        secret_key: SecretKey,
        clock: Clock,
        messages: Vec<SignedMessage<P>>,
    ) -> (acb: Self)
        ensures
            acb@.secret_key == secret_key,
            acb@.clock == clock@,
            acb@.received == signed(messages@),
    {
        CausalBroadcast { secret_key, clock, received: messages }
    }

    /// The identifier of the local node.
    pub fn local_id(&self) -> (id: NodeId)
        ensures
            id == self@.secret_key.id(),
    {
        self.secret_key.public()
    }

    /// The clock of delivered messages.
    pub fn local_clock(&self) -> (clock: &Clock)
        ensures
            clock@ == self@.clock,
    {
        &self.clock
    }

    /// Makes and signs a message. The payload should have been handled
    /// locally already: the message counts as delivered.
    pub fn make_message(&mut self, payload: P) -> (message: SignedMessage<P>)
        requires
            seq_of(old(self)@.clock, old(self)@.secret_key.id()) < u64::MAX,
        ensures
            final(self)@.secret_key == old(self)@.secret_key,
            final(self)@.clock == counted(old(self)@.clock, old(self)@.secret_key.id()),
            final(self)@.received == old(self)@.received.push(message@),
            message@.clock == final(self)@.clock,
            message@.payload == payload,
            message@.public_key == old(self)@.secret_key.id(),
            message@.signature.bytes@ == ed25519_signature(
                old(self)@.secret_key.secret(),
                signed_bytes(message@.clock, payload),
            ),
            !commits_to_neutral_point(message@.signature.bytes@) ==> genuine(message@),
    {
        let id = self.local_id();
        let _seq = self.clock.incr(id);
        let inner = Message { clock: self.clock.clone(), payload };
        let bytes = message_bytes(&inner);
        let signature = self.secret_key.sign(bytes.as_slice());
        let message = SignedMessage { inner, public_key: id, signature };
        self.received.push(message.duplicate());
        assert(self@.received =~= old(self)@.received.push(message@));
        message
    }

    /// Whether a message with the same sender and number has been received.
    fn knows(&self, msg: &SignedMessage<P>) -> (yes: bool)
        ensures
            yes == known(self@.received, msg@),
    {
        let mut i: usize = 0;
        while i < self.received.len()
            invariant
                i <= self.received@.len(),
                forall|j: int|
                    0 <= j < i ==> !((#[trigger] self@.received[j]).public_key == msg@.public_key
                        && number(self@.received[j]) == number(msg@)),
            decreases self.received@.len() - i,
        {
            assert(self@.received[i as int] == self.received@[i as int]@);
            if self.received[i].public_key == msg.public_key && self.received[i].seq()
                == msg.seq() {
                return true;
            }
            i = i + 1;
        }
        false
    }

    /// Receives a message whose signature is known to be good. A message of
    /// the same sender with the same number is kept instead of a new one.
    pub fn receive(&mut self, msg: &SignedMessage<P>)
        requires
            genuine(msg@),
        ensures
            final(self)@.secret_key == old(self)@.secret_key,
            final(self)@.clock == old(self)@.clock,
            final(self)@.received == with_message(old(self)@.received, msg@),
    {
        if self.knows(msg) {
            return;
        }
        self.received.push(msg.duplicate());
        assert(self@.received =~= old(self)@.received.push(msg@));
    }

    /// Checks the signature of a message, and receives it if it is good.
    pub fn try_receive(&mut self, msg: &SignedMessage<P>) -> (accepted: bool)
        ensures
            accepted == genuine(msg@),
            final(self)@.secret_key == old(self)@.secret_key,
            final(self)@.clock == old(self)@.clock,
            final(self)@.received == if accepted {
                with_message(old(self)@.received, msg@)
            } else {
                old(self)@.received
            },
    {
        if msg.is_genuine() {
            self.receive(msg);
            true
        } else {
            false
        }
    }

    /// Whether a message can be delivered: the preceding message of its sender
    /// and all its other causal predecessors have been delivered.
    fn can_deliver(&self, msg: &SignedMessage<P>) -> (yes: bool)
        ensures
            yes == deliverable(self@.clock, msg@),
    {
        let mut i: usize = 0;
        while i < msg.inner.clock.inner.len()
            invariant
                i <= msg@.clock.len(),
                forall|j: int|
                    0 <= j < i ==> if (#[trigger] msg@.clock[j]).0 == msg@.public_key {
                        seq_of(self@.clock, msg@.clock[j].0) + 1 == msg@.clock[j].1
                    } else {
                        msg@.clock[j].1 <= seq_of(self@.clock, msg@.clock[j].0)
                    },
            decreases msg@.clock.len() - i,
        {
            let (id, other_seq) = msg.inner.clock.inner[i];
            assert(msg@.clock[i as int] == (id, other_seq));
            let my_seq = self.clock.get(id);
            let fits = if id == msg.public_key {
                other_seq > 0 && my_seq == other_seq - 1
            } else {
                my_seq >= other_seq
            };
            if !fits {
                return false;
            }
            i = i + 1;
        }
        true
    }

    /// Delivers the first message that can be delivered.
    pub fn deliver_next(&mut self) -> (delivered: Option<&SignedMessage<P>>)
        ensures
            final(self)@.secret_key == old(self)@.secret_key,
            final(self)@.received == old(self)@.received,
            delivered is None <==> drained(old(self)@.clock, old(self)@.received),
            delivered is None ==> final(self)@.clock == old(self)@.clock,
            delivered matches Some(msg) ==> exists|i: int|
                #[trigger] first_deliverable(old(self)@.clock, old(self)@.received, i)
                    && msg@ == old(self)@.received[i] && final(self)@.clock == merged(
                    old(self)@.clock,
                    msg@.clock,
                ),
    {
        match self.next_deliverable() {
            Some(i) => {
                assert(self@.received[i as int] == self.received@[i as int]@);
                self.clock.merge(&self.received[i].inner.clock);
                Some(&self.received[i])
            },
            None => None,
        }
    }

    /// All received messages, in the order in which they came.
    pub fn received(&self) -> (messages: std::slice::Iter<'_, SignedMessage<P>>)
        ensures
            signed(vstd::std_specs::slice::into_iter_elts(messages)) == self@.received,
    {
        self.received.iter()
    }

    /// A copy of all received messages, in the order in which they came.
    pub fn received_copy(&self) -> (messages: Vec<SignedMessage<P>>)
        ensures
            signed(messages@) == self@.received,
    {
        duplicate_all(&self.received)
    }

    /// The received messages that the local clock covers.
    pub fn delivered(&self) -> (messages: Vec<&SignedMessage<P>>)
        ensures
            views(messages@) == covered(self@.clock, self@.received),
    {
        let ghost all = self@.received;
        let mut messages: Vec<&SignedMessage<P>> = Vec::new();
        let mut i: usize = 0;
        proof {
            reveal(Seq::filter);
            assert(views(messages@) =~= covered(self@.clock, all.take(0)));
        }
        while i < self.received.len()
            invariant
                i <= self.received@.len(),
                all == self@.received,
                views(messages@) == covered(self@.clock, all.take(i as int)),
            decreases self.received@.len() - i,
        {
            let ghost before = messages@;
            proof {
                reveal(Seq::filter);
                assert(all.take(i + 1).drop_last() =~= all.take(i as int));
                assert(all.take(i + 1).last() == self.received@[i as int]@);
            }
            if self.received[i].inner.clock.lte(&self.clock) {
                messages.push(&self.received[i]);
                assert(views(messages@) =~= views(before).push(self.received@[i as int]@));
            }
            i = i + 1;
        }
        proof {
            assert(all.take(all.len() as int) =~= all);
        }
        messages
    }

    /// The delivered messages in their total order.
    pub fn ordered(&self) -> (messages: Vec<&SignedMessage<P>>)
        ensures
            views(messages@) == in_order(covered(self@.clock, self@.received)),
    {
        let delivered = self.delivered();
        let order = sort_causally(&delivered);
        let ghost ms = views(delivered@);
        let ghost sorted = causal_order(ms);
        proof {
            causal_order_is_permutation(ms);
        }
        let mut messages: Vec<&SignedMessage<P>> = Vec::new();
        let mut k: usize = 0;
        while k < order.len()
            invariant
                k <= order@.len(),
                ms == views(delivered@),
                sorted == causal_order(ms),
                order@.map_values(|i: usize| i as int) == sorted,
                forall|i: int| 0 <= i < ms.len() <==> #[trigger] sorted.contains(i),
                views(messages@) == in_order(ms).take(k as int),
            decreases order@.len() - k,
        {
            let ghost before = messages@;
            let i: usize = order[k];
            proof {
                assert(order@.map_values(|i: usize| i as int)[k as int] == i as int);
                assert(sorted[k as int] == i);
                assert(sorted.contains(i as int));
                assert(ms[i as int] == delivered@[i as int]@);
            }
            messages.push(delivered[i]);
            proof {
                assert(views(messages@) =~= views(before).push(ms[i as int]));
                assert(in_order(ms).take(k + 1) =~= in_order(ms).take(k as int).push(ms[i as int]));
            }
            k = k + 1;
        }
        proof {
            assert(in_order(ms).take(order@.len() as int) =~= in_order(ms));
        }
        messages
    }

    /// Delivers messages until none can be delivered. Tells whether any was,
    /// or gives up at a message that does not count itself: its delivery would
    /// be repeated forever.
    pub fn deliver_all(&mut self) -> (outcome: Result<bool, EndlessDelivery>)
        ensures
            final(self)@.secret_key == old(self)@.secret_key,
            final(self)@.received == old(self)@.received,
            exists|n: nat|
                final(self)@.clock == #[trigger] clock_after(
                    old(self)@.clock,
                    old(self)@.received,
                    n,
                ),
            outcome matches Ok(changed) ==> drained(final(self)@.clock, final(self)@.received)
                && changed == !drained(old(self)@.clock, old(self)@.received),
            outcome == Ok::<bool, EndlessDelivery>(false) ==> final(self)@.clock == old(self)@.clock,
            outcome is Err ==> stuck(final(self)@.clock, final(self)@.received),
    {
        let ghost start = self@.clock;
        let ghost received = self@.received;
        let ghost mut n: nat = 0;
        let mut changed = false;
        loop
            invariant
                self@.secret_key == old(self)@.secret_key,
                received == old(self)@.received,
                start == old(self)@.clock,
                self@.received == received,
                self@.clock == clock_after(start, received, n),
                !changed ==> self@.clock == start,
                changed ==> !drained(start, received),
            decreases pending(self@.clock, received),
        {
            let ghost before = self@.clock;
            match self.next_deliverable() {
                None => {
                    return Ok(changed);
                },
                Some(i) => {
                    proof {
                        assert(first_deliverable(before, received, i as int));
                        assert(received[i as int] == self.received@[i as int]@);
                        let chosen = choose|k: int| first_deliverable(before, received, k);
                        assert(first_deliverable(before, received, chosen));
                        assert(chosen == i);
                    }
                    let sender = self.received[i].public_key;
                    if !self.received[i].inner.clock.names(sender) {
                        return Err(EndlessDelivery);
                    }
                    self.clock.merge(&self.received[i].inner.clock);
                    changed = true;
                    proof {
                        n = n + 1;
                        delivery_reduces_pending(before, received, i as int);
                        assert(self@.received =~= received);
                    }
                },
            }
        }
    }

    /// The position of the first message that can be delivered.
    fn next_deliverable(&self) -> (found: Option<usize>)
        ensures
            found matches Some(i) ==> first_deliverable(self@.clock, self@.received, i as int),
            found is None ==> drained(self@.clock, self@.received),
    {
        let mut i: usize = 0;
        while i < self.received.len()
            invariant
                i <= self.received@.len(),
                forall|j: int|
                    0 <= j < i ==> !deliverable(self@.clock, #[trigger] self@.received[j]),
            decreases self.received@.len() - i,
        {
            assert(self@.received[i as int] == self.received@[i as int]@);
            if self.can_deliver(&self.received[i]) {
                return Some(i);
            }
            i = i + 1;
        }
        None
    }
}

/// A message that can be delivered does not count itself in its clock, so
/// that it can be delivered again and again.
#[derive(Debug, Clone, Copy, PartialEq, Eq)]
pub struct EndlessDelivery;

/// Whether the first message that can be delivered does not count itself.
pub open spec fn stuck<P>(clock: Entries, received: Seq<Signed<P>>) -> bool {
    exists|i: int|
        #[trigger] first_deliverable(clock, received, i) && !has_entry(
            received[i].clock,
            received[i].public_key,
        )
}

/// How many messages have a number that the clock has not reached.
spec fn pending<P>(clock: Entries, received: Seq<Signed<P>>) -> nat
    decreases received.len(),
{
    if received.len() == 0 {
        0
    } else {
        let last = received.last();
        pending(clock, received.drop_last()) + if seq_of(clock, last.public_key) < number(last) {
            1nat
        } else {
            0nat
        }
    }
}

proof fn pending_shrinks<P>(before: Entries, after: Entries, received: Seq<Signed<P>>, i: int)
    requires
        forall|id: NodeId| #[trigger] seq_of(before, id) <= seq_of(after, id),
        0 <= i < received.len() ==> seq_of(before, received[i].public_key) < number(received[i])
            <= seq_of(after, received[i].public_key),
    ensures
        pending(after, received) <= pending(before, received),
        0 <= i < received.len() ==> pending(after, received) < pending(before, received),
    decreases received.len(),
{
    if received.len() > 0 {
        let rest = received.drop_last();
        if i < rest.len() {
            assert(0 <= i ==> rest[i] == received[i]);
            pending_shrinks(before, after, rest, i);
        } else {
            pending_shrinks(before, after, rest, -1);
        }
        assert(seq_of(before, received.last().public_key) <= seq_of(
            after,
            received.last().public_key,
        ));
    }
}

/// A delivered message that counts itself is no longer pending.
proof fn delivery_reduces_pending<P>(clock: Entries, received: Seq<Signed<P>>, i: int)
    requires
        0 <= i < received.len(),
        deliverable(clock, received[i]),
        has_entry(received[i].clock, received[i].public_key),
    ensures
        pending(merged(clock, received[i].clock), received) < pending(clock, received),
{
    let m = received[i];
    let after = merged(clock, m.clock);
    seq_of_merged(clock, m.clock);
    let k = choose|k: int| first_entry(m.clock, m.public_key, k);
    seq_of_first(m.clock, m.public_key, k);
    assert(m.clock[k].0 == m.public_key);
    highest_is_bound(m.clock, m.public_key);
    pending_shrinks(clock, after, received, i);
}

/// A message is genuine exactly where its signature is accepted under the key
/// of its sender, on its clock and its payload.
pub proof fn only_signed_messages_are_genuine<P: Payload>(m: Signed<P>)
    ensures
        genuine(m) <==> signature_accepted(
            m.public_key.bytes@,
            clock_bytes(m.clock) + m.payload.encoding(),
            m.signature.bytes@,
        ),
{
}

/// The messages of a list are those of its items, in order, and each shows its
/// clock, its payload, its sender and its signature.
pub proof fn signed_messages_of_items<P>(
    messages: Seq<SignedMessage<P>>,
    references: Seq<&SignedMessage<P>>,
    m: SignedMessage<P>,
)
    ensures
        signed(messages).len() == messages.len(),
        forall|i: int| 0 <= i < messages.len() ==> #[trigger] signed(messages)[i] == messages[i]@,
        views(references).len() == references.len(),
        forall|i: int|
            0 <= i < references.len() ==> #[trigger] views(references)[i] == references[i]@,
        m@.clock == m.inner.clock@,
        m@.payload == m.inner.payload,
        m@.public_key == m.public_key,
        m@.signature == m.signature,
{
}

/// Nothing is left to deliver exactly where no message can be delivered, and
/// else there is a first one that can be.
pub proof fn drained_or_not<P>(clock: Entries, received: Seq<Signed<P>>, k: int)
    ensures
        drained(clock, received) && 0 <= k < received.len() ==> !deliverable(clock, received[k]),
        0 <= k < received.len() && deliverable(clock, received[k]) ==> exists|i: int|
            i <= k && #[trigger] first_deliverable(clock, received, i),
    decreases k,
{
    if 0 <= k < received.len() && deliverable(clock, received[k]) {
        if exists|j: int| 0 <= j < k && deliverable(clock, #[trigger] received[j]) {
            let j = choose|j: int| 0 <= j < k && deliverable(clock, #[trigger] received[j]);
            drained_or_not(clock, received, j);
        } else {
            assert(first_deliverable(clock, received, k));
        }
    }
}

} // verus!
