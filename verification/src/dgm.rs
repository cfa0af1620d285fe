//! Decentralized group membership.
//!
//! The members of a group are what the operations of its members, taken in
//! their total order, make them.

use crate::acb::{
    covered, drained, genuine, signed_bytes, Broadcast, CausalBroadcast, Payload, Signed,
    SignedMessage,
};
use crate::clock::{
    at_most, at_most_iff_pointwise, at_most_pointwise, at_most_transitive, counted,
    counted_is_after, distinct, first_entry, highest, highest_is_bound, highest_is_seq, precedes,
    seq_of, seq_of_counted, seq_of_first, some_less, Entries,
};
use crate::codec::{
    clock_bytes_prefix_free, encode_tagged_key, encode_tagged_number_key, varint,
    varint_prefix_free,
};
use crate::convergence::{is_number, new_message_follows_delivered, past};
use crate::key::{commits_to_neutral_point, ed25519_signature, NodeId, SecretKey};
use crate::order::{
    causal_order, causal_order_is_permutation, in_order, newest_comes_last,
    order_holds_all_messages,
};
use crate::system::{
    covered_is_part, group_converges, has_earlier, history as group_history, in_group, node_sound,
    sound, Node,
};
use vstd::prelude::*;

verus! {

/// What a member can do to a group.
#[derive(Debug, Clone, Copy, PartialEq, Eq)]
pub enum Operation {
    /// Founds the group.
    Root { group_id: u64, root_member: NodeId },
    /// Adds a member.
    Add(NodeId),
    /// Removes a member.
    Remove(NodeId),
}

impl Payload for Operation {
    open spec fn encoding(&self) -> Seq<u8> {
        match *self {
            Operation::Root { group_id, root_member } => varint(0) + varint(group_id)
                + root_member.bytes@,
            Operation::Add(member) => varint(1) + member.bytes@,
            Operation::Remove(member) => varint(2) + member.bytes@,
        }
    }

    fn encode(&self) -> (bytes: Vec<u8>) {
        match self {
            Operation::Root { group_id, root_member } => encode_tagged_number_key(
                0,
                *group_id,
                &root_member.bytes,
            ),
            Operation::Add(member) => encode_tagged_key(1, &member.bytes),
            Operation::Remove(member) => encode_tagged_key(2, &member.bytes),
        }
    }

    fn duplicate(&self) -> (copy: Self) {
        *self
    }
}

/// The members after one more operation: those of others than members have no
/// effect.
pub open spec fn members_after(members: Set<NodeId>, m: Signed<Operation>) -> Set<NodeId> {
    if members.contains(m.public_key) {
        match m.payload {
            Operation::Root { .. } => members,
            Operation::Add(member) => members.insert(member),
            Operation::Remove(member) => members.remove(member),
        }
    } else {
        members
    }
}

/// The members that operations, in order, leave.
pub open spec fn members_of(history: Seq<Signed<Operation>>) -> Set<NodeId>
    decreases history.len(),
{
    if history.len() == 0 {
        Set::empty()
    } else if history.len() == 1 {
        match history[0].payload {
            Operation::Root { root_member, .. } => set![root_member],
            _ => Set::empty(),
        }
    } else {
        members_after(members_of(history.drop_last()), history.last())
    }
}

/// Whether operations start with a root, and no member founds the group again.
pub open spec fn well_rooted(history: Seq<Signed<Operation>>) -> bool {
    &&& history.len() > 0
    &&& history[0].payload is Root
    &&& forall|i: int|
        1 <= i < history.len() ==> !(members_of(history.take(i)).contains(
            (#[trigger] history[i]).public_key,
        ) && history[i].payload is Root)
}

/// The identifier in the first root.
pub open spec fn root_id(history: Seq<Signed<Operation>>) -> Option<u64>
    decreases history.len(),
{
    if history.len() == 0 {
        None
    } else {
        match history[0].payload {
            Operation::Root { group_id, .. } => Some(group_id),
            _ => root_id(history.drop_first()),
        }
    }
}

/// The delivered operations in their total order.
pub open spec fn operations(acb: Broadcast<Operation>) -> Seq<Signed<Operation>> {
    in_order(covered(acb.clock, acb.received))
}

/// Decentralized group membership on top of causal broadcast.
pub struct GroupMembership {
    pub acb: CausalBroadcast<Operation>,
}

impl GroupMembership {
    /// The delivered operations in their total order.
    pub open spec fn history(self) -> Seq<Signed<Operation>> {
        operations(self.acb@)
    }

    /// Founds a group with a random identifier.
    pub fn new(secret_key: SecretKey) -> (group: Self)
        ensures
            group.acb@.secret_key == secret_key,
            group.acb@.clock == seq![(secret_key.id(), 1u64)],
            group.acb@.received == group.history(),
            well_rooted(group.history()),
            group.history().len() == 1,
            group.history()[0].public_key == secret_key.id(),
            group.history()[0].clock == group.acb@.clock,
            signed_with(secret_key, group.history()[0]),
            group.history()[0].payload matches Operation::Root { root_member, .. }
                && root_member == secret_key.id(),
            members_of(group.history()) == set![secret_key.id()],
            root_id(group.history()) is Some,
    {
        let group_id = random_group_id();
        Self::with_id(secret_key, group_id)
    }

    /// Founds a group with the given identifier. Its founder is its one
    /// member.
    pub fn with_id(secret_key: SecretKey, group_id: u64) -> (group: Self)
        ensures
            group.acb@.secret_key == secret_key,
            group.acb@.clock == seq![(secret_key.id(), 1u64)],
            group.acb@.received == group.history(),
            well_rooted(group.history()),
            group.history().len() == 1,
            group.history()[0].public_key == secret_key.id(),
            group.history()[0].clock == group.acb@.clock,
            signed_with(secret_key, group.history()[0]),
            group.history()[0].payload == (Operation::Root {
                group_id,
                root_member: secret_key.id(),
            }),
            members_of(group.history()) == set![secret_key.id()],
            root_id(group.history()) == Some(group_id),
    {
        let root = Operation::Root { group_id, root_member: secret_key.public() };
        let mut acb = CausalBroadcast::new(secret_key);
        let message = acb.make_message(root);
        proof {
            lone_message_is_history(acb@.clock, message@);
            assert(acb@.clock =~= seq![(secret_key.id(), 1u64)]);
            assert(acb@.received =~= seq![message@]);
        }
        GroupMembership { acb }
    }

    /// The group of a causal broadcast.
    pub fn from_causal_broadcast(acb: CausalBroadcast<Operation>) -> (group: Self)
        ensures
            group.acb == acb,
    {
        GroupMembership { acb }
    }

    /// Adds a member, and returns the message that tells the group.
    pub fn add_member(&mut self, node_id: NodeId) -> (message: SignedMessage<Operation>)
        requires
            seq_of(old(self).acb@.clock, old(self).acb@.secret_key.id()) < u64::MAX,
        ensures
            made_message(old(self).acb@, final(self).acb@, message@),
            message@.payload == Operation::Add(node_id),
            distinct(old(self).acb@.clock) && none_ahead(
                old(self).acb@.received,
                old(self).acb@.clock,
                old(self).acb@.secret_key.id(),
            ) ==> final(self).history() == old(self).history().push(message@),
    {
        let message = self.acb.make_message(Operation::Add(node_id));
        proof {
            if distinct(old(self).acb@.clock) && none_ahead(
                old(self).acb@.received,
                old(self).acb@.clock,
                old(self).acb@.secret_key.id(),
            ) {
                own_message_comes_last(old(self).acb@, self.acb@, message@);
            }
        }
        message
    }

    /// Removes a member, and returns the message that tells the group.
    pub fn remove_member(&mut self, node_id: NodeId) -> (message: SignedMessage<Operation>)
        requires
            seq_of(old(self).acb@.clock, old(self).acb@.secret_key.id()) < u64::MAX,
        ensures
            made_message(old(self).acb@, final(self).acb@, message@),
            message@.payload == Operation::Remove(node_id),
            distinct(old(self).acb@.clock) && none_ahead(
                old(self).acb@.received,
                old(self).acb@.clock,
                old(self).acb@.secret_key.id(),
            ) ==> final(self).history() == old(self).history().push(message@),
    {
        let message = self.acb.make_message(Operation::Remove(node_id));
        proof {
            if distinct(old(self).acb@.clock) && none_ahead(
                old(self).acb@.received,
                old(self).acb@.clock,
                old(self).acb@.secret_key.id(),
            ) {
                own_message_comes_last(old(self).acb@, self.acb@, message@);
            }
        }
        message
    }

    /// The members of the group, each once.
    pub fn evaluate_members(&self) -> (members: Vec<NodeId>)
        requires
            well_rooted(self.history()),
        ensures
            members@.no_duplicates(),
            members@.to_set() == members_of(self.history()),
    {
        match self.members() {
            Some(members) => members,
            None => Vec::new(),
        }
    }

    /// The members of the group, each once, or nothing where the operations do
    /// not start with a root or a member founds the group again.
    #[verifier::rlimit(40)]
    pub fn members(&self) -> (members: Option<Vec<NodeId>>)
        ensures
            members is Some <==> well_rooted(self.history()),
            members matches Some(found) ==> found@.no_duplicates() && found@.to_set()
                == members_of(self.history()),
    {
        let ordered = self.acb.ordered();
        let ghost history = self.history();
        assert(ordered@.len() == history.len());
        if ordered.len() == 0 {
            return None;
        }
        let mut members: Vec<NodeId> = Vec::new();
        assert(members@.to_set() =~= Set::empty());
        assert(history[0] == ordered@[0]@);
        match &ordered[0].inner.payload {
            Operation::Root { root_member, .. } => {
                insert_node(&mut members, *root_member);
                assert(members@.to_set() =~= set![*root_member]);
                assert(history.take(1)[0] == history[0]);
            },
            _ => {
                return None;
            },
        }
        let mut i: usize = 1;
        while i < ordered.len()
            invariant
                1 <= i <= ordered@.len(),
                history == self.history(),
                views_are(ordered@, history),
                history[0].payload is Root,
                members@.no_duplicates(),
                members@.to_set() == members_of(history.take(i as int)),
                forall|k: int|
                    1 <= k < i ==> !(members_of(history.take(k)).contains(
                        (#[trigger] history[k]).public_key,
                    ) && history[k].payload is Root),
            decreases ordered@.len() - i,
        {
            let ghost before = members@;
            let ghost now = history.take(i + 1);
            assert(history[i as int] == ordered@[i as int]@);
            assert(now.drop_last() =~= history.take(i as int));
            assert(now.last() == history[i as int]);
            let by_member = contains_node(&members, &ordered[i].public_key);
            assert(by_member == before.to_set().contains(history[i as int].public_key));
            if by_member {
                match &ordered[i].inner.payload {
                    Operation::Root { .. } => {
                        return None;
                    },
                    Operation::Add(member) => {
                        insert_node(&mut members, *member);
                    },
                    Operation::Remove(member) => {
                        remove_node(&mut members, member);
                    },
                }
            }
            i = i + 1;
        }
        assert(history.take(history.len() as int) =~= history);
        Some(members)
    }

    /// The identifier of the group.
    pub fn group_id(&self) -> (id: u64)
        requires
            root_id(self.history()) is Some,
        ensures
            Some(id) == root_id(self.history()),
    {
        match self.root_id() {
            Some(id) => id,
            None => 0,
        }
    }

    /// The identifier of the group, or nothing where no root was delivered.
    pub fn root_id(&self) -> (id: Option<u64>)
        ensures
            id == root_id(self.history()),
    {
        let ordered = self.acb.ordered();
        let ghost history = self.history();
        assert(ordered@.len() == history.len());
        let mut i: usize = 0;
        assert(history.skip(0) =~= history);
        while i < ordered.len()
            invariant
                i <= ordered@.len(),
                views_are(ordered@, history),
                history == self.history(),
                root_id(history) == root_id(history.skip(i as int)),
            decreases ordered@.len() - i,
        {
            assert(history[i as int] == ordered@[i as int]@);
            assert(history.skip(i as int)[0] == history[i as int]);
            assert(history.skip(i as int).drop_first() =~= history.skip(i + 1));
            match &ordered[i].inner.payload {
                Operation::Root { group_id, .. } => {
                    return Some(*group_id);
                },
                _ => {},
            }
            i = i + 1;
        }
        None
    }
}

/// Whether messages are those of a history.
spec fn views_are(messages: Seq<&SignedMessage<Operation>>, history: Seq<Signed<Operation>>) -> bool {
    &&& messages.len() == history.len()
    &&& forall|i: int| 0 <= i < history.len() ==> #[trigger] history[i] == messages[i]@
}

/// Whether a broadcast has made a message.
pub open spec fn made_message(
    before: Broadcast<Operation>,
    after: Broadcast<Operation>,
    m: Signed<Operation>,
) -> bool {
    &&& after.secret_key == before.secret_key
    &&& after.clock == counted(before.clock, before.secret_key.id())
    &&& after.received == before.received.push(m)
    &&& m.clock == after.clock
    &&& m.public_key == before.secret_key.id()
    &&& signed_with(before.secret_key, m)
}

/// Whether a message carries the signature of a key pair. Nodes accept it then,
/// unless its signature commits to the neutral point.
pub open spec fn signed_with(secret_key: SecretKey, m: Signed<Operation>) -> bool {
    &&& m.signature.bytes@ == ed25519_signature(
        secret_key.secret(),
        signed_bytes(m.clock, m.payload),
    )
    &&& !commits_to_neutral_point(m.signature.bytes@) ==> genuine(m)
}

/// `rand::random` for a `u64`. Nothing is claimed of the number.
#[verifier::external_body]
fn random_group_id() -> (id: u64) {
    rand::random::<u64>()
}

/// Whether a node is in a list.
pub fn contains_node(nodes: &Vec<NodeId>, node: &NodeId) -> (yes: bool)
    ensures
        yes == nodes@.contains(*node),
{
    let mut i: usize = 0;
    while i < nodes.len()
        invariant
            i <= nodes@.len(),
            forall|j: int| 0 <= j < i ==> nodes@[j] != *node,
        decreases nodes@.len() - i,
    {
        if nodes[i] == *node {
            return true;
        }
        i = i + 1;
    }
    false
}

/// Puts a node in a list of different nodes.
fn insert_node(nodes: &mut Vec<NodeId>, node: NodeId)
    requires
        old(nodes)@.no_duplicates(),
    ensures
        final(nodes)@.no_duplicates(),
        final(nodes)@.to_set() == old(nodes)@.to_set().insert(node),
{
    let ghost before = nodes@;
    if contains_node(nodes, &node) {
        assert(before.to_set() =~= before.to_set().insert(node));
    } else {
        nodes.push(node);
        proof {
            assert(nodes@.to_set() =~= before.to_set().insert(node)) by {
                assert forall|x: NodeId| before.to_set().insert(node).contains(x) implies nodes@.contains(
                    x,
                ) by {
                    if x == node {
                        assert(nodes@[before.len() as int] == node);
                    } else {
                        let k = choose|k: int| 0 <= k < before.len() && before[k] == x;
                        assert(nodes@[k] == x);
                    }
                }
                assert forall|x: NodeId| nodes@.contains(x) implies before.to_set().insert(
                    node,
                ).contains(x) by {
                    let k = choose|k: int| 0 <= k < nodes@.len() && nodes@[k] == x;
                    if k < before.len() {
                        assert(before[k] == x);
                    }
                }
            }
        }
    }
}

/// Takes a node out of a list of different nodes.
fn remove_node(nodes: &mut Vec<NodeId>, node: &NodeId)
    requires
        old(nodes)@.no_duplicates(),
    ensures
        final(nodes)@.no_duplicates(),
        final(nodes)@.to_set() == old(nodes)@.to_set().remove(*node),
{
    let ghost before = nodes@;
    let mut i: usize = 0;
    while i < nodes.len()
        invariant
            i <= nodes@.len(),
            nodes@ == before,
            before == old(nodes)@,
            before.no_duplicates(),
            forall|j: int| 0 <= j < i ==> nodes@[j] != *node,
        decreases nodes@.len() - i,
    {
        if nodes[i] == *node {
            nodes.remove(i);
            proof {
                assert(nodes@ == before.remove(i as int));
                assert(nodes@.to_set() =~= before.to_set().remove(*node)) by {
                    assert forall|x: NodeId| nodes@.contains(x) <==> before.to_set().remove(
                        *node,
                    ).contains(x) by {
                        if nodes@.contains(x) {
                            let k = choose|k: int| 0 <= k < nodes@.len() && nodes@[k] == x;
                            let l = if k < i { k } else { k + 1 };
                            assert(before[l] == x);
                            assert(before[i as int] == *node);
                        }
                        if before.contains(x) && x != *node {
                            let k = choose|k: int| 0 <= k < before.len() && before[k] == x;
                            let l = if k < i { k } else { k - 1 };
                            assert(nodes@[l] == x);
                        }
                    }
                }
            }
            return;
        }
        i = i + 1;
    }
    assert(before.to_set() =~= before.to_set().remove(*node));
}

/// A lone message that its own clock covers is the whole history.
proof fn lone_message_is_history(clock: Entries, m: Signed<Operation>)
    requires
        m.clock == clock,
        distinct(clock),
    ensures
        in_order(covered(clock, seq![m])) == seq![m],
{
    at_most_iff_pointwise(clock, clock);
    reveal(Seq::filter);
    assert(seq![m].drop_last() =~= Seq::<Signed<Operation>>::empty());
    assert(covered(clock, seq![m]) =~= seq![m]);
    causal_order_is_permutation(seq![m]);
    let order = causal_order(seq![m]);
    assert(order.contains(order[0]));
    assert(in_order(seq![m]) =~= seq![m]);
}

/// Whether no message counts more messages of a node than a clock does.
pub open spec fn none_ahead(received: Seq<Signed<Operation>>, clock: Entries, id: NodeId) -> bool {
    forall|i: int|
        0 <= i < received.len() ==> highest((#[trigger] received[i]).clock, id) <= seq_of(clock, id)
}

/// Counting one more message of a node covers no message that was not covered
/// before, where none is ahead.
proof fn counting_covers_the_same(x: Entries, clock: Entries, id: NodeId)
    requires
        distinct(clock),
        seq_of(clock, id) < u64::MAX,
        highest(x, id) <= seq_of(clock, id),
    ensures
        at_most(x, counted(clock, id)) == at_most(x, clock),
{
    let after = counted(clock, id);
    seq_of_counted(clock, id);
    highest_is_bound(x, id);
    counted_is_after(clock, id);
    if at_most(x, clock) {
        at_most_transitive(x, clock, after);
    } else if at_most(x, after) {
        at_most_pointwise(x, after);
        assert forall|j: int| 0 <= j < x.len() implies !(seq_of(clock, (#[trigger] x[j]).0)
            < x[j].1) by {
            assert(!(seq_of(after, x[j].0) < x[j].1));
        }
        assert forall|i: int| 0 <= i < clock.len() implies !((#[trigger] clock[i]).1 < seq_of(
            x,
            clock[i].0,
        )) by {
            assert(first_entry(clock, clock[i].0, i));
            seq_of_first(clock, clock[i].0, i);
            assert(seq_of(x, clock[i].0) <= seq_of(after, clock[i].0));
        }
        assert(!some_less(clock, x));
    }
}

/// The same messages are covered before and after a node counts a new one.
proof fn counting_keeps_covered(received: Seq<Signed<Operation>>, clock: Entries, id: NodeId)
    requires
        distinct(clock),
        seq_of(clock, id) < u64::MAX,
        none_ahead(received, clock, id),
    ensures
        covered(counted(clock, id), received) == covered(clock, received),
    decreases received.len(),
{
    reveal(Seq::filter);
    if received.len() > 0 {
        let rest = received.drop_last();
        assert forall|i: int| 0 <= i < rest.len() implies highest((#[trigger] rest[i]).clock, id)
            <= seq_of(clock, id) by {
            assert(rest[i] == received[i]);
        }
        counting_keeps_covered(rest, clock, id);
        assert(received.last() == received[received.len() - 1]);
        counting_covers_the_same(received.last().clock, clock, id);
    }
}

/// A message that a node makes comes last in its order, where no message is
/// ahead of the node in counting its messages.
pub proof fn own_message_comes_last(
    before: Broadcast<Operation>,
    after: Broadcast<Operation>,
    m: Signed<Operation>,
)
    requires
        made_message(before, after, m),
        seq_of(before.clock, before.secret_key.id()) < u64::MAX,
        distinct(before.clock),
        none_ahead(before.received, before.clock, before.secret_key.id()),
    ensures
        operations(after) == operations(before).push(m),
{
    let covered_before = covered(before.clock, before.received);
    counting_keeps_covered(before.received, before.clock, m.public_key);
    assert(after.received.drop_last() =~= before.received);
    seq_of_counted(before.clock, m.public_key);
    at_most_iff_pointwise(m.clock, m.clock);
    assert(covered(after.clock, after.received) == covered_before.push(m)) by {
        reveal(Seq::filter);
    }
    assert forall|i: int| 0 <= i < covered_before.len() implies precedes(
        (#[trigger] covered_before[i]).clock,
        m.clock,
    ) by {
        before.received.lemma_filter_pred(|x: Signed<Operation>| at_most(x.clock, before.clock), i);
        new_message_follows_delivered(before.clock, m.public_key, covered_before[i]);
    }
    newest_comes_last(covered_before, m);
}

/// The members and the identifier of a group depend only on the history of
/// its operations, and nodes that have converged have the same one: in
/// whatever order the nodes of a group have been welcomed, have sent, received,
/// synced and delivered, two nodes with the same messages, and none to deliver,
/// agree on the group.
pub proof fn members_converge(states: Seq<Seq<Node<Operation>>>, i: int, j: int)
    requires
        group_history(states),
        0 <= i < states.last().len(),
        0 <= j < states.last().len(),
        states.last()[i].received.to_set() == states.last()[j].received.to_set(),
        drained(states.last()[i].clock, states.last()[i].received),
        drained(states.last()[j].clock, states.last()[j].received),
    ensures
        ({
            let a = in_order(covered(states.last()[i].clock, states.last()[i].received));
            let b = in_order(covered(states.last()[j].clock, states.last()[j].received));
            &&& members_of(a) == members_of(b)
            &&& root_id(a) == root_id(b)
            &&& well_rooted(a) == well_rooted(b)
        }),
{
    group_converges(states, i, j);
}

/// In a sound group, no message is ahead of the node that has it.
pub proof fn none_ahead_in_group(nodes: Seq<Node<Operation>>, i: int)
    requires
        sound(nodes),
        0 <= i < nodes.len(),
    ensures
        none_ahead(nodes[i].received, nodes[i].clock, nodes[i].id),
        distinct(nodes[i].clock),
{
    let node = nodes[i];
    let r = node.received;
    assert(node_sound(nodes[i]));
    assert forall|k: int| 0 <= k < r.len() implies highest((#[trigger] r[k]).clock, node.id)
        <= seq_of(node.clock, node.id) by {
        let m = r[k];
        assert(nodes[i].received.contains(m));
        assert(in_group(nodes, m));
        highest_is_seq(m.clock, node.id);
        if m.public_key == node.id {
            at_most_pointwise(m.clock, node.clock);
        } else if seq_of(m.clock, node.id) > 0 {
            let n = past(m, node.id);
            assert(has_earlier(nodes, m, node.id, n));
            let own = choose|own: Signed<Operation>| #[trigger]
                in_group(nodes, own) && is_number(own, node.id, n) && precedes(own.clock, m.clock);
            assert(at_most(own.clock, nodes[i].clock));
            at_most_pointwise(own.clock, node.clock);
            assert(seq_of(own.clock, node.id) <= seq_of(node.clock, node.id));
        }
    }
}

/// What a member adds is a member.
pub proof fn member_can_add(history: Seq<Signed<Operation>>, m: Signed<Operation>, added: NodeId)
    requires
        well_rooted(history),
        members_of(history).contains(m.public_key),
        m.payload == Operation::Add(added),
    ensures
        well_rooted(history.push(m)),
        members_of(history.push(m)) == members_of(history).insert(added),
{
    push_keeps_rooted(history, m);
}

/// What a member removes is no member.
pub proof fn member_can_remove(
    history: Seq<Signed<Operation>>,
    m: Signed<Operation>,
    removed: NodeId,
)
    requires
        well_rooted(history),
        members_of(history).contains(m.public_key),
        m.payload == Operation::Remove(removed),
    ensures
        well_rooted(history.push(m)),
        members_of(history.push(m)) == members_of(history).remove(removed),
{
    push_keeps_rooted(history, m);
}

/// Nodes that are no members change nothing.
pub proof fn strangers_change_nothing(history: Seq<Signed<Operation>>, m: Signed<Operation>)
    requires
        well_rooted(history),
        !members_of(history).contains(m.public_key),
    ensures
        well_rooted(history.push(m)),
        members_of(history.push(m)) == members_of(history),
{
    push_keeps_rooted(history, m);
}

/// Removing a node undoes adding it, where it was no member before.
pub proof fn removing_undoes_adding(
    history: Seq<Signed<Operation>>,
    add: Signed<Operation>,
    remove: Signed<Operation>,
    node: NodeId,
)
    requires
        well_rooted(history),
        members_of(history).contains(add.public_key),
        members_of(history).contains(remove.public_key),
        !members_of(history).contains(node),
        add.payload == Operation::Add(node),
        remove.payload == Operation::Remove(node),
    ensures
        well_rooted(history.push(add).push(remove)),
        members_of(history.push(add).push(remove)) == members_of(history),
{
    member_can_add(history, add, node);
    member_can_remove(history.push(add), remove, node);
    assert(members_of(history).insert(node).remove(node) =~= members_of(history));
}

/// A member that removes itself has no say from then on.
pub proof fn leaving_is_final(
    history: Seq<Signed<Operation>>,
    leave: Signed<Operation>,
    later: Signed<Operation>,
)
    requires
        well_rooted(history),
        members_of(history).contains(leave.public_key),
        leave.payload == Operation::Remove(leave.public_key),
        later.public_key == leave.public_key,
    ensures
        well_rooted(history.push(leave).push(later)),
        members_of(history.push(leave).push(later)) == members_of(history).remove(
            leave.public_key,
        ),
{
    member_can_remove(history, leave, leave.public_key);
    strangers_change_nothing(history.push(leave), later);
}

/// One more operation that founds no group, or is no member's, keeps the
/// history rooted.
proof fn push_keeps_rooted(history: Seq<Signed<Operation>>, m: Signed<Operation>)
    requires
        well_rooted(history),
        !(members_of(history).contains(m.public_key) && m.payload is Root),
    ensures
        well_rooted(history.push(m)),
        members_of(history.push(m)) == members_after(members_of(history), m),
{
    let all = history.push(m);
    assert(all.drop_last() =~= history);
    assert(all[0] == history[0]);
    assert forall|i: int| 1 <= i < all.len() implies !(members_of(all.take(i)).contains(
        (#[trigger] all[i]).public_key,
    ) && all[i].payload is Root) by {
        assert(all.take(i) =~= history.take(i));
        if i == history.len() {
            assert(history.take(i) =~= history);
        } else {
            assert(all[i] == history[i]);
        }
    }
}

/// The identifier of a group never changes by later operations.
pub proof fn root_id_is_kept(history: Seq<Signed<Operation>>, m: Signed<Operation>)
    requires
        root_id(history) is Some,
    ensures
        root_id(history.push(m)) == root_id(history),
    decreases history.len(),
{
    let all = history.push(m);
    assert(all[0] == history[0]);
    if !(history[0].payload is Root) {
        assert(all.drop_first() =~= history.drop_first().push(m));
        root_id_is_kept(history.drop_first(), m);
    }
}

/// A rooted history has an identifier.
pub proof fn rooted_has_id(history: Seq<Signed<Operation>>)
    requires
        well_rooted(history),
    ensures
        root_id(history) is Some,
{
}

/// What is signed determines the message: two messages with the same signed
/// bytes have the same clock and the same operation.
pub proof fn signed_bytes_determine_message(
    clock_a: Entries,
    a: Operation,
    clock_b: Entries,
    b: Operation,
)
    requires
        clock_a.len() <= u64::MAX,
        clock_b.len() <= u64::MAX,
        signed_bytes(clock_a, a) == signed_bytes(clock_b, b),
    ensures
        clock_a == clock_b,
        a == b,
{
    clock_bytes_prefix_free(clock_a, clock_b, a.encoding(), b.encoding());
    let (tag_a, rest_a) = tagged(a);
    let (tag_b, rest_b) = tagged(b);
    assert(a.encoding() =~= varint(tag_a) + rest_a);
    assert(b.encoding() =~= varint(tag_b) + rest_b);
    varint_prefix_free(tag_a, tag_b, rest_a, rest_b);
    match (a, b) {
        (
            Operation::Root { group_id: id_a, root_member: member_a },
            Operation::Root { group_id: id_b, root_member: member_b },
        ) => {
            varint_prefix_free(id_a, id_b, member_a.bytes@, member_b.bytes@);
            assert(member_a.bytes =~= member_b.bytes);
        },
        (Operation::Add(member_a), Operation::Add(member_b)) => {
            assert(member_a.bytes =~= member_b.bytes);
        },
        (Operation::Remove(member_a), Operation::Remove(member_b)) => {
            assert(member_a.bytes =~= member_b.bytes);
        },
        _ => {},
    }
}

/// The tag of an operation and what follows it.
spec fn tagged(operation: Operation) -> (u64, Seq<u8>) {
    match operation {
        Operation::Root { group_id, root_member } => (
            0,
            varint(group_id) + root_member.bytes@,
        ),
        Operation::Add(member) => (1, member.bytes@),
        Operation::Remove(member) => (2, member.bytes@),
    }
}

/// A group starts with the member that its root names, and with its number.
pub proof fn root_starts_the_group(m: Signed<Operation>, group_id: u64, founder: NodeId)
    requires
        m.payload == (Operation::Root { group_id, root_member: founder }),
    ensures
        well_rooted(seq![m]),
        members_of(seq![m]) == set![founder],
        root_id(seq![m]) == Some(group_id),
{
}

/// Operations that do not start with a root are none of a group, and neither
/// are those in which a member founds the group again.
pub proof fn groups_are_founded_once(history: Seq<Signed<Operation>>, m: Signed<Operation>)
    ensures
        !well_rooted(Seq::empty()),
        history.len() > 0 && !(history[0].payload is Root) ==> !well_rooted(history),
        members_of(history).contains(m.public_key) && m.payload is Root && history.len() > 0
            ==> !well_rooted(history.push(m)),
        well_rooted(history.push(m)) && history.len() > 0 ==> well_rooted(history),
        history.len() == 0 ==> (well_rooted(history.push(m)) <==> m.payload is Root),
        well_rooted(history) && !(members_of(history).contains(m.public_key) && m.payload is Root)
            ==> well_rooted(history.push(m)),
{
    let all = history.push(m);
    let n = history.len() as int;
    assert(all.take(n) =~= history);
    if well_rooted(history) && !(members_of(history).contains(m.public_key) && m.payload is Root) {
        assert forall|i: int| 1 <= i < all.len() implies !(members_of(all.take(i)).contains(
            (#[trigger] all[i]).public_key,
        ) && all[i].payload is Root) by {
            if i < n {
                assert(all.take(i) =~= history.take(i));
                assert(all[i] == history[i]);
            }
        }
    }
    if history.len() > 0 {
        assert(all[0] == history[0]);
        assert(all[n] == m);
        if well_rooted(all) {
            assert(!(members_of(all.take(n)).contains(all[n].public_key) && all[n].payload is Root));
            assert forall|i: int| 1 <= i < history.len() implies !(members_of(
                history.take(i),
            ).contains((#[trigger] history[i]).public_key) && history[i].payload is Root) by {
                assert(all.take(i) =~= history.take(i));
                assert(all[i] == history[i]);
            }
        }
    }
}

/// The identifier of a group is that of the first root among its operations.
pub proof fn first_root_names_the_group(
    before: Seq<Signed<Operation>>,
    m: Signed<Operation>,
    after: Seq<Signed<Operation>>,
    group_id: u64,
    founder: NodeId,
)
    requires
        forall|i: int| 0 <= i < before.len() ==> !((#[trigger] before[i]).payload is Root),
        m.payload == (Operation::Root { group_id, root_member: founder }),
    ensures
        root_id(before) is None,
        root_id(before.push(m) + after) == Some(group_id),
    decreases before.len(),
{
    let all = before.push(m) + after;
    if before.len() == 0 {
        assert(all[0] == m);
    } else {
        let rest = before.drop_first();
        assert forall|i: int| 0 <= i < rest.len() implies !((#[trigger] rest[i]).payload is Root) by {
            assert(rest[i] == before[i + 1]);
        }
        first_root_names_the_group(rest, m, after, group_id, founder);
        assert(all[0] == before[0]);
        assert(all.drop_first() =~= rest.push(m) + after);
    }
}

/// The history of a group holds exactly the received operations that its clock
/// covers, and none of them before one that precedes it.
pub proof fn history_holds_what_is_delivered(acb: Broadcast<Operation>, m: Signed<Operation>)
    ensures
        operations(acb).contains(m) <==> acb.received.contains(m) && at_most(m.clock, acb.clock),
        operations(acb).len() <= acb.received.len(),
        forall|x: int, y: int|
            0 <= x < y < operations(acb).len() ==> !precedes(
                (#[trigger] operations(acb)[y]).clock,
                (#[trigger] operations(acb)[x]).clock,
            ),
{
    let ms = covered(acb.clock, acb.received);
    covered_is_part(acb.clock, acb.received);
    covered_is_no_longer(acb.clock, acb.received);
    order_holds_all_messages(ms);
}

proof fn covered_is_no_longer(clock: Entries, received: Seq<Signed<Operation>>)
    ensures
        covered(clock, received).len() <= received.len(),
    decreases received.len(),
{
    reveal(Seq::filter);
    if received.len() > 0 {
        covered_is_no_longer(clock, received.drop_last());
    }
}

/// A message that a node makes has the next number of the node, is kept behind
/// all others, and counts, as delivered, everything that its clock counted.
pub proof fn made_message_is_the_next(
    before: Broadcast<Operation>,
    after: Broadcast<Operation>,
    m: Signed<Operation>,
    id: NodeId,
)
    requires
        made_message(before, after, m),
        seq_of(before.clock, before.secret_key.id()) < u64::MAX,
    ensures
        m.public_key == before.secret_key.id(),
        after.received == before.received.push(m),
        after.secret_key == before.secret_key,
        seq_of(m.clock, id) == seq_of(before.clock, id) + if id == before.secret_key.id() {
            1int
        } else {
            0int
        },
        seq_of(after.clock, id) == seq_of(m.clock, id),
        !commits_to_neutral_point(m.signature.bytes@) ==> genuine(m),
{
    seq_of_counted(before.clock, before.secret_key.id());
}

} // verus!
