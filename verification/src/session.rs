//! What two nodes get out of talking to each other.

use crate::acb::{
    clock_after, covered, deliverable, drained, first_deliverable, genuine, number, stuck, Broadcast,
    Signed,
};
use crate::clock::{
    distinct, entries_are_sequence_numbers, first_entry_exists, has_entry, seq_of, Clock, Entries,
};
use crate::convergence::delivering_stays_between;
use crate::dgm::{
    made_message_is_the_next, member_can_add, member_can_remove, members_of, none_ahead, operations,
    root_id, well_rooted, GroupMembership, Operation,
};
use crate::key::{NodeId, SecretKey};
use crate::order::in_order;
use crate::proto::{
    accepting, all_genuine_is_genuine_part, change_outcome, changed, founded, greeting_of,
    messages_count_up_to_a_forged_one, other_than, outside_group, peers_with, peers_without,
    plan_for, receiving_loses_nothing, reply_accepted, shows_group, synced, welcomed, Accepted,
    Change, Plan, ProtocolError, ProtocolState,
};
use crate::sync::Sent;
use crate::system::with_all;
use vstd::prelude::*;

verus! {

/// Whether a node is a peer once a plan is carried out.
pub open spec fn peer_after(peers: Seq<NodeId>, plan: Plan, node: NodeId) -> bool {
    ||| peers.contains(node) && !plan.disconnect@.contains(node)
    ||| plan.connect@.contains(node)
}

/// Once a plan is carried out, a node is connected with exactly the other
/// members of its group.
pub proof fn plan_reaches_members(
    my_id: NodeId,
    members: Set<NodeId>,
    peers: Seq<NodeId>,
    plan: Plan,
    node: NodeId,
)
    requires
        plan_for(my_id, members, peers, plan),
        node != my_id,
    ensures
        peer_after(peers, plan, node) <==> members.contains(node),
{
    disconnected_iff_outside(my_id, members, peers, plan, node);
}

/// A plan disconnects exactly the peers that are not in the group.
pub proof fn disconnected_iff_outside(
    my_id: NodeId,
    members: Set<NodeId>,
    peers: Seq<NodeId>,
    plan: Plan,
    node: NodeId,
)
    requires
        plan_for(my_id, members, peers, plan),
    ensures
        plan.disconnect@.contains(node) <==> peers.contains(node) && node != my_id
            && !members.contains(node),
{
    let gone = outside_group(my_id, members);
    if plan.disconnect@.contains(node) {
        let i = choose|i: int| 0 <= i < plan.disconnect@.len() && plan.disconnect@[i] == node;
        peers.lemma_filter_pred(gone, i);
        peers.lemma_filter_contains_rev(gone, node);
    }
    if peers.contains(node) && node != my_id && !members.contains(node) {
        let i = choose|i: int| 0 <= i < peers.len() && peers[i] == node;
        assert(gone(peers[i]));
        peers.lemma_filter_contains(gone, i);
    }
}

/// There is nothing left to do where a node is connected with exactly the
/// other members of its group.
pub proof fn settled_plan_is_empty(
    my_id: NodeId,
    members: Set<NodeId>,
    peers: Seq<NodeId>,
    plan: Plan,
)
    requires
        plan_for(my_id, members, peers, plan),
        forall|node: NodeId|
            node != my_id ==> (#[trigger] peers.contains(node) <==> members.contains(node)),
    ensures
        plan.disconnect@.len() == 0,
        plan.connect@.len() == 0,
{
    if plan.disconnect@.len() > 0 {
        let node = plan.disconnect@[0];
        assert(plan.disconnect@.contains(node));
        disconnected_iff_outside(my_id, members, peers, plan, node);
    }
    if plan.connect@.len() > 0 {
        let node = plan.connect@[0];
        assert(plan.connect@.contains(node));
        assert(!peers.contains(node));
    }
}

/// Peers are remembered once each.
pub proof fn peers_stay_different(peers: Seq<NodeId>, node: NodeId)
    requires
        peers.no_duplicates(),
    ensures
        peers_with(peers, node).no_duplicates(),
        peers_without(peers, node).no_duplicates(),
    decreases peers.len(),
{
    reveal(Seq::filter);
    if peers.len() > 0 {
        let rest = peers.drop_last();
        peers_stay_different(rest, node);
        let kept = peers_without(rest, node);
        assert forall|i: int| 0 <= i < kept.len() implies kept[i] != peers.last() by {
            assert(kept.contains(kept[i]));
            rest.lemma_filter_contains_rev(other_than(node), kept[i]);
        }
    }
}

/// Disconnecting a peer undoes connecting it.
pub proof fn disconnecting_undoes_connecting(peers: Seq<NodeId>, node: NodeId)
    requires
        !peers.contains(node),
    ensures
        peers_without(peers_with(peers, node), node) == peers,
{
    all_others_stay(peers, node);
    reveal(Seq::filter);
    assert(peers.push(node).drop_last() =~= peers);
}

proof fn all_others_stay(peers: Seq<NodeId>, node: NodeId)
    requires
        !peers.contains(node),
    ensures
        peers_without(peers, node) == peers,
    decreases peers.len(),
{
    reveal(Seq::filter);
    if peers.len() > 0 {
        let rest = peers.drop_last();
        assert forall|i: int| 0 <= i < rest.len() implies rest[i] != node by {
            assert(rest[i] == peers[i]);
        }
        all_others_stay(rest, node);
        assert(peers =~= rest.push(peers.last()));
    }
}

/// A node that a member adds becomes a member, and the member connects to it.
pub proof fn joined_node_becomes_member(
    before: Broadcast<Operation>,
    after: Broadcast<Operation>,
    peers: Seq<NodeId>,
    change: Change,
    node: NodeId,
)
    requires
        changed(before, after, Operation::Add(node), before.secret_key.id(), peers, change),
        distinct(before.clock),
        none_ahead(before.received, before.clock, before.secret_key.id()),
        well_rooted(operations(before)),
        members_of(operations(before)).contains(before.secret_key.id()),
    ensures
        members_of(operations(after)) == members_of(operations(before)).insert(node),
        change.plan is Some,
        node != before.secret_key.id() && !peers.contains(node)
            ==> change.plan->0.connect@.contains(node),
{
    member_can_add(operations(before), change.message@, node);
}

/// A node that a member removes is no longer a member, and is disconnected.
pub proof fn removed_node_is_disconnected(
    before: Broadcast<Operation>,
    after: Broadcast<Operation>,
    peers: Seq<NodeId>,
    change: Change,
    node: NodeId,
)
    requires
        changed(before, after, Operation::Remove(node), before.secret_key.id(), peers, change),
        distinct(before.clock),
        none_ahead(before.received, before.clock, before.secret_key.id()),
        well_rooted(operations(before)),
        members_of(operations(before)).contains(before.secret_key.id()),
    ensures
        members_of(operations(after)) == members_of(operations(before)).remove(node),
        change.plan is Some,
        node != before.secret_key.id() && peers.contains(node)
            ==> change.plan->0.disconnect@.contains(node),
{
    member_can_remove(operations(before), change.message@, node);
    disconnected_iff_outside(
        before.secret_key.id(),
        members_of(operations(after)),
        peers,
        change.plan->0,
        node,
    );
}

/// A handshake between two nodes of the same group completes on both sides,
/// changes neither group, and tells each the clock of the other.
pub proof fn handshake_completes(
    a: Broadcast<Operation>,
    b: GroupMembership,
    id: u64,
    secret_key: SecretKey,
    peers: Seq<NodeId>,
    after: Option<GroupMembership>,
    accepted: Result<Accepted, ProtocolError>,
    replied: Result<Clock, ProtocolError>,
)
    requires
        root_id(operations(a)) == Some(id),
        root_id(b.history()) == Some(id),
        accepting(secret_key, peers, Some(b), Some(greeting_of(a, id, false)), after, accepted),
        reply_accepted(id, Some(greeting_of(b.acb@, id, false)), replied),
    ensures
        after == Some(b),
        accepted is Ok,
        accepted->Ok_0.remote_clock@ == a.clock,
        replied is Ok,
        replied->Ok_0@ == b.acb@.clock,
{
}

/// A node of another group is refused, whether it greets or welcomes, and
/// changes nothing.
pub proof fn other_groups_are_refused(
    a: Broadcast<Operation>,
    b: GroupMembership,
    id: u64,
    welcome: bool,
    secret_key: SecretKey,
    peers: Seq<NodeId>,
    after: Option<GroupMembership>,
    accepted: Result<Accepted, ProtocolError>,
)
    requires
        root_id(b.history()) is Some,
        root_id(b.history()) != Some(id),
        accepting(secret_key, peers, Some(b), Some(greeting_of(a, id, welcome)), after, accepted),
    ensures
        after == Some(b),
        accepted == Err::<Accepted, _>(
            if welcome {
                ProtocolError::AlreadyInOtherGroup
            } else {
                ProtocolError::GroupMismatch
            },
        ),
{
}

/// Delivering changes nothing where nothing can be delivered.
proof fn drained_stays(clock: Entries, received: Seq<Signed<Operation>>, n: nat)
    requires
        drained(clock, received),
    ensures
        clock_after(clock, received, n) == clock,
    decreases n,
{
    if n > 0 {
        drained_stays(clock, received, (n - 1) as nat);
        if exists|i: int| first_deliverable(clock, received, i) {
            let i = choose|i: int| first_deliverable(clock, received, i);
            assert(!deliverable(clock, received[i]));
        }
    }
}

/// A node that is welcomed has from then on the group of the node that
/// welcomed it: the same messages, the same clock, and so the same members and
/// identifier. Its reply is accepted.
pub proof fn welcome_shares_group(
    a: Broadcast<Operation>,
    id: u64,
    secret_key: SecretKey,
    peers: Seq<NodeId>,
    after: Option<GroupMembership>,
    accepted: Result<Accepted, ProtocolError>,
    replied: Result<Clock, ProtocolError>,
)
    requires
        root_id(operations(a)) == Some(id),
        drained(a.clock, a.received),
        accepting(secret_key, peers, None, Some(greeting_of(a, id, true)), after, accepted),
        after is Some ==> reply_accepted(
            id,
            Some(greeting_of(after->0.acb@, root_id(after->0.history())->0, false)),
            replied,
        ),
    ensures
        accepted is Ok,
        accepted->Ok_0.remote_clock@ == a.clock,
        accepted->Ok_0.plan is None,
        after is Some,
        after->0.acb@.secret_key == secret_key,
        after->0.acb@.clock == a.clock,
        after->0.acb@.received == a.received,
        after->0.history() == operations(a),
        replied is Ok,
        replied->Ok_0@ == a.clock,
{
    let start = Broadcast { secret_key, clock: a.clock, received: a.received };
    let end = choose|end: Broadcast<Operation>| #[trigger]
        welcomed(start, end, a.clock, secret_key.id(), peers, accepted) && match after {
            Some(group) => accepted is Ok && group.acb@ == end,
            None => accepted is Err,
        };
    assert(welcomed(start, end, a.clock, secret_key.id(), peers, accepted));
    let n = choose|n: nat| end.clock == #[trigger] clock_after(start.clock, start.received, n);
    drained_stays(start.clock, start.received, n);
    if stuck(end.clock, end.received) {
        let i = choose|i: int| #[trigger] first_deliverable(end.clock, end.received, i);
        assert(!deliverable(end.clock, end.received[i]));
    }
}

/// A sync loses nothing, whether or not anything could be delivered: where all
/// messages are signed by their senders, every message that was there is there
/// afterwards, for every message that came one of the same sender with the same
/// number is, and nothing else. The clock goes back for no node, and nothing is
/// left that can be delivered, unless a message does not count itself.
pub proof fn sync_loses_nothing(
    before: Broadcast<Operation>,
    after: Broadcast<Operation>,
    messages: Seq<Signed<Operation>>,
    my_id: NodeId,
    peers: Seq<NodeId>,
    result: Result<Option<Plan>, ProtocolError>,
)
    requires
        synced(before, after, messages, my_id, peers, result),
        forall|i: int| 0 <= i < messages.len() ==> genuine(#[trigger] messages[i]),
    ensures
        after.secret_key == before.secret_key,
        forall|m: Signed<Operation>| #[trigger]
            before.received.contains(m) ==> after.received.contains(m),
        forall|i: int|
            0 <= i < messages.len() ==> exists|k: int|
                0 <= k < after.received.len() && (#[trigger] after.received[k]).public_key == (
                #[trigger] messages[i]).public_key && seq_of(
                    after.received[k].clock,
                    messages[i].public_key,
                ) == seq_of(messages[i].clock, messages[i].public_key),
        forall|m: Signed<Operation>| #[trigger]
            after.received.contains(m) ==> before.received.contains(m) || messages.contains(m),
        forall|id: NodeId| #[trigger] seq_of(before.clock, id) <= seq_of(after.clock, id),
        result != Err::<Option<Plan>, _>(ProtocolError::EndlessDelivery) ==> forall|k: int|
            0 <= k < after.received.len() ==> !deliverable(
                after.clock,
                #[trigger] after.received[k],
            ),
        result != Err::<Option<Plan>, _>(ProtocolError::BadSignature),
{
    all_genuine_is_genuine_part(messages);
    receiving_loses_nothing(before.received, messages);
    let n = choose|n: nat|
        after.clock == #[trigger] clock_after(
            before.clock,
            with_all(before.received, messages),
            n,
        );
    delivering_stays_between(
        before.clock,
        with_all(before.received, messages),
        n,
        before.clock,
    );
}

/// A sync tells what came of it: there is a plan exactly where something was
/// delivered, and once it is carried out, the node is connected with exactly
/// the other members that the delivered operations leave. Where nothing was
/// delivered, the clock stays. It fails only where the delivered operations are
/// not those of one group, or a message does not count itself.
pub proof fn sync_leads_to_the_members(
    before: Broadcast<Operation>,
    after: Broadcast<Operation>,
    messages: Seq<Signed<Operation>>,
    my_id: NodeId,
    peers: Seq<NodeId>,
    result: Result<Option<Plan>, ProtocolError>,
    node: NodeId,
)
    requires
        synced(before, after, messages, my_id, peers, result),
        forall|i: int| 0 <= i < messages.len() ==> genuine(#[trigger] messages[i]),
    ensures
        result == Ok::<Option<Plan>, ProtocolError>(None) ==> after.clock == before.clock && forall|
            k: int,
        |
            0 <= k < after.received.len() ==> !deliverable(
                before.clock,
                #[trigger] after.received[k],
            ),
        (forall|k: int|
            0 <= k < after.received.len() ==> !deliverable(
                before.clock,
                #[trigger] after.received[k],
            )) ==> result == Ok::<Option<Plan>, ProtocolError>(None),
        result matches Ok(Some(plan)) ==> node != my_id ==> ((peers.contains(node)
            && !plan.disconnect@.contains(node) || plan.connect@.contains(node)) <==> members_of(
            in_order(covered(after.clock, after.received)),
        ).contains(node)),
        result matches Ok(Some(_)) ==> well_rooted(in_order(covered(after.clock, after.received))),
        result matches Err(why) ==> why == ProtocolError::NotRooted || why
            == ProtocolError::EndlessDelivery,
        result == Err::<Option<Plan>, _>(ProtocolError::NotRooted) ==> !well_rooted(
            in_order(covered(after.clock, after.received)),
        ),
        result == Err::<Option<Plan>, _>(ProtocolError::EndlessDelivery) ==> exists|k: int|
            0 <= k < after.received.len() && !has_entry(
                (#[trigger] after.received[k]).clock,
                after.received[k].public_key,
            ),
{
    all_genuine_is_genuine_part(messages);
    let received = with_all(before.received, messages);
    if forall|k: int|
        0 <= k < after.received.len() ==> !deliverable(before.clock, #[trigger] after.received[k]) {
        assert(drained(before.clock, received));
        let n = choose|n: nat| after.clock == #[trigger] clock_after(before.clock, received, n);
        drained_stays(before.clock, received, n);
        if stuck(after.clock, after.received) {
            let i = choose|i: int| #[trigger] first_deliverable(after.clock, after.received, i);
            assert(!deliverable(after.clock, after.received[i]));
        }
    }
    if let Ok(Some(plan)) = result {
        if node != my_id {
            plan_reaches_members(my_id, members_of(operations(after)), peers, plan, node);
        }
    }
    if result == Err::<Option<Plan>, _>(ProtocolError::EndlessDelivery) {
        let i = choose|i: int| #[trigger]
            first_deliverable(after.clock, after.received, i) && !has_entry(
                after.received[i].clock,
                after.received[i].public_key,
            );
        assert(after.received[i].clock == after.received[i].clock);
    }
}

/// A sync in which a message is not signed by its sender is refused. What came
/// before that message is kept, nothing behind it is, and nothing is delivered.
pub proof fn sync_with_forged_message_is_refused(
    before: Broadcast<Operation>,
    after: Broadcast<Operation>,
    messages: Seq<Signed<Operation>>,
    my_id: NodeId,
    peers: Seq<NodeId>,
    result: Result<Option<Plan>, ProtocolError>,
    i: int,
)
    requires
        synced(before, after, messages, my_id, peers, result),
        0 <= i < messages.len(),
        forall|j: int| 0 <= j < i ==> genuine(#[trigger] messages[j]),
        !genuine(messages[i]),
    ensures
        result == Err::<Option<Plan>, _>(ProtocolError::BadSignature),
        after.clock == before.clock,
        after.secret_key == before.secret_key,
        forall|m: Signed<Operation>| #[trigger]
            before.received.contains(m) ==> after.received.contains(m),
        forall|m: Signed<Operation>| #[trigger]
            after.received.contains(m) ==> before.received.contains(m) || messages.take(
                i,
            ).contains(m),
        forall|j: int|
            0 <= j < i ==> exists|k: int|
                0 <= k < after.received.len() && (#[trigger] after.received[k]).public_key == (
                #[trigger] messages[j]).public_key && seq_of(
                    after.received[k].clock,
                    messages[j].public_key,
                ) == seq_of(messages[j].clock, messages[j].public_key),
{
    messages_count_up_to_a_forged_one(messages, i);
    let part = messages.take(i);
    receiving_loses_nothing(before.received, part);
    assert(after.received == with_all(before.received, part));
    assert forall|j: int| 0 <= j < i implies exists|k: int|
        0 <= k < after.received.len() && (#[trigger] after.received[k]).public_key == (
        #[trigger] messages[j]).public_key && seq_of(
            after.received[k].clock,
            messages[j].public_key,
        ) == seq_of(messages[j].clock, messages[j].public_key) by {
        assert(part[j] == messages[j]);
        let k = choose|k: int|
            0 <= k < after.received.len() && (#[trigger] after.received[k]).public_key
                == part[j].public_key && seq_of(after.received[k].clock, part[j].public_key)
                == seq_of(part[j].clock, part[j].public_key);
        assert(after.received[k].public_key == messages[j].public_key);
    }
}

/// Messages that are handed over in several calls, one after the other.
pub struct Calls {
    pub states: Seq<Broadcast<Operation>>,
    pub messages: Seq<Seq<Signed<Operation>>>,
    pub peers: Seq<Seq<NodeId>>,
    pub results: Seq<Result<Option<Plan>, ProtocolError>>,
}

impl Calls {
    /// Whether a node was handed these messages, all of them genuine, and the
    /// calls came to these results.
    pub open spec fn of_genuine(self, my_id: NodeId) -> bool {
        &&& self.states.len() == self.messages.len() + 1
        &&& forall|t: int|
            0 <= t < self.messages.len() ==> synced(
                #[trigger] self.states[t],
                self.states[t + 1],
                self.messages[t],
                my_id,
                self.peers[t],
                self.results[t],
            )
        &&& forall|t: int, i: int|
            0 <= t < self.messages.len() && 0 <= i < self.messages[t].len() ==> genuine(
                #[trigger] self.messages[t][i],
            )
    }

    /// Whether a message was handed over in one of the first calls.
    pub open spec fn handed(self, calls: int, m: Signed<Operation>) -> bool {
        exists|t: int| 0 <= t < calls && (#[trigger] self.messages[t]).contains(m)
    }
}

/// Receiving messages of which no two have the same sender and number adds
/// exactly them.
proof fn receiving_adds_exactly<P>(
    received: Seq<Signed<P>>,
    messages: Seq<Signed<P>>,
    all: Set<Signed<P>>,
)
    requires
        forall|m: Signed<P>| #[trigger] received.contains(m) ==> all.contains(m),
        forall|m: Signed<P>| #[trigger] messages.contains(m) ==> all.contains(m),
        forall|m: Signed<P>, w: Signed<P>| #[trigger]
            all.contains(m) && #[trigger] all.contains(w) && m.public_key == w.public_key
                && number(m) == number(w) ==> m == w,
    ensures
        forall|m: Signed<P>| #[trigger]
            with_all(received, messages).contains(m) <==> received.contains(m)
                || messages.contains(m),
{
    receiving_loses_nothing(received, messages);
    let after = with_all(received, messages);
    assert forall|m: Signed<P>| #[trigger] after.contains(m) <==> received.contains(m)
        || messages.contains(m) by {
        if messages.contains(m) {
            let i = choose|i: int| 0 <= i < messages.len() && messages[i] == m;
            let k = choose|k: int|
                0 <= k < after.len() && (#[trigger] after[k]).public_key == messages[i].public_key
                    && seq_of(after[k].clock, messages[i].public_key) == seq_of(
                    messages[i].clock,
                    messages[i].public_key,
                );
            assert(after.contains(after[k]));
            assert(received.contains(after[k]) || messages.contains(after[k]));
            assert(all.contains(after[k]) && all.contains(m));
            assert(after[k] == m);
        }
    }
}

/// However far some calls get, they stay below a clock at which nothing of all
/// the messages is left to deliver.
proof fn calls_so_far(
    calls: Calls,
    my_id: NodeId,
    all: Set<Signed<Operation>>,
    end: Seq<Signed<Operation>>,
    bound: Entries,
    t: int,
)
    requires
        calls.of_genuine(my_id),
        0 <= t <= calls.messages.len(),
        forall|m: Signed<Operation>| #[trigger]
            calls.states[0].received.contains(m) ==> all.contains(m),
        forall|m: Signed<Operation>| #[trigger]
            calls.handed(calls.messages.len() as int, m) ==> all.contains(m),
        forall|m: Signed<Operation>, w: Signed<Operation>| #[trigger]
            all.contains(m) && #[trigger] all.contains(w) && m.public_key == w.public_key
                && number(m) == number(w) ==> m == w,
        forall|m: Signed<Operation>| #[trigger]
            calls.states[0].received.contains(m) ==> end.contains(m),
        forall|m: Signed<Operation>| #[trigger]
            calls.handed(calls.messages.len() as int, m) ==> end.contains(m),
        forall|id: NodeId| #[trigger] seq_of(calls.states[0].clock, id) <= seq_of(bound, id),
        forall|k: int| 0 <= k < end.len() ==> !deliverable(bound, #[trigger] end[k]),
    ensures
        forall|id: NodeId| #[trigger] seq_of(calls.states[t].clock, id) <= seq_of(bound, id),
    decreases t,
{
    let total = calls.messages.len() as int;
    if t > 0 {
        calls_so_far(calls, my_id, all, end, bound, t - 1);
        let before = calls.states[t - 1];
        let after = calls.states[t];
        let messages = calls.messages[t - 1];
        assert(synced(
            calls.states[t - 1],
            calls.states[t - 1 + 1],
            messages,
            my_id,
            calls.peers[t - 1],
            calls.results[t - 1],
        ));
        assert forall|i: int| 0 <= i < messages.len() implies genuine(#[trigger] messages[i]) by {
            assert(genuine(calls.messages[t - 1][i]));
        }
        all_genuine_is_genuine_part(messages);
        let received = with_all(before.received, messages);
        assert(after.received == received);
        calls_bring_everything(calls, my_id, all, t);
        assert forall|k: int| 0 <= k < received.len() implies !deliverable(
            bound,
            #[trigger] received[k],
        ) by {
            let m = received[k];
            assert(received.contains(m));
            assert(calls.states[t].received.contains(m));
            if calls.handed(t, m) {
                let u = choose|u: int| 0 <= u < t && (#[trigger] calls.messages[u]).contains(m);
                assert(calls.handed(total, m));
            }
            assert(calls.states[0].received.contains(m) || calls.handed(total, m));
            assert(end.contains(m));
            let l = choose|l: int| 0 <= l < end.len() && end[l] == m;
            assert(!deliverable(bound, end[l]));
        }
        let n = choose|n: nat| after.clock == #[trigger] clock_after(before.clock, received, n);
        assert forall|id: NodeId| #[trigger] seq_of(before.clock, id) <= seq_of(bound, id) by {
            assert(seq_of(calls.states[t - 1].clock, id) <= seq_of(bound, id));
        }
        delivering_stays_between(before.clock, received, n, bound);
    }
}

/// What a node had is there after any calls, and its clock goes back for no
/// node.
proof fn calls_grow(calls: Calls, my_id: NodeId, t: int)
    requires
        calls.of_genuine(my_id),
        0 <= t <= calls.messages.len(),
    ensures
        forall|id: NodeId| #[trigger]
            seq_of(calls.states[0].clock, id) <= seq_of(calls.states[t].clock, id),
        t > 0 && calls.results[t - 1] != Err::<Option<Plan>, _>(ProtocolError::EndlessDelivery)
            ==> drained(calls.states[t].clock, calls.states[t].received),
    decreases t,
{
    if t > 0 {
        calls_grow(calls, my_id, t - 1);
        let before = calls.states[t - 1];
        let messages = calls.messages[t - 1];
        assert(synced(
            calls.states[t - 1],
            calls.states[t - 1 + 1],
            messages,
            my_id,
            calls.peers[t - 1],
            calls.results[t - 1],
        ));
        assert forall|i: int| 0 <= i < messages.len() implies genuine(#[trigger] messages[i]) by {
            assert(genuine(calls.messages[t - 1][i]));
        }
        sync_loses_nothing(
            before,
            calls.states[t],
            messages,
            my_id,
            calls.peers[t - 1],
            calls.results[t - 1],
        );
        assert forall|id: NodeId| #[trigger]
            seq_of(calls.states[0].clock, id) <= seq_of(calls.states[t].clock, id) by {
            assert(seq_of(before.clock, id) <= seq_of(calls.states[t].clock, id));
            assert(seq_of(calls.states[0].clock, id) <= seq_of(calls.states[t - 1].clock, id));
        }
    }
}

/// What a node has received at the end of calls is what it had, and all that it
/// was handed, where no two messages have the same sender and number.
proof fn calls_bring_everything(
    calls: Calls,
    my_id: NodeId,
    all: Set<Signed<Operation>>,
    t: int,
)
    requires
        calls.of_genuine(my_id),
        0 <= t <= calls.messages.len(),
        forall|m: Signed<Operation>| #[trigger]
            calls.states[0].received.contains(m) ==> all.contains(m),
        forall|m: Signed<Operation>| #[trigger]
            calls.handed(calls.messages.len() as int, m) ==> all.contains(m),
        forall|m: Signed<Operation>, w: Signed<Operation>| #[trigger]
            all.contains(m) && #[trigger] all.contains(w) && m.public_key == w.public_key
                && number(m) == number(w) ==> m == w,
    ensures
        forall|m: Signed<Operation>| #[trigger]
            calls.states[t].received.contains(m) <==> calls.states[0].received.contains(m)
                || calls.handed(t, m),
    decreases t,
{
    let total = calls.messages.len() as int;
    if t > 0 {
        calls_bring_everything(calls, my_id, all, t - 1);
        let before = calls.states[t - 1];
        let messages = calls.messages[t - 1];
        assert(synced(
            calls.states[t - 1],
            calls.states[t - 1 + 1],
            messages,
            my_id,
            calls.peers[t - 1],
            calls.results[t - 1],
        ));
        assert forall|i: int| 0 <= i < messages.len() implies genuine(#[trigger] messages[i]) by {
            assert(genuine(calls.messages[t - 1][i]));
        }
        all_genuine_is_genuine_part(messages);
        let received = with_all(before.received, messages);
        assert(calls.states[t].received == received);
        assert forall|m: Signed<Operation>| #[trigger] messages.contains(m) implies all.contains(
            m,
        ) by {
            assert(calls.messages[t - 1].contains(m));
            assert(calls.handed(total, m));
        }
        assert forall|m: Signed<Operation>| #[trigger] before.received.contains(
            m,
        ) implies all.contains(m) by {
            assert(calls.states[t - 1].received.contains(m));
            if calls.handed(t - 1, m) {
                let u = choose|u: int| 0 <= u < t - 1 && (#[trigger] calls.messages[u]).contains(m);
                assert(calls.handed(total, m));
            }
        }
        receiving_adds_exactly(before.received, messages, all);
        assert forall|m: Signed<Operation>| #[trigger] calls.states[t].received.contains(m)
            <==> calls.states[0].received.contains(m) || calls.handed(t, m) by {
            assert(received.contains(m) <==> before.received.contains(m) || messages.contains(m));
            assert(calls.states[t - 1].received.contains(m) <==> calls.states[0].received.contains(
                m,
            ) || calls.handed(t - 1, m));
            if calls.handed(t - 1, m) {
                let u = choose|u: int| 0 <= u < t - 1 && (#[trigger] calls.messages[u]).contains(m);
                assert(calls.handed(t, m));
            }
            if messages.contains(m) {
                assert(calls.messages[t - 1].contains(m));
                assert(calls.handed(t, m));
            }
            if calls.handed(t, m) {
                let u = choose|u: int| 0 <= u < t && (#[trigger] calls.messages[u]).contains(m);
                if u < t - 1 {
                    assert(calls.handed(t - 1, m));
                }
            }
        }
    }
}

/// The order in which messages come does not matter, nor in how many calls: a
/// node that is handed the same messages, one call at a time in any order or
/// all in one call, ends with the same messages, where no two different ones
/// have the same sender and number. The clock numbers are the same too, unless
/// the last call finds a message that does not count itself.
pub proof fn sync_order_does_not_matter(a: Calls, b: Calls, my_id: NodeId)
    requires
        a.of_genuine(my_id),
        b.of_genuine(my_id),
        a.messages.len() > 0,
        b.messages.len() > 0,
        a.states[0] == b.states[0],
        forall|m: Signed<Operation>| #[trigger]
            a.handed(a.messages.len() as int, m) <==> b.handed(b.messages.len() as int, m),
        forall|m: Signed<Operation>, w: Signed<Operation>|
            (a.states[0].received.contains(m) || #[trigger] a.handed(a.messages.len() as int, m))
                && (a.states[0].received.contains(w) || #[trigger] a.handed(
                a.messages.len() as int,
                w,
            )) && m.public_key == w.public_key && seq_of(m.clock, m.public_key) == seq_of(
                w.clock,
                w.public_key,
            ) ==> m == w,
    ensures
        a.states.last().received.to_set() == b.states.last().received.to_set(),
        a.results[a.messages.len() - 1] != Err::<Option<Plan>, _>(ProtocolError::EndlessDelivery)
            && b.results[b.messages.len() - 1] != Err::<Option<Plan>, _>(
            ProtocolError::EndlessDelivery,
        ) ==> forall|id: NodeId| #[trigger]
            seq_of(a.states.last().clock, id) == seq_of(b.states.last().clock, id),
{
    let na = a.messages.len() as int;
    let nb = b.messages.len() as int;
    let start = a.states[0].received;
    let all = Set::new(|m: Signed<Operation>| start.contains(m) || a.handed(na, m));
    calls_grow(a, my_id, na);
    calls_grow(b, my_id, nb);
    assert forall|m: Signed<Operation>| #[trigger] b.handed(nb, m) implies all.contains(m) by {
        assert(a.handed(na, m));
    }
    assert forall|m: Signed<Operation>, w: Signed<Operation>| #[trigger]
        all.contains(m) && #[trigger] all.contains(w) && m.public_key == w.public_key && number(m)
            == number(w) implies m == w by {
        let handed_m = a.handed(a.messages.len() as int, m);
        let handed_w = a.handed(a.messages.len() as int, w);
        assert(a.states[0].received.contains(m) || handed_m);
        assert(a.states[0].received.contains(w) || handed_w);
        assert(seq_of(m.clock, m.public_key) == seq_of(w.clock, w.public_key));
    }
    calls_bring_everything(a, my_id, all, na);
    calls_bring_everything(b, my_id, all, nb);
    let end_a = a.states[na];
    let end_b = b.states[nb];
    assert(a.states.last() == end_a && b.states.last() == end_b);
    assert forall|m: Signed<Operation>| end_a.received.to_set().contains(m)
        <==> end_b.received.to_set().contains(m) by {
        assert(a.states[na].received.contains(m) <==> start.contains(m) || a.handed(na, m));
        assert(b.states[nb].received.contains(m) <==> start.contains(m) || b.handed(nb, m));
        assert(a.handed(na, m) <==> b.handed(nb, m));
    }
    assert(end_a.received.to_set() =~= end_b.received.to_set());
    assert forall|m: Signed<Operation>| #[trigger] a.handed(
        na,
        m,
    ) implies end_b.received.contains(m) by {
        assert(b.handed(nb, m));
        assert(b.states[nb].received.contains(m));
    }
    assert forall|m: Signed<Operation>| #[trigger] a.states[0].received.contains(
        m,
    ) implies end_b.received.contains(m) by {
        assert(b.states[nb].received.contains(m));
    }
    assert forall|m: Signed<Operation>| #[trigger] b.handed(
        nb,
        m,
    ) implies end_a.received.contains(m) by {
        assert(a.handed(na, m));
        assert(a.states[na].received.contains(m));
    }
    assert forall|m: Signed<Operation>| #[trigger] b.states[0].received.contains(
        m,
    ) implies end_a.received.contains(m) by {
        assert(a.states[na].received.contains(m));
    }
    let endless = Err::<Option<Plan>, _>(ProtocolError::EndlessDelivery);
    if a.results[na - 1] != endless && b.results[nb - 1] != endless {
        calls_so_far(a, my_id, all, end_b.received, end_b.clock, na);
        calls_so_far(b, my_id, all, end_a.received, end_a.clock, nb);
        assert forall|id: NodeId| #[trigger] seq_of(a.states.last().clock, id) == seq_of(
            b.states.last().clock,
            id,
        ) by {
            assert(seq_of(a.states[na].clock, id) <= seq_of(end_b.clock, id));
            assert(seq_of(b.states[nb].clock, id) <= seq_of(end_a.clock, id));
        }
    }
}

/// A node that is in the group already and is welcomed again takes the messages
/// of the welcome as those of a sync, and learns the clock of the peer.
pub proof fn second_welcome_is_a_sync(
    group: GroupMembership,
    group_id: u64,
    clock: Entries,
    messages: Seq<Signed<Operation>>,
    secret_key: SecretKey,
    peers: Seq<NodeId>,
    after: Option<GroupMembership>,
    accepted: Result<Accepted, ProtocolError>,
)
    requires
        root_id(group.history()) == Some(group_id),
        accepting(
            secret_key,
            peers,
            Some(group),
            Some(Sent::Welcome { group_id, clock, messages }),
            after,
            accepted,
        ),
    ensures
        after is Some,
        accepted is Ok ==> accepted->Ok_0.remote_clock@ == clock,
        synced(
            group.acb@,
            after->0.acb@,
            messages,
            secret_key.id(),
            peers,
            match accepted {
                Ok(done) => Ok(done.plan),
                Err(e) => Err(e),
            },
        ),
{
}

/// A node without a group that is welcomed either has all messages of the
/// welcome from then on, a clock that goes back for no node, and nothing left to
/// deliver, or it stays without a group. It is refused only where the
/// operations are not rooted, or a message does not count itself.
pub proof fn welcomed_node_has_everything(
    group_id: u64,
    clock: Entries,
    messages: Seq<Signed<Operation>>,
    secret_key: SecretKey,
    peers: Seq<NodeId>,
    after: Option<GroupMembership>,
    accepted: Result<Accepted, ProtocolError>,
)
    requires
        accepting(
            secret_key,
            peers,
            None,
            Some(Sent::Welcome { group_id, clock, messages }),
            after,
            accepted,
        ),
    ensures
        accepted is Ok <==> after is Some,
        after matches Some(group) ==> {
            &&& group.acb@.secret_key == secret_key
            &&& group.acb@.received == messages
            &&& accepted->Ok_0.remote_clock@ == clock
            &&& forall|id: NodeId| #[trigger] seq_of(clock, id) <= seq_of(group.acb@.clock, id)
            &&& forall|k: int|
                0 <= k < messages.len() ==> !deliverable(group.acb@.clock, #[trigger] messages[k])
            &&& accepted->Ok_0.plan is None ==> group.acb@.clock == clock
        },
        accepted matches Err(e) ==> e is NotRooted || e is EndlessDelivery,
        accepted matches Err(ProtocolError::EndlessDelivery) ==> exists|k: int|
            #![trigger messages[k]]
            0 <= k < messages.len() && forall|e: int|
                0 <= e < messages[k].clock.len() ==> (#[trigger] messages[k].clock[e]).0
                    != messages[k].public_key,
{
    let start = Broadcast { secret_key, clock, received: messages };
    let end = choose|end: Broadcast<Operation>| #[trigger]
        welcomed(start, end, clock, secret_key.id(), peers, accepted) && match after {
            Some(group) => accepted is Ok && group.acb@ == end,
            None => accepted is Err,
        };
    assert(welcomed(start, end, clock, secret_key.id(), peers, accepted));
    let n = choose|n: nat| end.clock == #[trigger] clock_after(clock, messages, n);
    delivering_stays_between(clock, messages, n, clock);
    if stuck(end.clock, end.received) {
        let i = choose|i: int|
            #[trigger] first_deliverable(end.clock, end.received, i) && !has_entry(
                end.received[i].clock,
                end.received[i].public_key,
            );
        let entries = messages[i].clock;
        assert forall|e: int| 0 <= e < entries.len() implies (#[trigger] entries[e]).0
            != messages[i].public_key by {
            if entries[e].0 == messages[i].public_key {
                let first = first_entry_exists(entries, messages[i].public_key, e);
            }
        }
    }
}

/// What is no handshake and no welcome is refused, and changes nothing. So is
/// nothing at all.
pub proof fn only_handshakes_open_a_connection(
    secret_key: SecretKey,
    peers: Seq<NodeId>,
    before: Option<GroupMembership>,
    handshake: Option<Sent>,
    after: Option<GroupMembership>,
    accepted: Result<Accepted, ProtocolError>,
)
    requires
        accepting(secret_key, peers, before, handshake, after, accepted),
        handshake is None || handshake->0 is Sync || handshake->0 is FileList,
    ensures
        accepted == Err::<Accepted, _>(ProtocolError::HandshakeFailed),
        after == before,
{
}

/// A handshake changes nothing, and is accepted exactly where the node is in no
/// group, or in the one that the handshake names.
pub proof fn handshakes_change_nothing(
    secret_key: SecretKey,
    peers: Seq<NodeId>,
    before: Option<GroupMembership>,
    group_id: u64,
    clock: Entries,
    after: Option<GroupMembership>,
    accepted: Result<Accepted, ProtocolError>,
)
    requires
        accepting(
            secret_key,
            peers,
            before,
            Some(Sent::Handshake { group_id, clock }),
            after,
            accepted,
        ),
    ensures
        after == before,
        accepted is Ok <==> (before matches Some(group) ==> root_id(group.history()) == Some(
            group_id,
        )),
        accepted matches Ok(done) ==> done.remote_clock@ == clock && done.plan is None,
{
}

/// A reply is accepted exactly where it is a handshake for the same group, and
/// tells the clock of the peer.
pub proof fn replies_are_for_the_same_group(
    my_group_id: u64,
    reply: Option<Sent>,
    outcome: Result<Clock, ProtocolError>,
    group_id: u64,
    clock: Entries,
)
    requires
        reply_accepted(my_group_id, reply, outcome),
    ensures
        reply == Some(Sent::Handshake { group_id, clock }) && group_id == my_group_id
            ==> outcome is Ok && outcome->Ok_0@ == clock,
        reply == Some(Sent::Handshake { group_id, clock }) && group_id != my_group_id
            ==> outcome == Err::<Clock, _>(ProtocolError::ReplyMismatch),
        reply is None || !(reply->0 is Handshake) ==> outcome == Err::<Clock, _>(
            ProtocolError::HandshakeFailed,
        ),
{
}

/// A node greets with its group, its clock, and, where it welcomes, all of its
/// messages.
pub proof fn greetings_tell_everything(acb: Broadcast<Operation>, group_id: u64)
    ensures
        greeting_of(acb, group_id, true) == (Sent::Welcome {
            group_id,
            clock: acb.clock,
            messages: acb.received,
        }),
        greeting_of(acb, group_id, false) == (Sent::Handshake { group_id, clock: acb.clock }),
{
}

/// A change of the members succeeds in every group, as long as the node has a
/// number left for its message. The message carries the change and the next
/// number, and all messages that were there stay.
pub proof fn member_changes_succeed(
    before: Option<GroupMembership>,
    after: Option<GroupMembership>,
    operation: Operation,
    my_id: NodeId,
    peers: Seq<NodeId>,
    outcome: Result<Change, ProtocolError>,
)
    requires
        change_outcome(before, after, operation, my_id, peers, outcome),
    ensures
        before is None ==> after is None && outcome == Err::<Change, _>(
            ProtocolError::NotInGroup,
        ),
        before matches Some(group) ==> (seq_of(group.acb@.clock, group.acb@.secret_key.id())
            == u64::MAX ==> after == before && outcome == Err::<Change, _>(
            ProtocolError::NumbersUsedUp,
        )),
        before matches Some(group) ==> (seq_of(group.acb@.clock, group.acb@.secret_key.id())
            < u64::MAX ==> {
            &&& after is Some
            &&& outcome is Ok
            &&& outcome->Ok_0.message@.payload == operation
            &&& outcome->Ok_0.message@.public_key == group.acb@.secret_key.id()
            &&& seq_of(
                outcome->Ok_0.message@.clock,
                group.acb@.secret_key.id(),
            ) == seq_of(group.acb@.clock, group.acb@.secret_key.id()) + 1
            &&& after->0.acb@.received == group.acb@.received.push(outcome->Ok_0.message@)
            &&& after->0.acb@.secret_key == group.acb@.secret_key
            &&& outcome->Ok_0.plan is Some <==> well_rooted(after->0.history())
        }),
{
    if let Some(group) = before {
        if seq_of(group.acb@.clock, group.acb@.secret_key.id()) < u64::MAX {
            made_message_is_the_next(
                group.acb@,
                after->0.acb@,
                outcome->Ok_0.message@,
                group.acb@.secret_key.id(),
            );
        }
    }
}

/// A plan that comes of a change of the members connects the node with exactly
/// the other members that there are now.
pub proof fn member_changes_lead_to_the_members(
    before: Option<GroupMembership>,
    after: Option<GroupMembership>,
    operation: Operation,
    my_id: NodeId,
    peers: Seq<NodeId>,
    outcome: Result<Change, ProtocolError>,
    plan: Plan,
    node: NodeId,
)
    requires
        change_outcome(before, after, operation, my_id, peers, outcome),
        outcome is Ok,
        outcome->Ok_0.plan == Some(plan),
        node != my_id,
    ensures
        (peers.contains(node) && !plan.disconnect@.contains(node) || plan.connect@.contains(
            node,
        )) <==> members_of(after->0.history()).contains(node),
{
    plan_reaches_members(my_id, members_of(after->0.history()), peers, plan, node);
}

/// A plan leaves the node itself alone, names no node twice that it connects,
/// and none that it disconnects where peers are remembered once each.
pub proof fn plans_name_each_node_once(
    my_id: NodeId,
    members: Set<NodeId>,
    peers: Seq<NodeId>,
    plan: Plan,
)
    requires
        plan_for(my_id, members, peers, plan),
    ensures
        !plan.connect@.contains(my_id),
        !plan.disconnect@.contains(my_id),
        plan.connect@.no_duplicates(),
        peers.no_duplicates() ==> plan.disconnect@.no_duplicates(),
{
    disconnected_iff_outside(my_id, members, peers, plan, my_id);
    if peers.no_duplicates() {
        filtering_keeps_different(peers, outside_group(my_id, members));
    }
}

proof fn filtering_keeps_different(nodes: Seq<NodeId>, pred: spec_fn(NodeId) -> bool)
    requires
        nodes.no_duplicates(),
    ensures
        nodes.filter(pred).no_duplicates(),
    decreases nodes.len(),
{
    reveal(Seq::filter);
    if nodes.len() > 0 {
        let rest = nodes.drop_last();
        filtering_keeps_different(rest, pred);
        let kept = rest.filter(pred);
        assert forall|i: int| 0 <= i < kept.len() implies kept[i] != nodes.last() by {
            assert(kept.contains(kept[i]));
            rest.lemma_filter_contains_rev(pred, kept[i]);
        }
    }
}

/// A node is a peer from when it is connected until it is disconnected, and
/// nothing changes for others.
pub proof fn peers_are_the_connected(peers: Seq<NodeId>, node: NodeId, other: NodeId)
    ensures
        peers_with(peers, node).contains(other) <==> peers.contains(other) || other == node,
        peers_without(peers, node).contains(other) <==> peers.contains(other) && other != node,
        peers_with(peers, node).take(peers.len() as int) == peers,
{
    let more = peers_with(peers, node);
    assert(more.take(peers.len() as int) =~= peers);
    if peers.contains(other) {
        let k = choose|k: int| 0 <= k < peers.len() && peers[k] == other;
        assert(more[k] == other);
        if other != node {
            assert(other_than(node)(peers[k]));
            peers.lemma_filter_contains(other_than(node), k);
        }
    }
    if other == node && !peers.contains(node) {
        assert(more[peers.len() as int] == node);
    }
    if peers_without(peers, node).contains(other) {
        let fewer = peers_without(peers, node);
        let k = choose|k: int| 0 <= k < fewer.len() && fewer[k] == other;
        peers.lemma_filter_pred(other_than(node), k);
        peers.lemma_filter_contains_rev(other_than(node), other);
    }
}

/// What is shown of a group is the group: its number, exactly its members, each
/// once, and the join code. Nothing is shown where there is none.
pub proof fn shown_group_is_the_group(
    group: Option<GroupMembership>,
    join_code: Seq<char>,
    shown: ProtocolState,
    node: NodeId,
)
    requires
        shows_group(group, join_code, shown),
    ensures
        shown.group is Some <==> group is Some,
        group matches Some(g) ==> {
            &&& shown.group->0.join_code@ == join_code
            &&& root_id(g.history()) == Some(shown.group->0.id)
            &&& shown.group->0.members@.contains(node) <==> members_of(g.history()).contains(node)
            &&& shown.group->0.members@.no_duplicates()
        },
{
    if let Some(g) = group {
        assert(shown.group->0.members@.to_set().contains(node) <==> members_of(
            g.history(),
        ).contains(node));
    }
}

/// A group that was just founded has its founder as its one member, and its one
/// message is the root that the founder signed.
pub proof fn founder_is_alone(group: GroupMembership, secret_key: SecretKey, node: NodeId)
    requires
        founded(group, secret_key),
    ensures
        members_of(group.history()).contains(node) <==> node == secret_key.id(),
        group.acb@.secret_key == secret_key,
        group.acb@.received.len() == 1,
        group.history() == group.acb@.received,
        group.history()[0].public_key == secret_key.id(),
        group.history()[0].payload is Root,
        seq_of(group.acb@.clock, secret_key.id()) == 1,
        node != secret_key.id() ==> seq_of(group.acb@.clock, node) == 0,
        well_rooted(group.history()),
{
    entries_are_sequence_numbers(group.acb@.clock, 0, node);
}

} // verus!
