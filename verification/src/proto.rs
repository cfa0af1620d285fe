//! Protocol logic: the group of a node, its peers, and what to do about them.

use crate::acb::{
    clock_after, deliverable, drained, duplicate_all, genuine, known, number, signed, stuck,
    with_message, Broadcast, CausalBroadcast, Signed, SignedMessage,
};
use crate::clock::{distinct, seq_of, Clock, Entries};
use crate::dgm::{
    contains_node, made_message, members_of, none_ahead, operations, root_id, signed_with,
    well_rooted, GroupMembership, Operation,
};
use crate::join::{handed_out, JoinProtocol, Verdict};
use crate::join_code::{join_text, make_join_code};
use crate::key::{NodeId, SecretKey};
use crate::sync::{Message, Sent};
use crate::system::with_all;
use crate::text::is_plain_word;
use crate::time::LONGEST;
use vstd::prelude::*;

verus! {

/// Why the protocol turns something down.
#[derive(Debug, Clone, Copy, PartialEq, Eq, Structural)]
pub enum ProtocolError {
    /// There is a group already.
    AlreadyInGroup,
    /// There is no group.
    NotInGroup,
    /// There is no group to greet a node with.
    ConnectNotInGroup,
    /// There is no group to answer a greeting with.
    ReplyNotInGroup,
    /// The answer to a greeting is for another group.
    ReplyMismatch,
    /// The greeting is for another group.
    GroupMismatch,
    /// The node is welcomed to a group, but is in another one.
    AlreadyInOtherGroup,
    /// The greeting is something else, or did not come.
    HandshakeFailed,
    /// A message is not signed by its sender.
    BadSignature,
    /// The operations of the group do not start with a root, or a member
    /// founds the group again.
    NotRooted,
    /// A message would be delivered again and again.
    EndlessDelivery,
    /// All numbers for messages of the node are used up.
    NumbersUsedUp,
}

impl ProtocolError {
    /// What to log.
    pub open spec fn text(self) -> Seq<char> {
        match self {
            ProtocolError::AlreadyInGroup => "already in a group"@,
            ProtocolError::NotInGroup => "not in a group"@,
            ProtocolError::ConnectNotInGroup => "sync_connect failed, not in a group"@,
            ProtocolError::ReplyNotInGroup => "sync_accept failed, not in a group when replying"@,
            ProtocolError::ReplyMismatch => "handshake failed, group id reply mismatched"@,
            ProtocolError::GroupMismatch => "handshake failed, group id mismatched"@,
            ProtocolError::AlreadyInOtherGroup =>
                "handshake failed, got welcome but already in different group"@,
            ProtocolError::HandshakeFailed => "handshake failed"@,
            ProtocolError::BadSignature => "signature verification failed"@,
            ProtocolError::NotRooted => "must start with root and contain no additional roots"@,
            ProtocolError::EndlessDelivery => "message does not count itself"@,
            ProtocolError::NumbersUsedUp => "no number left for a message"@,
        }
    }

    /// Whether the connection with a peer is closed on the error.
    pub fn closes_peer(&self) -> (yes: bool)
        ensures
            yes == (*self is ReplyMismatch || *self is GroupMismatch || *self
                is AlreadyInOtherGroup || *self is HandshakeFailed),
    {
        match self {
            ProtocolError::ReplyMismatch => true,
            ProtocolError::GroupMismatch => true,
            ProtocolError::AlreadyInOtherGroup => true,
            ProtocolError::HandshakeFailed => true,
            _ => false,
        }
    }

    /// What to log.
    pub fn message(&self) -> (message: String)
        ensures
            message@ == self.text(),
    {
        match self {
            ProtocolError::AlreadyInGroup => "already in a group".to_string(),
            ProtocolError::NotInGroup => "not in a group".to_string(),
            ProtocolError::ConnectNotInGroup => "sync_connect failed, not in a group".to_string(),
            ProtocolError::ReplyNotInGroup =>
                "sync_accept failed, not in a group when replying".to_string(),
            ProtocolError::ReplyMismatch =>
                "handshake failed, group id reply mismatched".to_string(),
            ProtocolError::GroupMismatch => "handshake failed, group id mismatched".to_string(),
            ProtocolError::AlreadyInOtherGroup =>
                "handshake failed, got welcome but already in different group".to_string(),
            ProtocolError::HandshakeFailed => "handshake failed".to_string(),
            ProtocolError::BadSignature => "signature verification failed".to_string(),
            ProtocolError::NotRooted =>
                "must start with root and contain no additional roots".to_string(),
            ProtocolError::EndlessDelivery => "message does not count itself".to_string(),
            ProtocolError::NumbersUsedUp => "no number left for a message".to_string(),
        }
    }
}

/// View of protocol state for UI.
#[derive(Debug)]
pub struct ProtocolState {
    pub peers: Vec<NodeId>,
    pub group: Option<ProtocolGroupState>,
}

/// View of the group for UI.
#[derive(Debug)]
pub struct ProtocolGroupState {
    pub join_code: String,
    pub id: u64,
    pub members: Vec<NodeId>,
}

impl Default for ProtocolState {
    fn default() -> (state: Self)
        ensures
            state.peers@ == Seq::<NodeId>::empty(),
            state.group is None,
    {
        ProtocolState { peers: Vec::new(), group: None }
    }
}

/// Whether a state shows a group: its identifier, its members, and a join code,
/// which is one word of plain characters.
pub open spec fn shows_group(
    group: Option<GroupMembership>,
    join_code: Seq<char>,
    shown: ProtocolState,
) -> bool {
    match (group, shown.group) {
        (None, None) => true,
        (Some(group), Some(state)) => {
            &&& state.join_code@ == join_code
            &&& is_plain_word(state.join_code@)
            &&& Some(state.id) == root_id(group.history())
            &&& state.members@.no_duplicates()
            &&& state.members@.to_set() == members_of(group.history())
        },
        _ => false,
    }
}

/// Events that the protocols of a node signal. A connection is a `C`.
pub enum ProtocolEvent<C> {
    AddGroupMember(NodeId),
    SyncConnection(C),
    SyncMessages(Vec<SignedMessage<Operation>>),
}

/// Whom to disconnect from and whom to connect to.
#[derive(Debug)]
pub struct Plan {
    pub disconnect: Vec<NodeId>,
    pub connect: Vec<NodeId>,
}

/// Which peers of a node are not in its group.
pub open spec fn outside_group(my_id: NodeId, members: Set<NodeId>) -> spec_fn(NodeId) -> bool {
    |p: NodeId| p != my_id && !members.contains(p)
}

/// Whether a plan brings the peers of a node in line with the members of its
/// group: peers that are no members are disconnected, and members that are no
/// peers are connected. The node itself is left alone.
pub open spec fn plan_for(
    my_id: NodeId,
    members: Set<NodeId>,
    peers: Seq<NodeId>,
    plan: Plan,
) -> bool {
    &&& plan.disconnect@ == peers.filter(outside_group(my_id, members))
    &&& plan.connect@.no_duplicates()
    &&& forall|m: NodeId| #[trigger]
        plan.connect@.contains(m) <==> members.contains(m) && m != my_id && !peers.contains(m)
}

/// Plans whom to disconnect from and whom to connect to.
#[verifier::rlimit(40)]
pub fn reconcile_group_members(my_id: NodeId, members: &Vec<NodeId>, peers: &Vec<NodeId>) -> (plan:
    Plan)
    requires
        members@.no_duplicates(),
    ensures
        plan_for(my_id, members@.to_set(), peers@, plan),
{
    let mut disconnect: Vec<NodeId> = Vec::new();
    let ghost set = members@.to_set();
    let ghost gone = outside_group(my_id, set);
    let mut i: usize = 0;
    proof {
        reveal(Seq::filter);
        assert(disconnect@ =~= peers@.take(0).filter(gone));
    }
    while i < peers.len()
        invariant
            i <= peers@.len(),
            set == members@.to_set(),
            gone == outside_group(my_id, set),
            disconnect@ == peers@.take(i as int).filter(gone),
        decreases peers@.len() - i,
    {
        proof {
            reveal(Seq::filter);
            assert(peers@.take(i + 1).drop_last() =~= peers@.take(i as int));
        }
        let peer = peers[i];
        if peer != my_id && !contains_node(members, &peer) {
            disconnect.push(peer);
        }
        i = i + 1;
    }
    assert(peers@.take(peers@.len() as int) =~= peers@);
    let mut connect: Vec<NodeId> = Vec::new();
    let mut k: usize = 0;
    while k < members.len()
        invariant
            k <= members@.len(),
            members@.no_duplicates(),
            connect@.no_duplicates(),
            forall|j: int| 0 <= j < connect@.len() ==> members@.take(k as int).contains(
                #[trigger] connect@[j],
            ) && connect@[j] != my_id && !peers@.contains(connect@[j]),
            forall|j: int|
                0 <= j < k && members@[j] != my_id && !peers@.contains(members@[j])
                    ==> connect@.contains(#[trigger] members@[j]),
        decreases members@.len() - k,
    {
        let member = members[k];
        let ghost before = connect@;
        if member != my_id && !contains_node(peers, &member) {
            proof {
                assert forall|j: int| 0 <= j < before.len() implies before[j] != member by {
                    let l = choose|l: int|
                        0 <= l < k && members@.take(k as int)[l] == before[j];
                    assert(members@[l] == before[j]);
                }
            }
            connect.push(member);
            proof {
                assert(connect@[before.len() as int] == member);
                assert forall|x: NodeId| before.contains(x) implies connect@.contains(x) by {
                    let l = choose|l: int| 0 <= l < before.len() && before[l] == x;
                    assert(connect@[l] == x);
                }
            }
        }
        proof {
            assert forall|j: int| 0 <= j < connect@.len() implies members@.take(
                k + 1,
            ).contains(#[trigger] connect@[j]) && connect@[j] != my_id && !peers@.contains(
                connect@[j],
            ) by {
                if j < before.len() {
                    assert(connect@[j] == before[j]);
                    let l = choose|l: int|
                        0 <= l < k && members@.take(k as int)[l] == before[j];
                    assert(members@.take(k + 1)[l] == before[j]);
                } else {
                    assert(members@.take(k + 1)[k as int] == member);
                }
            }
        }
        k = k + 1;
    }
    proof {
        assert(members@.take(members@.len() as int) =~= members@);
        assert forall|m: NodeId| #[trigger]
            connect@.contains(m) <==> set.contains(m) && m != my_id && !peers@.contains(m) by {
            if connect@.contains(m) {
                let j = choose|j: int| 0 <= j < connect@.len() && connect@[j] == m;
                assert(members@.contains(connect@[j]));
            }
            if set.contains(m) && m != my_id && !peers@.contains(m) {
                let j = choose|j: int| 0 <= j < members@.len() && members@[j] == m;
                assert(connect@.contains(members@[j]));
            }
        }
    }
    Plan { disconnect, connect }
}

/// The messages up to the first one that is not signed by its sender.
pub open spec fn genuine_part(messages: Seq<Signed<Operation>>) -> Seq<Signed<Operation>>
    decreases messages.len(),
{
    if messages.len() == 0 {
        messages
    } else {
        let before = genuine_part(messages.drop_last());
        if before.len() == messages.len() - 1 && genuine(messages.last()) {
            messages
        } else {
            before
        }
    }
}

/// Receives messages up to the first one that is not signed by its sender, and
/// tells whether there was none.
pub fn receive_all(group: &mut GroupMembership, messages: &Vec<SignedMessage<Operation>>) -> (all:
    bool)
    ensures
        final(group).acb@.secret_key == old(group).acb@.secret_key,
        final(group).acb@.clock == old(group).acb@.clock,
        final(group).acb@.received == with_all(
            old(group).acb@.received,
            genuine_part(signed(messages@)),
        ),
        all == (genuine_part(signed(messages@)).len() == messages@.len()),
{
    let ghost sent = signed(messages@);
    let mut i: usize = 0;
    assert(sent.take(0) =~= Seq::empty());
    while i < messages.len()
        invariant
            i <= messages@.len(),
            sent == signed(messages@),
            group.acb@.secret_key == old(group).acb@.secret_key,
            group.acb@.clock == old(group).acb@.clock,
            group.acb@.received == with_all(old(group).acb@.received, sent.take(i as int)),
            genuine_part(sent.take(i as int)) == sent.take(i as int),
        decreases messages@.len() - i,
    {
        let ghost now = sent.take(i + 1);
        proof {
            assert(now.drop_last() =~= sent.take(i as int));
            assert(now.last() == messages@[i as int]@);
        }
        if !group.acb.try_receive(&messages[i]) {
            proof {
                genuine_part_stops(sent, i as int);
            }
            return false;
        }
        i = i + 1;
    }
    assert(sent.take(sent.len() as int) =~= sent);
    true
}

/// Nothing behind a message that is not signed by its sender counts.
proof fn genuine_part_stops(messages: Seq<Signed<Operation>>, i: int)
    requires
        0 <= i < messages.len(),
        genuine_part(messages.take(i)) == messages.take(i),
        !genuine(messages[i]),
    ensures
        genuine_part(messages) == messages.take(i),
    decreases messages.len(),
{
    let rest = messages.drop_last();
    if i == messages.len() - 1 {
        assert(rest =~= messages.take(i));
    } else {
        assert(rest.take(i) =~= messages.take(i));
        genuine_part_stops(rest, i);
    }
}

/// Whether delivering what can be delivered leads from one broadcast to
/// another, and to a result: no plan where nothing was delivered, else a plan
/// for the members that the group now has.
pub open spec fn delivery(
    before: Broadcast<Operation>,
    after: Broadcast<Operation>,
    my_id: NodeId,
    peers: Seq<NodeId>,
    result: Result<Option<Plan>, ProtocolError>,
) -> bool {
    &&& after.secret_key == before.secret_key
    &&& after.received == before.received
    &&& exists|n: nat| after.clock == #[trigger] clock_after(before.clock, before.received, n)
    &&& match result {
        Ok(None) => drained(before.clock, before.received) && after.clock == before.clock,
        Ok(Some(plan)) => {
            &&& !drained(before.clock, before.received)
            &&& drained(after.clock, after.received)
            &&& well_rooted(operations(after))
            &&& plan_for(my_id, members_of(operations(after)), peers, plan)
        },
        Err(ProtocolError::NotRooted) => {
            &&& !drained(before.clock, before.received)
            &&& drained(after.clock, after.received)
            &&& !well_rooted(operations(after))
        },
        Err(ProtocolError::EndlessDelivery) => stuck(after.clock, after.received),
        Err(_) => false,
    }
}

/// Attempts to deliver all messages, and plans for the members of the group if
/// any messages were delivered.
pub fn deliver_group_messages(
    group: &mut GroupMembership,
    my_id: NodeId,
    peers: &Vec<NodeId>,
) -> (result: Result<Option<Plan>, ProtocolError>)
    ensures
        delivery(old(group).acb@, final(group).acb@, my_id, peers@, result),
{
    match group.acb.deliver_all() {
        Err(_) => Err(ProtocolError::EndlessDelivery),
        Ok(changed) => if changed {
            match group.members() {
                Some(members) => Ok(Some(reconcile_group_members(my_id, &members, peers))),
                None => Err(ProtocolError::NotRooted),
            }
        } else {
            Ok(None)
        },
    }
}

/// What came of changing the members of a group: the message to broadcast, and
/// a plan for the members that the group now has, or nothing where its
/// operations are not rooted.
#[derive(Debug)]
pub struct Change {
    pub message: SignedMessage<Operation>,
    pub plan: Option<Plan>,
}

/// Whether a change came of an operation.
pub open spec fn changed(
    before: Broadcast<Operation>,
    after: Broadcast<Operation>,
    operation: Operation,
    my_id: NodeId,
    peers: Seq<NodeId>,
    change: Change,
) -> bool {
    &&& made_message(before, after, change.message@)
    &&& change.message@.payload == operation
    &&& distinct(before.clock) && none_ahead(
        before.received,
        before.clock,
        before.secret_key.id(),
    ) ==> operations(after) == operations(before).push(change.message@)
    &&& change.plan is Some <==> well_rooted(operations(after))
    &&& change.plan matches Some(plan) ==> plan_for(
        my_id,
        members_of(operations(after)),
        peers,
        plan,
    )
}

/// Whether a node has used up the numbers for its messages.
pub open spec fn used_up(acb: Broadcast<Operation>) -> bool {
    seq_of(acb.clock, acb.secret_key.id()) == u64::MAX
}

/// Whether a change of the members came out.
pub open spec fn change_outcome(
    before: Option<GroupMembership>,
    after: Option<GroupMembership>,
    operation: Operation,
    my_id: NodeId,
    peers: Seq<NodeId>,
    outcome: Result<Change, ProtocolError>,
) -> bool {
    match before {
        None => outcome == Err::<Change, _>(ProtocolError::NotInGroup) && after is None,
        Some(group) => if used_up(group.acb@) {
            outcome == Err::<Change, _>(ProtocolError::NumbersUsedUp) && after == before
        } else {
            &&& outcome is Ok
            &&& after is Some
            &&& changed(group.acb@, after->0.acb@, operation, my_id, peers, outcome->Ok_0)
        },
    }
}

/// What came of a handshake: the clock of the peer, and a plan where the
/// members of the group may have changed.
#[derive(Debug)]
pub struct Accepted {
    pub remote_clock: Clock,
    pub plan: Option<Plan>,
}

/// Whether a handshake has been accepted without change.
pub open spec fn accepted_as_is(
    outcome: Result<Accepted, ProtocolError>,
    clock: Entries,
    after: Option<GroupMembership>,
    before: Option<GroupMembership>,
) -> bool {
    &&& after == before
    &&& outcome is Ok
    &&& outcome->Ok_0.remote_clock@ == clock
    &&& outcome->Ok_0.plan is None
}

/// Whether a handshake has been refused without change.
pub open spec fn refused(
    outcome: Result<Accepted, ProtocolError>,
    error: ProtocolError,
    after: Option<GroupMembership>,
    before: Option<GroupMembership>,
) -> bool {
    &&& after == before
    &&& outcome == Err::<Accepted, _>(error)
}

/// Whether the messages of a welcome have been delivered, with an outcome.
pub open spec fn welcomed(
    start: Broadcast<Operation>,
    end: Broadcast<Operation>,
    clock: Entries,
    my_id: NodeId,
    peers: Seq<NodeId>,
    outcome: Result<Accepted, ProtocolError>,
) -> bool {
    match outcome {
        Ok(accepted) => {
            &&& accepted.remote_clock@ == clock
            &&& delivery(start, end, my_id, peers, Ok(accepted.plan))
        },
        Err(e) => delivery(start, end, my_id, peers, Err(e)),
    }
}

/// What comes of a handshake message, or of none: a group after it, and an
/// outcome.
pub open spec fn accepting(
    secret_key: SecretKey,
    peers: Seq<NodeId>,
    before: Option<GroupMembership>,
    handshake: Option<Sent>,
    after: Option<GroupMembership>,
    outcome: Result<Accepted, ProtocolError>,
) -> bool {
    match handshake {
        Some(Sent::Handshake { group_id, clock }) => match before {
            None => accepted_as_is(outcome, clock, after, before),
            Some(group) => match root_id(group.history()) {
                None => refused(outcome, ProtocolError::NotRooted, after, before),
                Some(id) => if id == group_id {
                    accepted_as_is(outcome, clock, after, before)
                } else {
                    refused(outcome, ProtocolError::GroupMismatch, after, before)
                },
            },
        },
        Some(Sent::Welcome { group_id, clock, messages }) => match before {
            None => exists|end: Broadcast<Operation>| #[trigger]
                welcomed(
                    Broadcast { secret_key, clock, received: messages },
                    end,
                    clock,
                    secret_key.id(),
                    peers,
                    outcome,
                ) && match after {
                    Some(group) => outcome is Ok && group.acb@ == end,
                    None => outcome is Err,
                },
            Some(group) => match root_id(group.history()) {
                None => refused(outcome, ProtocolError::NotRooted, after, before),
                Some(id) => if id != group_id {
                    refused(outcome, ProtocolError::AlreadyInOtherGroup, after, before)
                } else {
                    let received = Broadcast {
                        received: with_all(group.acb@.received, genuine_part(messages)),
                        ..group.acb@
                    };
                    &&& after is Some
                    &&& if genuine_part(messages).len() == messages.len() {
                        welcomed(received, after->0.acb@, clock, secret_key.id(), peers, outcome)
                    } else {
                        &&& after->0.acb@ == received
                        &&& outcome == Err::<Accepted, _>(ProtocolError::BadSignature)
                    }
                },
            },
        },
        _ => refused(outcome, ProtocolError::HandshakeFailed, after, before),
    }
}

/// A copy of a list of nodes.
fn copy_nodes(nodes: &Vec<NodeId>) -> (copy: Vec<NodeId>)
    ensures
        copy@ == nodes@,
{
    let mut copy: Vec<NodeId> = Vec::new();
    let mut i: usize = 0;
    while i < nodes.len()
        invariant
            i <= nodes@.len(),
            copy@ == nodes@.take(i as int),
        decreases nodes@.len() - i,
    {
        copy.push(nodes[i]);
        assert(copy@ =~= nodes@.take(i + 1));
        i = i + 1;
    }
    assert(nodes@.take(nodes@.len() as int) =~= nodes@);
    copy
}

/// The state of a node: its key, its codes for joining, its group, and the
/// peers that it is connected with.
pub struct Protocol {
    pub secret_key: SecretKey,
    pub join: JoinProtocol,
    pub group: Option<GroupMembership>,
    pub peers: Vec<NodeId>,
}

impl Protocol {
    /// A node without a group.
    pub fn new(secret_key: SecretKey) -> (protocol: Self)
        ensures
            protocol.secret_key == secret_key,
            protocol.join@.len() == 0,
            protocol.group is None,
            protocol.peers@.len() == 0,
    {
        Protocol { secret_key, join: JoinProtocol::new(), group: None, peers: Vec::new() }
    }

    /// Whether only the group may differ.
    pub open spec fn same_but_group(self, other: Self) -> bool {
        &&& self.secret_key == other.secret_key
        &&& self.join == other.join
        &&& self.peers == other.peers
    }

    /// The state of the node for UI, with a code with which others can join.
    #[verifier::rlimit(40)]
    pub fn poll_state(&mut self) -> (state: Result<ProtocolState, ProtocolError>)
        ensures
            final(self).secret_key == old(self).secret_key,
            final(self).join.stopwatch() == old(self).join.stopwatch(),
            final(self).group == old(self).group,
            final(self).peers == old(self).peers,
            state is Ok <==> (old(self).group matches Some(group) ==> well_rooted(
                group.history(),
            )),
            state is Err ==> state == Err::<ProtocolState, _>(ProtocolError::NotRooted),
            state matches Ok(shown) ==> shown.peers@ == old(self).peers@,
            exists|now: u128, fresh: u64, code: u64| #[trigger]
                handed_out(old(self).join@, now, fresh, code, final(self).join@) && now
                    <= LONGEST && (state matches Ok(shown) ==> shows_group(
                    old(self).group,
                    join_text(old(self).secret_key.id(), code),
                    shown,
                )),
    {
        let code = self.join.get_code();
        proof {
            let (now, fresh) = choose|now: u128, fresh: u64| #[trigger]
                handed_out(old(self).join@, now, fresh, code, self.join@) && now <= LONGEST;
            assert(handed_out(old(self).join@, now, fresh, code, self.join@));
        }
        let join_code = make_join_code(self.secret_key.public(), code);
        let group = match &self.group {
            None => None,
            Some(group) => match (group.root_id(), group.members()) {
                (Some(id), Some(members)) => Some(ProtocolGroupState { join_code, id, members }),
                _ => {
                    return Err(ProtocolError::NotRooted);
                },
            },
        };
        Ok(ProtocolState { peers: copy_nodes(&self.peers), group })
    }

    /// Founds a group with a random identifier, unless there is one.
    pub fn create_group(&mut self) -> (created: Result<(), ProtocolError>)
        ensures
            final(self).same_but_group(*old(self)),
            old(self).group is Some ==> created == Err::<(), _>(ProtocolError::AlreadyInGroup)
                && final(self).group == old(self).group,
            old(self).group is None ==> created is Ok && (final(self).group matches Some(group)
                && founded(group, old(self).secret_key)),
    {
        match &self.group {
            Some(_) => Err(ProtocolError::AlreadyInGroup),
            None => {
                self.group = Some(GroupMembership::new(self.secret_key));
                Ok(())
            },
        }
    }

    /// Adds a member to the group.
    pub fn add_group_member(&mut self, node_id: NodeId) -> (outcome: Result<
        Change,
        ProtocolError,
    >)
        ensures
            final(self).same_but_group(*old(self)),
            change_outcome(
                old(self).group,
                final(self).group,
                Operation::Add(node_id),
                old(self).secret_key.id(),
                old(self).peers@,
                outcome,
            ),
    {
        match self.group.take() {
            None => Err(ProtocolError::NotInGroup),
            Some(mut group) => {
                if group.acb.local_clock().get(group.acb.local_id()) == u64::MAX {
                    self.group = Some(group);
                    return Err(ProtocolError::NumbersUsedUp);
                }
                let message = group.add_member(node_id);
                let plan = self.plan_of(&group);
                self.group = Some(group);
                Ok(Change { message, plan })
            },
        }
    }

    /// Removes a member from the group.
    pub fn remove_group_member(&mut self, node_id: NodeId) -> (outcome: Result<
        Change,
        ProtocolError,
    >)
        ensures
            final(self).same_but_group(*old(self)),
            change_outcome(
                old(self).group,
                final(self).group,
                Operation::Remove(node_id),
                old(self).secret_key.id(),
                old(self).peers@,
                outcome,
            ),
    {
        match self.group.take() {
            None => Err(ProtocolError::NotInGroup),
            Some(mut group) => {
                if group.acb.local_clock().get(group.acb.local_id()) == u64::MAX {
                    self.group = Some(group);
                    return Err(ProtocolError::NumbersUsedUp);
                }
                let message = group.remove_member(node_id);
                let plan = self.plan_of(&group);
                self.group = Some(group);
                Ok(Change { message, plan })
            },
        }
    }

    /// A plan for the members of a group, if its operations are rooted.
    fn plan_of(&self, group: &GroupMembership) -> (plan: Option<Plan>)
        ensures
            plan is Some <==> well_rooted(group.history()),
            plan matches Some(plan) ==> plan_for(
                self.secret_key.id(),
                members_of(group.history()),
                self.peers@,
                plan,
            ),
    {
        match group.members() {
            None => None,
            Some(members) => Some(
                reconcile_group_members(self.secret_key.public(), &members, &self.peers),
            ),
        }
    }

    /// What to send to every peer to broadcast messages.
    pub fn broadcast_messages(&self, messages: &Vec<SignedMessage<Operation>>) -> (sent: Vec<
        (NodeId, Message),
    >)
        ensures
            sent@.len() == self.peers@.len(),
            forall|i: int|
                0 <= i < sent@.len() ==> (#[trigger] sent@[i]).0 == self.peers@[i] && sent@[i].1@
                    == (Sent::Sync { messages: signed(messages@) }),
    {
        let mut sent: Vec<(NodeId, Message)> = Vec::new();
        let mut i: usize = 0;
        while i < self.peers.len()
            invariant
                i <= self.peers@.len(),
                sent@.len() == i,
                forall|j: int|
                    0 <= j < i ==> (#[trigger] sent@[j]).0 == self.peers@[j] && sent@[j].1@ == (
                    Sent::Sync { messages: signed(messages@) }),
            decreases self.peers@.len() - i,
        {
            sent.push((self.peers[i], Message::Sync { messages: duplicate_all(messages) }));
            i = i + 1;
        }
        sent
    }

    /// The identifier of the group and the message with which a node is
    /// greeted: a welcome with all messages of the group, or a handshake.
    pub fn sync_connect(&self, welcome: bool) -> (greeting: Result<(u64, Message), ProtocolError>)
        ensures
            self.group is None <==> greeting == Err::<(u64, Message), _>(
                ProtocolError::ConnectNotInGroup,
            ),
            self.group matches Some(group) ==> match root_id(group.history()) {
                None => greeting == Err::<(u64, Message), _>(ProtocolError::NotRooted),
                Some(id) => {
                    &&& greeting is Ok
                    &&& greeting->Ok_0.0 == id
                    &&& greeting->Ok_0.1@ == greeting_of(group.acb@, id, welcome)
                },
            },
    {
        match &self.group {
            None => Err(ProtocolError::ConnectNotInGroup),
            Some(group) => match group.root_id() {
                None => Err(ProtocolError::NotRooted),
                Some(group_id) => {
                    let local_clock = group.acb.local_clock().clone();
                    let message = if welcome {
                        Message::Welcome {
                            group_id,
                            local_clock,
                            messages: group.acb.received_copy(),
                        }
                    } else {
                        Message::Handshake { group_id, local_clock }
                    };
                    Ok((group_id, message))
                },
            },
        }
    }

    /// Handles the first message of a node that connected, or that there is
    /// none.
    pub fn sync_accept(&mut self, handshake: Option<Message>) -> (outcome: Result<
        Accepted,
        ProtocolError,
    >)
        ensures
            final(self).same_but_group(*old(self)),
            accepting(
                old(self).secret_key,
                old(self).peers@,
                old(self).group,
                (match handshake {
                    Some(message) => Some(message@),
                    None => None,
                }),
                final(self).group,
                outcome,
            ),
    {
        match handshake {
            Some(Message::Handshake { group_id, local_clock }) => match &self.group {
                None => Ok(Accepted { remote_clock: local_clock, plan: None }),
                Some(group) => match group.root_id() {
                    None => Err(ProtocolError::NotRooted),
                    Some(id) => if id == group_id {
                        Ok(Accepted { remote_clock: local_clock, plan: None })
                    } else {
                        Err(ProtocolError::GroupMismatch)
                    },
                },
            },
            Some(Message::Welcome { group_id, local_clock, messages }) => self.accept_welcome(
                group_id,
                local_clock,
                messages,
            ),
            _ => Err(ProtocolError::HandshakeFailed),
        }
    }

    /// Handles a welcome.
    #[verifier::rlimit(40)]
    fn accept_welcome(
        &mut self,
        group_id: u64,
        local_clock: Clock,
        messages: Vec<SignedMessage<Operation>>,
    ) -> (outcome: Result<Accepted, ProtocolError>)
        ensures
            final(self).same_but_group(*old(self)),
            accepting(
                old(self).secret_key,
                old(self).peers@,
                old(self).group,
                Some(
                    Sent::Welcome {
                        group_id,
                        clock: local_clock@,
                        messages: signed(messages@),
                    },
                ),
                final(self).group,
                outcome,
            ),
    {
        let my_id = self.secret_key.public();
        match self.group.take() {
            Some(mut group) => {
                match group.root_id() {
                    None => {
                        self.group = Some(group);
                        return Err(ProtocolError::NotRooted);
                    },
                    Some(id) => {
                        if id != group_id {
                            self.group = Some(group);
                            return Err(ProtocolError::AlreadyInOtherGroup);
                        }
                    },
                }
                if !receive_all(&mut group, &messages) {
                    self.group = Some(group);
                    return Err(ProtocolError::BadSignature);
                }
                let result = deliver_group_messages(&mut group, my_id, &self.peers);
                self.group = Some(group);
                match result {
                    Ok(plan) => Ok(Accepted { remote_clock: local_clock, plan }),
                    Err(e) => Err(e),
                }
            },
            None => {
                let acb = CausalBroadcast::from_messages(
                    self.secret_key,
                    local_clock.clone(),
                    messages,
                );
                let mut group = GroupMembership::from_causal_broadcast(acb);
                let result = deliver_group_messages(&mut group, my_id, &self.peers);
                match result {
                    Ok(plan) => {
                        let ghost end = group.acb@;
                        self.group = Some(group);
                        let accepted = Accepted { remote_clock: local_clock, plan };
                        assert(welcomed(
                            Broadcast {
                                secret_key: old(self).secret_key,
                                clock: local_clock@,
                                received: signed(messages@),
                            },
                            end,
                            local_clock@,
                            old(self).secret_key.id(),
                            old(self).peers@,
                            Ok(accepted),
                        ));
                        Ok(accepted)
                    },
                    Err(e) => {
                        assert(welcomed(
                            Broadcast {
                                secret_key: old(self).secret_key,
                                clock: local_clock@,
                                received: signed(messages@),
                            },
                            group.acb@,
                            local_clock@,
                            old(self).secret_key.id(),
                            old(self).peers@,
                            Err(e),
                        ));
                        Err(e)
                    },
                }
            },
        }
    }

    /// The handshake with which an accepted node is answered.
    pub fn sync_reply(&self) -> (reply: Result<Message, ProtocolError>)
        ensures
            self.group is None <==> reply == Err::<Message, _>(ProtocolError::ReplyNotInGroup),
            self.group matches Some(group) ==> match root_id(group.history()) {
                None => reply == Err::<Message, _>(ProtocolError::NotRooted),
                Some(id) => reply is Ok && reply->Ok_0@ == greeting_of(group.acb@, id, false),
            },
    {
        match &self.group {
            None => Err(ProtocolError::ReplyNotInGroup),
            Some(group) => match group.root_id() {
                None => Err(ProtocolError::NotRooted),
                Some(group_id) => Ok(
                    Message::Handshake {
                        group_id,
                        local_clock: group.acb.local_clock().clone(),
                    },
                ),
            },
        }
    }

    /// Receives and delivers messages of a peer.
    pub fn sync_messages(&mut self, messages: Vec<SignedMessage<Operation>>) -> (result: Result<
        Option<Plan>,
        ProtocolError,
    >)
        ensures
            final(self).same_but_group(*old(self)),
            old(self).group is None ==> result == Err::<Option<Plan>, _>(
                ProtocolError::NotInGroup,
            ) && final(self).group is None,
            old(self).group matches Some(group) ==> final(self).group is Some && synced(
                group.acb@,
                final(self).group->0.acb@,
                signed(messages@),
                old(self).secret_key.id(),
                old(self).peers@,
                result,
            ),
            old(self).group matches Some(group) ==> (forall|i: int|
                0 <= i < messages@.len() ==> genuine(#[trigger] messages@[i]@)) ==> (forall|
                m: Signed<Operation>,
            |
                #[trigger] group.acb@.received.contains(m) ==> final(self).group->0.acb@.received.contains(m)),
            old(self).group matches Some(group) ==> (forall|i: int|
                0 <= i < messages@.len() ==> genuine(#[trigger] messages@[i]@)) ==> (forall|
                i: int,
            |
                0 <= i < messages@.len() ==> exists|k: int|
                    0 <= k < final(self).group->0.acb@.received.len() && (#[trigger] final(self).group->0.acb@.received[k]).public_key == (
                    #[trigger] messages@[i])@.public_key && seq_of(
                        final(self).group->0.acb@.received[k].clock,
                        messages@[i]@.public_key,
                    ) == seq_of(messages@[i]@.clock, messages@[i]@.public_key)),
            old(self).group matches Some(group) ==> (forall|i: int|
                0 <= i < messages@.len() ==> genuine(#[trigger] messages@[i]@)) ==> result != Err::<
                Option<Plan>,
                _,
            >(ProtocolError::BadSignature),
            result is Ok ==> final(self).group is Some && forall|k: int|
                0 <= k < final(self).group->0.acb@.received.len() ==> !deliverable(
                    final(self).group->0.acb@.clock,
                    #[trigger] final(self).group->0.acb@.received[k],
                ),
    {
        let my_id = self.secret_key.public();
        match self.group.take() {
            None => Err(ProtocolError::NotInGroup),
            Some(mut group) => {
                let ghost before = group.acb@;
                proof {
                    let sent = signed(messages@);
                    if forall|i: int|
                        0 <= i < messages@.len() ==> genuine(#[trigger] messages@[i]@) {
                        assert forall|i: int| 0 <= i < sent.len() implies genuine(
                            #[trigger] sent[i],
                        ) by {
                            assert(sent[i] == messages@[i]@);
                        }
                    }
                    all_genuine_is_genuine_part(sent);
                    receiving_loses_nothing(before.received, signed(messages@));
                }
                if !receive_all(&mut group, &messages) {
                    self.group = Some(group);
                    return Err(ProtocolError::BadSignature);
                }
                let result = deliver_group_messages(&mut group, my_id, &self.peers);
                self.group = Some(group);
                proof {
                    let after = self.group->0.acb@;
                    assert(genuine_part(signed(messages@)).len() == messages@.len());
                    assert(genuine_part(signed(messages@)) == signed(messages@)) by {
                        genuine_part_is_prefix(signed(messages@));
                    }
                    assert(after.received == with_all(before.received, signed(messages@)));
                    assert forall|i: int| 0 <= i < messages@.len() implies exists|k: int|
                        0 <= k < after.received.len() && (#[trigger] after.received[k]).public_key
                            == (#[trigger] messages@[i])@.public_key && seq_of(
                            after.received[k].clock,
                            messages@[i]@.public_key,
                        ) == seq_of(messages@[i]@.clock, messages@[i]@.public_key) by {
                        assert(signed(messages@)[i] == messages@[i]@);
                    }
                }
                result
            },
        }
    }

    /// Handles an event.
    pub fn handle_event<C>(&mut self, event: ProtocolEvent<C>) -> (reaction: Reaction<C>)
        ensures
            final(self).same_but_group(*old(self)),
            match event {
                ProtocolEvent::AddGroupMember(node_id) => reaction is Changed && change_outcome(
                    old(self).group,
                    final(self).group,
                    Operation::Add(node_id),
                    old(self).secret_key.id(),
                    old(self).peers@,
                    reaction->Changed_0,
                ),
                ProtocolEvent::SyncConnection(connection) => reaction == Reaction::Accept(
                    connection,
                ) && final(self).group == old(self).group,
                ProtocolEvent::SyncMessages(messages) => reaction is Synced && match old(
                    self,
                ).group {
                    None => reaction->Synced_0 == Err::<Option<Plan>, _>(
                        ProtocolError::NotInGroup,
                    ) && final(self).group is None,
                    Some(group) => final(self).group is Some && synced(
                        group.acb@,
                        final(self).group->0.acb@,
                        signed(messages@),
                        old(self).secret_key.id(),
                        old(self).peers@,
                        reaction->Synced_0,
                    ),
                },
            },
    {
        match event {
            ProtocolEvent::AddGroupMember(node_id) => Reaction::Changed(
                self.add_group_member(node_id),
            ),
            ProtocolEvent::SyncConnection(connection) => Reaction::Accept(connection),
            ProtocolEvent::SyncMessages(messages) => Reaction::Synced(self.sync_messages(messages)),
        }
    }

    /// Remembers a peer whose handshake is complete.
    pub fn peer_connected(&mut self, node_id: NodeId)
        ensures
            final(self).secret_key == old(self).secret_key,
            final(self).join == old(self).join,
            final(self).group == old(self).group,
            final(self).peers@ == peers_with(old(self).peers@, node_id),
    {
        if !contains_node(&self.peers, &node_id) {
            self.peers.push(node_id);
        }
    }

    /// Forgets a peer whose connection is closed.
    pub fn peer_disconnected(&mut self, node_id: NodeId)
        ensures
            final(self).secret_key == old(self).secret_key,
            final(self).join == old(self).join,
            final(self).group == old(self).group,
            final(self).peers@ == peers_without(old(self).peers@, node_id),
    {
        let ghost all = self.peers@;
        let ghost other = other_than(node_id);
        let mut kept: Vec<NodeId> = Vec::new();
        let mut i: usize = 0;
        proof {
            reveal(Seq::filter);
            assert(kept@ =~= all.take(0).filter(other));
        }
        while i < self.peers.len()
            invariant
                i <= all.len(),
                all == self.peers@,
                *self == *old(self),
                other == other_than(node_id),
                kept@ == all.take(i as int).filter(other),
            decreases all.len() - i,
        {
            proof {
                reveal(Seq::filter);
                assert(all.take(i + 1).drop_last() =~= all.take(i as int));
            }
            if self.peers[i] != node_id {
                kept.push(self.peers[i]);
            }
            i = i + 1;
        }
        assert(all.take(all.len() as int) =~= all);
        self.peers = kept;
    }
}

/// The peers after one more is connected.
pub open spec fn peers_with(peers: Seq<NodeId>, node_id: NodeId) -> Seq<NodeId> {
    if peers.contains(node_id) {
        peers
    } else {
        peers.push(node_id)
    }
}

/// Which nodes are not the given one.
pub open spec fn other_than(node_id: NodeId) -> spec_fn(NodeId) -> bool {
    |p: NodeId| p != node_id
}

/// The peers after one is disconnected.
pub open spec fn peers_without(peers: Seq<NodeId>, node_id: NodeId) -> Seq<NodeId> {
    peers.filter(other_than(node_id))
}

/// What to do about an event.
pub enum Reaction<C> {
    /// Broadcast the change and carry out its plan, or log the error.
    Changed(Result<Change, ProtocolError>),
    /// Accept the connection.
    Accept(C),
    /// Carry out the plan, if any, or log the error.
    Synced(Result<Option<Plan>, ProtocolError>),
}

/// Whether receiving and delivering messages leads from one broadcast to
/// another, and to a result.
pub open spec fn synced(
    before: Broadcast<Operation>,
    after: Broadcast<Operation>,
    messages: Seq<Signed<Operation>>,
    my_id: NodeId,
    peers: Seq<NodeId>,
    result: Result<Option<Plan>, ProtocolError>,
) -> bool {
    let received = Broadcast {
        received: with_all(before.received, genuine_part(messages)),
        ..before
    };
    if genuine_part(messages).len() == messages.len() {
        delivery(received, after, my_id, peers, result)
    } else {
        after == received && result == Err::<Option<Plan>, _>(ProtocolError::BadSignature)
    }
}

/// Whether a group has just been founded by a node.
pub open spec fn founded(group: GroupMembership, secret_key: SecretKey) -> bool {
    &&& group.acb@.secret_key == secret_key
    &&& group.acb@.clock == seq![(secret_key.id(), 1u64)]
    &&& group.acb@.received == group.history()
    &&& group.history().len() == 1
    &&& group.history()[0].public_key == secret_key.id()
    &&& group.history()[0].clock == group.acb@.clock
    &&& group.history()[0].payload matches Operation::Root { root_member, .. }
    &&& root_member == secret_key.id()
    &&& signed_with(secret_key, group.history()[0])
    &&& well_rooted(group.history())
    &&& members_of(group.history()) == set![secret_key.id()]
    &&& root_id(group.history()) is Some
}

/// The message with which a node of a group greets another one.
pub open spec fn greeting_of(acb: Broadcast<Operation>, group_id: u64, welcome: bool) -> Sent {
    if welcome {
        Sent::Welcome { group_id, clock: acb.clock, messages: acb.received }
    } else {
        Sent::Handshake { group_id, clock: acb.clock }
    }
}

/// Whether the reply to a greeting is accepted: a handshake for the same group
/// gives the clock of the peer.
pub open spec fn reply_accepted(
    my_group_id: u64,
    reply: Option<Sent>,
    outcome: Result<Clock, ProtocolError>,
) -> bool {
    match reply {
        Some(Sent::Handshake { group_id, clock }) => if group_id == my_group_id {
            outcome is Ok && outcome->Ok_0@ == clock
        } else {
            outcome == Err::<Clock, _>(ProtocolError::ReplyMismatch)
        },
        _ => outcome == Err::<Clock, _>(ProtocolError::HandshakeFailed),
    }
}

/// Checks the reply to a greeting. We expect a handshake with matching group
/// id.
pub fn check_reply(my_group_id: u64, reply: Option<Message>) -> (outcome: Result<
    Clock,
    ProtocolError,
>)
    ensures
        reply_accepted(
            my_group_id,
            (match reply {
                Some(message) => Some(message@),
                None => None,
            }),
            outcome,
        ),
{
    match reply {
        Some(Message::Handshake { group_id, local_clock }) => if group_id == my_group_id {
            Ok(local_clock)
        } else {
            Err(ProtocolError::ReplyMismatch)
        },
        _ => Err(ProtocolError::HandshakeFailed),
    }
}

/// The event that a request to join signals: a node that joins is added.
pub fn join_event<C>(verdict: &Verdict, node_id: NodeId) -> (event: Option<ProtocolEvent<C>>)
    ensures
        event == if *verdict is Joined {
            Some(ProtocolEvent::<C>::AddGroupMember(node_id))
        } else {
            None
        },
{
    if verdict.joins() {
        Some(ProtocolEvent::AddGroupMember(node_id))
    } else {
        None
    }
}

/// Messages that are all signed by their senders all count.
pub proof fn all_genuine_is_genuine_part(messages: Seq<Signed<Operation>>)
    ensures
        (forall|i: int| 0 <= i < messages.len() ==> genuine(#[trigger] messages[i]))
            ==> genuine_part(messages) == messages,
    decreases messages.len(),
{
    if messages.len() > 0 && (forall|i: int|
        0 <= i < messages.len() ==> genuine(#[trigger] messages[i])) {
        let rest = messages.drop_last();
        assert forall|i: int| 0 <= i < rest.len() implies genuine(#[trigger] rest[i]) by {
            assert(rest[i] == messages[i]);
        }
        all_genuine_is_genuine_part(rest);
        assert(messages.last() == messages[messages.len() - 1]);
    }
}

/// Messages count up to the first one that is not signed by its sender, which
/// does not count, nor does anything behind it.
pub proof fn messages_count_up_to_a_forged_one(messages: Seq<Signed<Operation>>, i: int)
    requires
        0 <= i < messages.len(),
        forall|j: int| 0 <= j < i ==> genuine(#[trigger] messages[j]),
        !genuine(messages[i]),
    ensures
        genuine_part(messages) == messages.take(i),
{
    let part = messages.take(i);
    assert forall|j: int| 0 <= j < part.len() implies genuine(#[trigger] part[j]) by {
        assert(part[j] == messages[j]);
    }
    all_genuine_is_genuine_part(part);
    genuine_part_stops(messages, i);
}

/// Receiving messages keeps all that were there, in their places, and for each
/// of them one of the same sender with the same number is there afterwards.
/// Nothing else comes in.
pub proof fn receiving_loses_nothing<P>(received: Seq<Signed<P>>, messages: Seq<Signed<P>>)
    ensures
        ({
            let after = with_all(received, messages);
            &&& after.len() >= received.len()
            &&& after.take(received.len() as int) == received
            &&& forall|m: Signed<P>| #[trigger] received.contains(m) ==> after.contains(m)
            &&& forall|i: int|
                0 <= i < messages.len() ==> exists|k: int|
                    0 <= k < after.len() && (#[trigger] after[k]).public_key == (
                    #[trigger] messages[i]).public_key && seq_of(
                        after[k].clock,
                        messages[i].public_key,
                    ) == seq_of(messages[i].clock, messages[i].public_key)
            &&& forall|m: Signed<P>| #[trigger]
                after.contains(m) ==> received.contains(m) || messages.contains(m)
        }),
    decreases messages.len(),
{
    let after = with_all(received, messages);
    if messages.len() == 0 {
        assert(after.take(received.len() as int) =~= received);
    } else {
        let rest = messages.drop_last();
        let last = messages.last();
        let some = with_all(received, rest);
        receiving_loses_nothing(received, rest);
        assert(after == with_message(some, last));
        assert(after.take(some.len() as int) =~= some);
        assert(after.take(received.len() as int) =~= some.take(received.len() as int));
        assert forall|m: Signed<P>| #[trigger] received.contains(m) implies after.contains(m) by {
            let k = choose|k: int| 0 <= k < received.len() && received[k] == m;
            assert(after.take(received.len() as int)[k] == m);
            assert(after[k] == m);
        }
        assert forall|i: int| 0 <= i < messages.len() implies exists|k: int|
            0 <= k < after.len() && (#[trigger] after[k]).public_key == (
            #[trigger] messages[i]).public_key && seq_of(after[k].clock, messages[i].public_key)
                == seq_of(messages[i].clock, messages[i].public_key) by {
            if i < rest.len() {
                assert(rest[i] == messages[i]);
                let k = choose|k: int|
                    0 <= k < some.len() && (#[trigger] some[k]).public_key == rest[i].public_key
                        && seq_of(some[k].clock, rest[i].public_key) == seq_of(
                        rest[i].clock,
                        rest[i].public_key,
                    );
                assert(after[k] == some[k]);
            } else if known(some, last) {
                let k = choose|k: int|
                    0 <= k < some.len() && (#[trigger] some[k]).public_key == last.public_key
                        && number(some[k]) == number(last);
                assert(after[k] == some[k]);
            } else {
                assert(after[some.len() as int] == last);
            }
        }
        assert forall|m: Signed<P>| #[trigger] after.contains(m) implies received.contains(m)
            || messages.contains(m) by {
            let k = choose|k: int| 0 <= k < after.len() && after[k] == m;
            if k < some.len() {
                assert(some[k] == m);
                assert(some.contains(m));
                if rest.contains(m) {
                    let y = choose|y: int| 0 <= y < rest.len() && rest[y] == m;
                    assert(messages[y] == m);
                }
            } else {
                assert(messages[messages.len() - 1] == m);
            }
        }
    }
}

/// What counts of messages is how they start.
pub proof fn genuine_part_is_prefix(messages: Seq<Signed<Operation>>)
    ensures
        genuine_part(messages).len() <= messages.len(),
        genuine_part(messages) == messages.take(genuine_part(messages).len() as int),
        genuine_part(messages).len() == messages.len() ==> genuine_part(messages) == messages,
    decreases messages.len(),
{
    if messages.len() > 0 {
        let rest = messages.drop_last();
        let part = genuine_part(messages);
        genuine_part_is_prefix(rest);
        assert(part =~= messages.take(part.len() as int));
    }
    assert(messages.take(messages.len() as int) =~= messages);
}

} // verus!
