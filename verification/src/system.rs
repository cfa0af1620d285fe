//! A group of nodes that send messages, receive them one by one or all that
//! another node has, take over what another node has when they are welcomed,
//! and deliver messages, in any order: once all have received everything, all
//! are the same.

use crate::acb::{
    clock_after, covered, deliverable, drained, first_deliverable, known, number, with_message,
    Signed,
};
use crate::clock::{
    at_most, at_most_iff_pointwise, at_most_pointwise, at_most_transitive, counted, distinct,
    first_entry, has_entry, highest, highest_is_seq, merged, precedes, precedes_transitive, seq_of,
    seq_of_counted, seq_of_first, seq_of_merged, Entries,
};
use crate::convergence::{
    all_covered, causally_complete, clock_from_messages, drained_means_all_delivered, is_number,
    new_message_follows_delivered, nodes_converge, numbers_unique, past,
    receive_keeps_numbers_unique,
};
use crate::key::NodeId;
use crate::order::{in_order, senders_in_line};
use vstd::prelude::*;

verus! {

/// What a node has delivered and received.
pub struct Node<P> {
    pub id: NodeId,
    pub clock: Entries,
    pub received: Seq<Signed<P>>,
}

/// The messages after receiving some messages, one after the other.
pub open spec fn with_all<P>(received: Seq<Signed<P>>, messages: Seq<Signed<P>>) -> Seq<Signed<P>>
    decreases messages.len(),
{
    if messages.len() == 0 {
        received
    } else {
        with_message(with_all(received, messages.drop_last()), messages.last())
    }
}

/// A group whose nodes have different identifiers and have seen nothing.
pub open spec fn fresh<P>(nodes: Seq<Node<P>>) -> bool {
    &&& distinct_ids(nodes)
    &&& forall|i: int|
        0 <= i < nodes.len() ==> (#[trigger] nodes[i]).clock == Entries::empty()
            && nodes[i].received == Seq::<Signed<P>>::empty()
}

/// Whether no two nodes have the same identifier.
pub open spec fn distinct_ids<P>(nodes: Seq<Node<P>>) -> bool {
    forall|i: int, j: int|
        0 <= i < j < nodes.len() ==> (#[trigger] nodes[i]).id != (#[trigger] nodes[j]).id
}

/// The node at `i` makes the message `m`.
pub open spec fn sends<P>(before: Seq<Node<P>>, after: Seq<Node<P>>, i: int, m: Signed<P>) -> bool {
    let node = before[i];
    &&& 0 <= i < before.len()
    &&& seq_of(node.clock, node.id) < u64::MAX
    &&& m.public_key == node.id
    &&& m.clock == counted(node.clock, node.id)
    &&& after == before.update(
        i,
        Node { id: node.id, clock: m.clock, received: node.received.push(m) },
    )
}

/// The node at `i` receives one message that the node at `j` has.
pub open spec fn receives<P>(
    before: Seq<Node<P>>,
    after: Seq<Node<P>>,
    i: int,
    j: int,
    k: int,
) -> bool {
    let node = before[i];
    &&& 0 <= i < before.len()
    &&& 0 <= j < before.len()
    &&& 0 <= k < before[j].received.len()
    &&& after == before.update(
        i,
        Node {
            id: node.id,
            clock: node.clock,
            received: with_message(node.received, before[j].received[k]),
        },
    )
}

/// The node at `i` receives everything that the node at `j` has.
pub open spec fn syncs<P>(before: Seq<Node<P>>, after: Seq<Node<P>>, i: int, j: int) -> bool {
    let node = before[i];
    &&& 0 <= i < before.len()
    &&& 0 <= j < before.len()
    &&& after == before.update(
        i,
        Node {
            id: node.id,
            clock: node.clock,
            received: with_all(node.received, before[j].received),
        },
    )
}

/// The node at `i`, which has nothing yet, takes over what the node at `j` has
/// received and delivered.
pub open spec fn is_welcomed<P>(before: Seq<Node<P>>, after: Seq<Node<P>>, i: int, j: int) -> bool {
    let node = before[i];
    &&& 0 <= i < before.len()
    &&& 0 <= j < before.len()
    &&& node.received.len() == 0
    &&& after == before.update(
        i,
        Node { id: node.id, clock: before[j].clock, received: before[j].received },
    )
}

/// The node at `i` delivers its message at `k`.
pub open spec fn delivers<P>(before: Seq<Node<P>>, after: Seq<Node<P>>, i: int, k: int) -> bool {
    let node = before[i];
    &&& 0 <= i < before.len()
    &&& first_deliverable(node.clock, node.received, k)
    &&& after == before.update(
        i,
        Node {
            id: node.id,
            clock: merged(node.clock, node.received[k].clock),
            received: node.received,
        },
    )
}

/// One node does one thing.
pub open spec fn step<P>(before: Seq<Node<P>>, after: Seq<Node<P>>) -> bool {
    ||| exists|i: int, m: Signed<P>| sends(before, after, i, m)
    ||| exists|i: int, j: int, k: int| receives(before, after, i, j, k)
    ||| exists|i: int, j: int| syncs(before, after, i, j)
    ||| exists|i: int, j: int| is_welcomed(before, after, i, j)
    ||| exists|i: int, k: int| delivers(before, after, i, k)
}

/// A group from its start on, step by step.
pub open spec fn history<P>(states: Seq<Seq<Node<P>>>) -> bool {
    &&& states.len() > 0
    &&& fresh(states[0])
    &&& forall|t: int| 0 <= t < states.len() - 1 ==> step(#[trigger] states[t], states[t + 1])
}

/// Whether some node of a group has a message.
pub open spec fn in_group<P>(nodes: Seq<Node<P>>, m: Signed<P>) -> bool {
    exists|b: int| 0 <= b < nodes.len() && (#[trigger] nodes[b]).received.contains(m)
}

/// Whether a node has the message that `id` sent as number `n`, and its clock
/// covers it.
pub open spec fn has_delivered<P>(
    clock: Entries,
    received: Seq<Signed<P>>,
    id: NodeId,
    n: u64,
) -> bool {
    exists|k: int|
        0 <= k < received.len() && is_number(#[trigger] received[k], id, n) && at_most(
            received[k].clock,
            clock,
        )
}

/// Whether every message that a clock counts is there and covered.
pub open spec fn clock_backed<P>(clock: Entries, received: Seq<Signed<P>>) -> bool {
    forall|id: NodeId, n: u64|
        0 < n <= seq_of(clock, id) ==> #[trigger] has_delivered(clock, received, id, n)
}

/// What holds of a node at all times.
pub open spec fn node_sound<P>(node: Node<P>) -> bool {
    &&& distinct(node.clock)
    &&& clock_backed(node.clock, node.received)
    &&& numbers_unique(node.received)
}

/// Whether the clock of every message has one entry per node, and counts the
/// message itself.
pub open spec fn messages_counted<P>(nodes: Seq<Node<P>>) -> bool {
    forall|m: Signed<P>| #[trigger] in_group(nodes, m) ==> distinct(m.clock) && number(m) > 0
}

/// Whether equal sender and number mean the same message.
pub open spec fn one_per_number<P>(nodes: Seq<Node<P>>) -> bool {
    forall|m: Signed<P>, w: Signed<P>| #[trigger]
        in_group(nodes, m) && #[trigger] in_group(nodes, w) && is_number(
            m,
            w.public_key,
            number(w),
        ) ==> m == w
}

/// Whether every node has, and has delivered, all of its own messages.
pub open spec fn own_delivered<P>(nodes: Seq<Node<P>>) -> bool {
    forall|i: int, m: Signed<P>|
        0 <= i < nodes.len() && #[trigger] in_group(nodes, m) && m.public_key == (
        #[trigger] nodes[i]).id ==> nodes[i].received.contains(m) && at_most(
            m.clock,
            nodes[i].clock,
        )
}

/// Whether the group has a message that `id` sent as number `n`, and that
/// precedes `m`.
pub open spec fn has_earlier<P>(nodes: Seq<Node<P>>, m: Signed<P>, id: NodeId, n: u64) -> bool {
    exists|w: Signed<P>| #[trigger]
        in_group(nodes, w) && is_number(w, id, n) && precedes(w.clock, m.clock)
}

/// Whether the causal past of every message is somewhere in the group.
pub open spec fn past_in_group<P>(nodes: Seq<Node<P>>) -> bool {
    forall|m: Signed<P>, id: NodeId|
        in_group(nodes, m) && past(m, id) > 0 ==> #[trigger] has_earlier(
            nodes,
            m,
            id,
            past(m, id),
        )
}

/// What holds of a group at all times.
pub open spec fn sound<P>(nodes: Seq<Node<P>>) -> bool {
    &&& distinct_ids(nodes)
    &&& forall|i: int| 0 <= i < nodes.len() ==> node_sound(#[trigger] nodes[i])
    &&& messages_counted(nodes)
    &&& one_per_number(nodes)
    &&& own_delivered(nodes)
    &&& past_in_group(nodes)
}

/// A group is sound at its start.
pub proof fn fresh_is_sound<P>(nodes: Seq<Node<P>>)
    requires
        fresh(nodes),
    ensures
        sound(nodes),
{
    assert forall|i: int| 0 <= i < nodes.len() implies node_sound(#[trigger] nodes[i]) by {
        assert(nodes[i].clock == Entries::empty());
    }
    assert forall|m: Signed<P>| !#[trigger] in_group(nodes, m) by {
        if in_group(nodes, m) {
            let b = choose|b: int|
                0 <= b < nodes.len() && (#[trigger] nodes[b]).received.contains(m);
            assert(nodes[b].received == Seq::<Signed<P>>::empty());
        }
    }
}

/// A clock is backed by more messages too.
proof fn backed_by_more<P>(clock: Entries, some: Seq<Signed<P>>, all: Seq<Signed<P>>)
    requires
        clock_backed(clock, some),
        forall|m: Signed<P>| some.contains(m) ==> #[trigger] all.contains(m),
    ensures
        clock_backed(clock, all),
{
    assert forall|id: NodeId, n: u64| 0 < n <= seq_of(clock, id) implies #[trigger] has_delivered(
        clock,
        all,
        id,
        n,
    ) by {
        assert(has_delivered(clock, some, id, n));
        let k = choose|k: int|
            0 <= k < some.len() && is_number(#[trigger] some[k], id, n) && at_most(
                some[k].clock,
                clock,
            );
        assert(some.contains(some[k]));
        assert(all.contains(some[k]));
        let l = choose|l: int| 0 <= l < all.len() && all[l] == some[k];
        assert(is_number(all[l], id, n));
    }
}

/// A clock that counts one message more is backed by it too.
proof fn backed_by_one_more<P>(before: Entries, after: Entries, received: Seq<Signed<P>>, k: int)
    requires
        clock_backed(before, received),
        0 <= k < received.len(),
        at_most(before, after),
        at_most(received[k].clock, after),
        number(received[k]) == seq_of(before, received[k].public_key) + 1,
        forall|id: NodeId| #[trigger]
            seq_of(after, id) <= seq_of(before, id) + if id == received[k].public_key {
                1int
            } else {
                0int
            },
    ensures
        clock_backed(after, received),
{
    assert forall|id: NodeId, n: u64| 0 < n <= seq_of(after, id) implies #[trigger] has_delivered(
        after,
        received,
        id,
        n,
    ) by {
        if n <= seq_of(before, id) {
            assert(has_delivered(before, received, id, n));
            let l = choose|l: int|
                0 <= l < received.len() && is_number(#[trigger] received[l], id, n) && at_most(
                    received[l].clock,
                    before,
                );
            at_most_transitive(received[l].clock, before, after);
        } else {
            assert(is_number(received[k], id, n));
        }
    }
}

/// A delivery counts one message of its sender, and no other.
pub proof fn delivery_counts_one<P>(clock: Entries, m: Signed<P>)
    requires
        distinct(clock),
        distinct(m.clock),
        number(m) > 0,
        deliverable(clock, m),
    ensures
        number(m) == seq_of(clock, m.public_key) + 1,
        forall|id: NodeId| #[trigger]
            seq_of(merged(clock, m.clock), id) == seq_of(clock, id) + if id == m.public_key {
                1int
            } else {
                0int
            },
        distinct(merged(clock, m.clock)),
        at_most(clock, merged(clock, m.clock)),
        at_most(m.clock, merged(clock, m.clock)),
{
    let after = merged(clock, m.clock);
    seq_of_merged(clock, m.clock);
    assert forall|id: NodeId| #[trigger] seq_of(m.clock, id) <= seq_of(clock, id) || id
        == m.public_key by {
        if has_entry(m.clock, id) {
            let e = choose|e: int| first_entry(m.clock, id, e);
            seq_of_first(m.clock, id, e);
            assert(m.clock[e].0 == id);
        }
    }
    let e = choose|e: int| first_entry(m.clock, m.public_key, e);
    assert(has_entry(m.clock, m.public_key));
    seq_of_first(m.clock, m.public_key, e);
    assert(m.clock[e].0 == m.public_key);
    assert forall|id: NodeId| #[trigger] seq_of(after, id) == seq_of(clock, id) + if id
        == m.public_key {
        1int
    } else {
        0int
    } by {
        highest_is_seq(m.clock, id);
        assert(seq_of(m.clock, id) <= seq_of(clock, id) || id == m.public_key);
    }
    assert forall|id: NodeId| #[trigger] seq_of(m.clock, id) <= seq_of(after, id) by {
        assert(seq_of(m.clock, id) <= seq_of(clock, id) || id == m.public_key);
        assert(seq_of(after, id) >= seq_of(clock, id));
    }
    at_most_iff_pointwise(clock, after);
    at_most_iff_pointwise(m.clock, after);
}

/// What sending changes: the sender counts and has the message.
proof fn sender_counts_message<P>(before: Seq<Node<P>>, after: Seq<Node<P>>, i: int, m: Signed<P>)
    requires
        sound(before),
        sends(before, after, i, m),
    ensures
        distinct(m.clock),
        number(m) == seq_of(before[i].clock, before[i].id) + 1,
        at_most(before[i].clock, m.clock),
        at_most(m.clock, m.clock),
        forall|id: NodeId| #[trigger] past(m, id) == seq_of(before[i].clock, id),
        forall|w: Signed<P>| #[trigger]
            after[i].received.contains(w) <==> before[i].received.contains(w) || w == m,
        forall|w: Signed<P>| #[trigger] in_group(after, w) <==> in_group(before, w) || w == m,
{
    let node = before[i];
    assert(node_sound(before[i]));
    seq_of_counted(node.clock, node.id);
    assert forall|id: NodeId| #[trigger] past(m, id) == seq_of(node.clock, id) by {
        assert(seq_of(m.clock, id) == seq_of(counted(node.clock, node.id), id));
    }
    assert forall|id: NodeId| #[trigger] seq_of(node.clock, id) <= seq_of(m.clock, id) by {
        assert(seq_of(m.clock, id) == seq_of(counted(node.clock, node.id), id));
    }
    at_most_iff_pointwise(node.clock, m.clock);
    at_most_iff_pointwise(m.clock, m.clock);
    pushed_contains(node.received, m);
    assert forall|w: Signed<P>| #[trigger] in_group(after, w) <==> in_group(before, w) || w == m by {
        if in_group(after, w) {
            let b = choose|b: int|
                0 <= b < after.len() && (#[trigger] after[b]).received.contains(w);
            if b == i {
                assert(after[i].received.contains(w));
            }
            assert(w == m || before[b].received.contains(w));
        }
        if in_group(before, w) {
            let b = choose|b: int|
                0 <= b < before.len() && (#[trigger] before[b]).received.contains(w);
            assert(after[b].received.contains(w));
        }
        if w == m {
            assert(after[i].received.contains(w));
        }
    }
}

/// A list has what it had, and what was added to it.
proof fn pushed_contains<P>(received: Seq<Signed<P>>, m: Signed<P>)
    ensures
        forall|w: Signed<P>| #[trigger]
            received.push(m).contains(w) <==> received.contains(w) || w == m,
{
    let all = received.push(m);
    assert forall|w: Signed<P>| #[trigger] all.contains(w) <==> received.contains(w) || w == m by {
        if received.contains(w) {
            let k = choose|k: int| 0 <= k < received.len() && received[k] == w;
            assert(all[k] == w);
        }
        assert(all[received.len() as int] == m);
    }
}

/// A new message has a higher number than those of its sender in the group.
proof fn new_number_is_higher<P>(
    before: Seq<Node<P>>,
    after: Seq<Node<P>>,
    i: int,
    m: Signed<P>,
    other: Signed<P>,
)
    requires
        sound(before),
        sends(before, after, i, m),
        in_group(before, other),
        other.public_key == before[i].id,
    ensures
        number(other) < number(m),
{
    sender_counts_message(before, after, i, m);
    assert(at_most(other.clock, before[i].clock));
    at_most_pointwise(other.clock, before[i].clock);
    assert(seq_of(other.clock, before[i].id) <= seq_of(before[i].clock, before[i].id));
}

/// The sender of a new message is sound.
proof fn sender_is_sound<P>(before: Seq<Node<P>>, after: Seq<Node<P>>, i: int, m: Signed<P>)
    requires
        sound(before),
        sends(before, after, i, m),
    ensures
        node_sound(after[i]),
{
    let node = before[i];
    let new = after[i];
    let n = node.received.len();
    assert(node_sound(before[i]));
    sender_counts_message(before, after, i, m);
    seq_of_counted(node.clock, node.id);
    backed_by_more(node.clock, node.received, new.received);
    assert(new.received[n as int] == m);
    backed_by_one_more(node.clock, m.clock, new.received, n as int);
    assert forall|x: int, y: int| 0 <= x < y < new.received.len() implies !((
    #[trigger] new.received[x]).public_key == (#[trigger] new.received[y]).public_key && number(
        new.received[x],
    ) == number(new.received[y])) by {
        assert(new.received[x] == node.received[x]);
        if y == n {
            assert(node.received.contains(node.received[x]));
            assert(in_group(before, node.received[x]));
            if node.received[x].public_key == node.id {
                new_number_is_higher(before, after, i, m, node.received[x]);
            }
        } else {
            assert(new.received[y] == node.received[y]);
        }
    }
}

/// A node has the causal past of a message that it makes.
proof fn sender_has_past<P>(
    before: Seq<Node<P>>,
    after: Seq<Node<P>>,
    i: int,
    m: Signed<P>,
    id: NodeId,
) -> (k: int)
    requires
        sound(before),
        sends(before, after, i, m),
        past(m, id) > 0,
    ensures
        0 <= k < before[i].received.len(),
        is_number(before[i].received[k], id, past(m, id)),
        precedes(before[i].received[k].clock, m.clock),
{
    let node = before[i];
    assert(node_sound(before[i]));
    sender_counts_message(before, after, i, m);
    assert(has_delivered(node.clock, node.received, id, past(m, id)));
    let k = choose|k: int|
        0 <= k < node.received.len() && is_number(#[trigger] node.received[k], id, past(m, id))
            && at_most(node.received[k].clock, node.clock);
    new_message_follows_delivered(node.clock, node.id, node.received[k]);
    k
}

/// Sending keeps a group sound.
#[verifier::rlimit(40)]
proof fn sending_keeps_sound<P>(
    before: Seq<Node<P>>,
    after: Seq<Node<P>>,
    i: int,
    m: Signed<P>,
)
    requires
        sound(before),
        sends(before, after, i, m),
    ensures
        sound(after),
{
    sender_counts_message(before, after, i, m);
    sender_is_sound(before, after, i, m);
    same_ids_stay_distinct(before, after);
    assert forall|a: int| 0 <= a < after.len() implies node_sound(#[trigger] after[a]) by {
        assert(node_sound(before[a]));
    }
    assert forall|x: Signed<P>, w: Signed<P>| #[trigger]
        in_group(after, x) && #[trigger] in_group(after, w) && is_number(
            x,
            w.public_key,
            number(w),
        ) implies x == w by {
        if in_group(before, x) && !in_group(before, w) {
            new_number_is_higher(before, after, i, m, x);
        }
        if in_group(before, w) && !in_group(before, x) {
            new_number_is_higher(before, after, i, m, w);
        }
    }
    assert forall|a: int, w: Signed<P>|
        0 <= a < after.len() && #[trigger] in_group(after, w) && w.public_key == (
        #[trigger] after[a]).id implies after[a].received.contains(w) && at_most(
        w.clock,
        after[a].clock,
    ) by {
        assert(before[a].id == after[a].id);
        if in_group(before, w) {
            assert(before[a].received.contains(w) && at_most(w.clock, before[a].clock));
            if a == i {
                at_most_transitive(w.clock, before[i].clock, m.clock);
            }
        } else {
            assert(before[a].id == before[i].id);
            assert(a == i);
        }
    }
    assert forall|w: Signed<P>, id: NodeId|
        in_group(after, w) && past(w, id) > 0 implies #[trigger] has_earlier(
        after,
        w,
        id,
        past(w, id),
    ) by {
        if in_group(before, w) {
            assert(has_earlier(before, w, id, past(w, id)));
            let e = choose|e: Signed<P>| #[trigger]
                in_group(before, e) && is_number(e, id, past(w, id)) && precedes(e.clock, w.clock);
            assert(in_group(after, e));
        } else {
            let k = sender_has_past(before, after, i, m, id);
            let e = before[i].received[k];
            assert(before[i].received.contains(e));
            assert(in_group(before, e));
            assert(in_group(after, e));
        }
    }
}

/// The node at `i` receives some messages that the group has.
spec fn takes<P>(
    before: Seq<Node<P>>,
    after: Seq<Node<P>>,
    i: int,
    messages: Seq<Signed<P>>,
) -> bool {
    let node = before[i];
    &&& 0 <= i < before.len()
    &&& forall|k: int| 0 <= k < messages.len() ==> in_group(before, #[trigger] messages[k])
    &&& after == before.update(
        i,
        Node { id: node.id, clock: node.clock, received: with_all(node.received, messages) },
    )
}

/// Receiving one message, or all that a node has, is receiving some that the
/// group has.
proof fn receiving_takes<P>(before: Seq<Node<P>>, after: Seq<Node<P>>, i: int, j: int, k: int)
    ensures
        receives(before, after, i, j, k) ==> takes(
            before,
            after,
            i,
            seq![before[j].received[k]],
        ),
        syncs(before, after, i, j) ==> takes(before, after, i, before[j].received),
{
    let all = before[j].received;
    if receives(before, after, i, j, k) {
        let one = seq![all[k]];
        assert(all.contains(all[k]));
        assert(in_group(before, all[k]));
        assert(one.drop_last() =~= Seq::<Signed<P>>::empty());
        assert(with_all(before[i].received, one.drop_last()) == before[i].received);
        assert(with_all(before[i].received, one) == with_message(before[i].received, all[k]));
    }
    if syncs(before, after, i, j) {
        assert forall|l: int| 0 <= l < all.len() implies in_group(before, #[trigger] all[l]) by {
            assert(all.contains(all[l]));
            assert(before[j].received.contains(all[l]));
        }
    }
}

/// Receiving messages of the group adds exactly them.
proof fn with_all_is_union<P>(nodes: Seq<Node<P>>, i: int, messages: Seq<Signed<P>>)
    requires
        sound(nodes),
        0 <= i < nodes.len(),
        forall|k: int| 0 <= k < messages.len() ==> in_group(nodes, #[trigger] messages[k]),
    ensures
        numbers_unique(with_all(nodes[i].received, messages)),
        forall|m: Signed<P>| #[trigger]
            with_all(nodes[i].received, messages).contains(m) <==> nodes[i].received.contains(m)
                || messages.contains(m),
    decreases messages.len(),
{
    let received = nodes[i].received;
    assert(node_sound(nodes[i]));
    if messages.len() > 0 {
        let rest = messages.drop_last();
        let last = messages.last();
        assert forall|k: int| 0 <= k < rest.len() implies in_group(nodes, #[trigger] rest[k]) by {
            assert(rest[k] == messages[k]);
        }
        with_all_is_union(nodes, i, rest);
        let some = with_all(received, rest);
        let all = with_all(received, messages);
        receive_keeps_numbers_unique(some, last);
        assert(in_group(nodes, messages[messages.len() - 1]));
        assert(messages =~= rest.push(last));
        pushed_contains(rest, last);
        pushed_contains(some, last);
        if known(some, last) {
            let k = choose|k: int|
                0 <= k < some.len() && (#[trigger] some[k]).public_key == last.public_key
                    && number(some[k]) == number(last);
            assert(some.contains(some[k]));
            assert(in_group(nodes, some[k])) by {
                if rest.contains(some[k]) {
                    let y = choose|y: int| 0 <= y < rest.len() && rest[y] == some[k];
                    assert(in_group(nodes, rest[y]));
                } else {
                    assert(nodes[i].received.contains(some[k]));
                }
            }
            assert(is_number(some[k], last.public_key, number(last)));
            assert(some[k] == last);
        }
    } else {
        assert(forall|m: Signed<P>| !messages.contains(m));
    }
}

/// What receiving changes: the receiver has the messages, and the group has
/// what it had.
proof fn receiver_has_messages<P>(
    before: Seq<Node<P>>,
    after: Seq<Node<P>>,
    i: int,
    messages: Seq<Signed<P>>,
)
    requires
        sound(before),
        takes(before, after, i, messages),
    ensures
        node_sound(after[i]),
        forall|m: Signed<P>| #[trigger]
            after[i].received.contains(m) <==> before[i].received.contains(m)
                || messages.contains(m),
        forall|m: Signed<P>| #[trigger] in_group(after, m) <==> in_group(before, m),
{
    assert(node_sound(before[i]));
    with_all_is_union(before, i, messages);
    backed_by_more(before[i].clock, before[i].received, after[i].received);
    assert forall|m: Signed<P>| #[trigger] in_group(after, m) <==> in_group(before, m) by {
        if in_group(after, m) {
            let b = choose|b: int|
                0 <= b < after.len() && (#[trigger] after[b]).received.contains(m);
            if b == i {
                assert(after[i].received.contains(m));
                if messages.contains(m) {
                    let k = choose|k: int| 0 <= k < messages.len() && messages[k] == m;
                    assert(in_group(before, messages[k]));
                } else {
                    assert(before[i].received.contains(m));
                }
            } else {
                assert(before[b].received.contains(m));
            }
        }
        if in_group(before, m) {
            let b = choose|b: int|
                0 <= b < before.len() && (#[trigger] before[b]).received.contains(m);
            assert(after[b].received.contains(m));
        }
    }
}

/// A group that has the same messages has the causal past of each.
proof fn same_messages_same_past<P>(before: Seq<Node<P>>, after: Seq<Node<P>>)
    requires
        past_in_group(before),
        forall|m: Signed<P>| #[trigger] in_group(after, m) <==> in_group(before, m),
    ensures
        past_in_group(after),
{
    assert forall|w: Signed<P>, id: NodeId|
        in_group(after, w) && past(w, id) > 0 implies #[trigger] has_earlier(
        after,
        w,
        id,
        past(w, id),
    ) by {
        assert(has_earlier(before, w, id, past(w, id)));
        let e = choose|e: Signed<P>| #[trigger]
            in_group(before, e) && is_number(e, id, past(w, id)) && precedes(e.clock, w.clock);
        assert(in_group(after, e));
    }
}

/// Receiving messages that the group has keeps the group sound.
proof fn receiving_keeps_sound<P>(
    before: Seq<Node<P>>,
    after: Seq<Node<P>>,
    i: int,
    messages: Seq<Signed<P>>,
)
    requires
        sound(before),
        takes(before, after, i, messages),
    ensures
        sound(after),
{
    receiver_has_messages(before, after, i, messages);
    same_messages_same_past(before, after);
    same_ids_stay_distinct(before, after);
    assert forall|a: int| 0 <= a < after.len() implies node_sound(#[trigger] after[a]) by {
        assert(node_sound(before[a]));
    }
    assert forall|a: int, w: Signed<P>|
        0 <= a < after.len() && #[trigger] in_group(after, w) && w.public_key == (
        #[trigger] after[a]).id implies after[a].received.contains(w) && at_most(
        w.clock,
        after[a].clock,
    ) by {
        assert(in_group(before, w));
        assert(before[a].id == after[a].id);
        assert(before[a].received.contains(w));
        if a == i {
            assert(after[i].received.contains(w));
        }
    }
}

/// Welcoming a node keeps a group sound.
proof fn welcoming_keeps_sound<P>(before: Seq<Node<P>>, after: Seq<Node<P>>, i: int, j: int)
    requires
        sound(before),
        is_welcomed(before, after, i, j),
    ensures
        sound(after),
{
    assert forall|m: Signed<P>| #[trigger] in_group(after, m) <==> in_group(before, m) by {
        if in_group(after, m) {
            let b = choose|b: int|
                0 <= b < after.len() && (#[trigger] after[b]).received.contains(m);
            if b == i {
                assert(before[j].received.contains(m));
            } else {
                assert(before[b].received.contains(m));
            }
        }
        if in_group(before, m) {
            let b = choose|b: int|
                0 <= b < before.len() && (#[trigger] before[b]).received.contains(m);
            assert(b != i);
            assert(after[b].received.contains(m));
        }
    }
    same_messages_same_past(before, after);
    same_ids_stay_distinct(before, after);
    assert forall|a: int| 0 <= a < after.len() implies node_sound(#[trigger] after[a]) by {
        assert(node_sound(before[a]) && node_sound(before[j]));
    }
    assert forall|a: int, w: Signed<P>|
        0 <= a < after.len() && #[trigger] in_group(after, w) && w.public_key == (
        #[trigger] after[a]).id implies after[a].received.contains(w) && at_most(
        w.clock,
        after[a].clock,
    ) by {
        assert(in_group(before, w));
        assert(before[a].id == after[a].id);
        assert(before[a].received.contains(w));
        assert(a != i);
    }
}

/// What delivering changes: the clock of one node, and no messages.
proof fn deliverer_is_sound<P>(before: Seq<Node<P>>, after: Seq<Node<P>>, i: int, k: int)
    requires
        sound(before),
        delivers(before, after, i, k),
    ensures
        node_sound(after[i]),
        at_most(before[i].clock, after[i].clock),
        forall|m: Signed<P>| #[trigger] in_group(after, m) <==> in_group(before, m),
{
    let node = before[i];
    let m = node.received[k];
    assert(node_sound(before[i]));
    assert(node.received.contains(m));
    assert(in_group(before, m));
    delivery_counts_one(node.clock, m);
    backed_by_one_more(node.clock, after[i].clock, node.received, k);
    assert forall|w: Signed<P>| #[trigger] in_group(after, w) <==> in_group(before, w) by {
        if in_group(after, w) {
            let b = choose|b: int|
                0 <= b < after.len() && (#[trigger] after[b]).received.contains(w);
            assert(before[b].received.contains(w));
        }
        if in_group(before, w) {
            let b = choose|b: int|
                0 <= b < before.len() && (#[trigger] before[b]).received.contains(w);
            assert(after[b].received.contains(w));
        }
    }
}

/// Delivering keeps a group sound.
proof fn delivering_keeps_sound<P>(before: Seq<Node<P>>, after: Seq<Node<P>>, i: int, k: int)
    requires
        sound(before),
        delivers(before, after, i, k),
    ensures
        sound(after),
{
    deliverer_is_sound(before, after, i, k);
    same_messages_same_past(before, after);
    same_ids_stay_distinct(before, after);
    assert forall|a: int| 0 <= a < after.len() implies node_sound(#[trigger] after[a]) by {
        assert(node_sound(before[a]));
    }
    assert forall|a: int, w: Signed<P>|
        0 <= a < after.len() && #[trigger] in_group(after, w) && w.public_key == (
        #[trigger] after[a]).id implies after[a].received.contains(w) && at_most(
        w.clock,
        after[a].clock,
    ) by {
        assert(in_group(before, w));
        assert(before[a].id == after[a].id);
        assert(before[a].received.contains(w) && at_most(w.clock, before[a].clock));
        if a == i {
            at_most_transitive(w.clock, before[i].clock, after[i].clock);
        }
    }
}

/// Identifiers that do not change stay different.
proof fn same_ids_stay_distinct<P>(before: Seq<Node<P>>, after: Seq<Node<P>>)
    requires
        distinct_ids(before),
        after.len() == before.len(),
        forall|a: int| 0 <= a < after.len() ==> (#[trigger] after[a]).id == before[a].id,
    ensures
        distinct_ids(after),
{
    assert forall|a: int, b: int| 0 <= a < b < after.len() implies (#[trigger] after[a]).id != (
    #[trigger] after[b]).id by {
        assert(before[a].id != before[b].id);
    }
}

/// Whatever a node of a sound group does, the group stays sound.
pub proof fn steps_keep_sound<P>(before: Seq<Node<P>>, after: Seq<Node<P>>)
    requires
        sound(before),
        step(before, after),
    ensures
        sound(after),
{
    if exists|i: int, m: Signed<P>| sends(before, after, i, m) {
        let (i, m) = choose|i: int, m: Signed<P>| sends(before, after, i, m);
        sending_keeps_sound(before, after, i, m);
    } else if exists|i: int, j: int, k: int| receives(before, after, i, j, k) {
        let (i, j, k) = choose|i: int, j: int, k: int| receives(before, after, i, j, k);
        receiving_takes(before, after, i, j, k);
        receiving_keeps_sound(before, after, i, seq![before[j].received[k]]);
    } else if exists|i: int, j: int| syncs(before, after, i, j) {
        let (i, j) = choose|i: int, j: int| syncs(before, after, i, j);
        receiving_takes(before, after, i, j, 0);
        receiving_keeps_sound(before, after, i, before[j].received);
    } else if exists|i: int, j: int| is_welcomed(before, after, i, j) {
        let (i, j) = choose|i: int, j: int| is_welcomed(before, after, i, j);
        welcoming_keeps_sound(before, after, i, j);
    } else {
        let (i, k) = choose|i: int, k: int| delivers(before, after, i, k);
        delivering_keeps_sound(before, after, i, k);
    }
}

/// A group stays sound when a node delivers any number of messages.
pub proof fn deliveries_keep_sound<P>(nodes: Seq<Node<P>>, i: int, n: nat)
    requires
        sound(nodes),
        0 <= i < nodes.len(),
    ensures
        sound(
            nodes.update(
                i,
                Node { clock: clock_after(nodes[i].clock, nodes[i].received, n), ..nodes[i] },
            ),
        ),
    decreases n,
{
    if n == 0 {
        assert(nodes.update(i, nodes[i]) =~= nodes);
    } else {
        deliveries_keep_sound(nodes, i, (n - 1) as nat);
        let before = clock_after(nodes[i].clock, nodes[i].received, (n - 1) as nat);
        let state = nodes.update(i, Node { clock: before, ..nodes[i] });
        if exists|k: int| first_deliverable(before, nodes[i].received, k) {
            let k = choose|k: int| first_deliverable(before, nodes[i].received, k);
            let after = nodes.update(
                i,
                Node { clock: merged(before, nodes[i].received[k].clock), ..nodes[i] },
            );
            assert(after =~= state.update(i, after[i]));
            assert(delivers(state, after, i, k));
            delivering_keeps_sound(state, after, i, k);
        }
    }
}

/// A group is sound all along its history.
pub proof fn history_is_sound<P>(states: Seq<Seq<Node<P>>>, t: int)
    requires
        history(states),
        0 <= t < states.len(),
    ensures
        sound(states[t]),
    decreases t,
{
    if t == 0 {
        fresh_is_sound(states[0]);
    } else {
        history_is_sound(states, t - 1);
        assert(step(states[t - 1], states[t - 1 + 1]));
        steps_keep_sound(states[t - 1], states[t]);
    }
}

/// Where numbers are unique and every message comes with its causal past, the
/// messages of each sender are causally in line.
pub proof fn complete_is_in_line<P>(received: Seq<Signed<P>>)
    requires
        causally_complete(received),
        numbers_unique(received),
    ensures
        senders_in_line(received),
{
    assert forall|i: int, j: int|
        0 <= i < received.len() && 0 <= j < received.len() && i != j && (
        #[trigger] received[i]).public_key == (#[trigger] received[j]).public_key implies precedes(
        received[i].clock,
        received[j].clock,
    ) || precedes(received[j].clock, received[i].clock) by {
        if i < j {
            assert(number(received[i]) != number(received[j]));
        } else {
            assert(number(received[j]) != number(received[i]));
        }
        if number(received[i]) < number(received[j]) {
            earlier_number_precedes(received, i, j);
        } else {
            earlier_number_precedes(received, j, i);
        }
    }
}

/// A message precedes the later messages of its sender.
proof fn earlier_number_precedes<P>(received: Seq<Signed<P>>, i: int, j: int)
    requires
        causally_complete(received),
        numbers_unique(received),
        0 <= i < received.len(),
        0 <= j < received.len(),
        received[i].public_key == received[j].public_key,
        number(received[i]) < number(received[j]),
    ensures
        precedes(received[i].clock, received[j].clock),
    decreases number(received[j]),
{
    let id = received[j].public_key;
    assert(number(received[i]) > 0) by {
        assert(distinct(received[i].clock));
    }
    assert(past(received[j], id) > 0);
    assert(seq_of(received[j].clock, id) == number(received[j]));
    let k = choose|k: int|
        0 <= k < received.len() && is_number(#[trigger] received[k], id, past(received[j], id))
            && precedes(received[k].clock, received[j].clock);
    if number(received[i]) == number(received[k]) {
        assert(i == k) by {
            if i < k {
                assert(!(received[i].public_key == received[k].public_key && number(received[i])
                    == number(received[k])));
            } else if k < i {
                assert(!(received[k].public_key == received[i].public_key && number(received[k])
                    == number(received[i])));
            }
        }
    } else {
        earlier_number_precedes(received, i, k);
        precedes_transitive(received[i].clock, received[k].clock, received[j].clock);
    }
}

/// A list of messages and what a clock covers of it.
pub proof fn covered_is_part<P>(clock: Entries, received: Seq<Signed<P>>)
    ensures
        forall|m: Signed<P>| #[trigger]
            covered(clock, received).contains(m) <==> received.contains(m) && at_most(
                m.clock,
                clock,
            ),
        numbers_unique(received) ==> numbers_unique(covered(clock, received)),
    decreases received.len(),
{
    reveal(Seq::filter);
    if received.len() > 0 {
        let rest = received.drop_last();
        let last = received.last();
        let part = covered(clock, rest);
        covered_is_part(clock, rest);
        assert(received =~= rest.push(last));
        pushed_contains(rest, last);
        pushed_contains(part, last);
        if numbers_unique(received) {
            assert forall|x: int, y: int| 0 <= x < y < rest.len() implies !((
            #[trigger] rest[x]).public_key == (#[trigger] rest[y]).public_key && number(rest[x])
                == number(rest[y])) by {
                assert(rest[x] == received[x] && rest[y] == received[y]);
            }
            assert forall|x: int| 0 <= x < part.len() implies !((#[trigger] part[x]).public_key
                == last.public_key && number(part[x]) == number(last)) by {
                assert(part.contains(part[x]));
                assert(rest.contains(part[x]));
                let k = choose|k: int| 0 <= k < rest.len() && rest[k] == part[x];
                assert(received[k] == part[x]);
                assert(received[received.len() - 1] == last);
            }
            let all = covered(clock, received);
            assert forall|x: int, y: int| 0 <= x < y < all.len() implies !((
            #[trigger] all[x]).public_key == (#[trigger] all[y]).public_key && number(all[x])
                == number(all[y])) by {
                assert(all[x] == part[x]);
                if y < part.len() {
                    assert(all[y] == part[y]);
                } else {
                    assert(all[y] == last);
                }
            }
        }
    } else {
        assert(covered(clock, received) =~= received);
    }
}

/// What a node of a sound group has delivered comes with its causal past, and
/// its clock comes from it.
pub proof fn delivered_is_complete<P>(nodes: Seq<Node<P>>, i: int)
    requires
        sound(nodes),
        0 <= i < nodes.len(),
    ensures
        causally_complete(covered(nodes[i].clock, nodes[i].received)),
        numbers_unique(covered(nodes[i].clock, nodes[i].received)),
        clock_from_messages(nodes[i].clock, covered(nodes[i].clock, nodes[i].received)),
{
    let node = nodes[i];
    let part = covered(node.clock, node.received);
    assert(node_sound(nodes[i]));
    covered_is_part(node.clock, node.received);
    assert forall|x: int| 0 <= x < part.len() implies distinct((#[trigger] part[x]).clock)
        && number(part[x]) > 0 && in_group(nodes, part[x]) by {
        assert(part.contains(part[x]));
        assert(nodes[i].received.contains(part[x]));
        assert(in_group(nodes, part[x]));
    }
    assert forall|x: int, id: NodeId|
        #![trigger seq_of(part[x].clock, id)]
        0 <= x < part.len() && past(part[x], id) > 0 implies exists|y: int|
        0 <= y < part.len() && is_number(#[trigger] part[y], id, past(part[x], id)) && precedes(
            part[y].clock,
            part[x].clock,
        ) by {
        let m = part[x];
        let n = past(m, id);
        assert(part.contains(m));
        assert(in_group(nodes, part[x]));
        assert(has_earlier(nodes, m, id, past(m, id)));
        let e = choose|e: Signed<P>| #[trigger]
            in_group(nodes, e) && is_number(e, id, n) && precedes(e.clock, m.clock);
        at_most_pointwise(m.clock, node.clock);
        assert(seq_of(m.clock, id) <= seq_of(node.clock, id));
        let y = delivered_position(nodes, i, id, n);
        assert(in_group(nodes, part[y]));
        assert(is_number(part[y], e.public_key, number(e)));
        assert(part[y] == e);
    }
    assert forall|id: NodeId| #[trigger] seq_of(node.clock, id) > 0 implies exists|y: int|
        0 <= y < part.len() && at_most((#[trigger] part[y]).clock, node.clock) && highest(
            part[y].clock,
            id,
        ) == seq_of(node.clock, id) by {
        let y = delivered_position(nodes, i, id, seq_of(node.clock, id));
        assert(distinct(part[y].clock));
        highest_is_seq(part[y].clock, id);
    }
}

/// Where a message that a clock counts stands among what was delivered.
proof fn delivered_position<P>(nodes: Seq<Node<P>>, i: int, id: NodeId, n: u64) -> (y: int)
    requires
        sound(nodes),
        0 <= i < nodes.len(),
        0 < n <= seq_of(nodes[i].clock, id),
    ensures
        ({
            let part = covered(nodes[i].clock, nodes[i].received);
            0 <= y < part.len() && is_number(part[y], id, n) && at_most(
                part[y].clock,
                nodes[i].clock,
            )
        }),
{
    let node = nodes[i];
    let part = covered(node.clock, node.received);
    assert(node_sound(nodes[i]));
    covered_is_part(node.clock, node.received);
    assert(has_delivered(node.clock, node.received, id, n));
    let k = choose|k: int|
        0 <= k < node.received.len() && is_number(#[trigger] node.received[k], id, n) && at_most(
            node.received[k].clock,
            node.clock,
        );
    assert(node.received.contains(node.received[k]));
    assert(part.contains(node.received[k]));
    choose|y: int| 0 <= y < part.len() && part[y] == node.received[k]
}

/// A node that can deliver none of its messages has delivered all of them that
/// another node has delivered.
proof fn drained_has_delivered_same<P>(nodes: Seq<Node<P>>, i: int, j: int)
    requires
        sound(nodes),
        0 <= i < nodes.len(),
        0 <= j < nodes.len(),
        nodes[i].received.to_set() == nodes[j].received.to_set(),
        drained(nodes[i].clock, nodes[i].received),
    ensures
        forall|m: Signed<P>| #[trigger]
            covered(nodes[j].clock, nodes[j].received).contains(m) ==> covered(
                nodes[i].clock,
                nodes[i].received,
            ).contains(m),
        drained(nodes[i].clock, covered(nodes[i].clock, nodes[i].received)),
{
    let a = nodes[i];
    let b = nodes[j];
    let part_a = covered(a.clock, a.received);
    let part_b = covered(b.clock, b.received);
    assert(node_sound(nodes[i]));
    covered_is_part(a.clock, a.received);
    covered_is_part(b.clock, b.received);
    delivered_is_complete(nodes, j);
    assert forall|y: int| 0 <= y < part_b.len() implies !deliverable(
        a.clock,
        #[trigger] part_b[y],
    ) by {
        assert(part_b.contains(part_b[y]));
        assert(b.received.to_set().contains(part_b[y]));
        assert(a.received.contains(part_b[y]));
        let k = choose|k: int| 0 <= k < a.received.len() && a.received[k] == part_b[y];
        assert(!deliverable(a.clock, a.received[k]));
    }
    drained_means_all_delivered(a.clock, part_b);
    assert forall|m: Signed<P>| #[trigger] part_b.contains(m) implies part_a.contains(m) by {
        let y = choose|y: int| 0 <= y < part_b.len() && part_b[y] == m;
        assert(at_most(part_b[y].clock, a.clock));
        assert(b.received.to_set().contains(m));
        assert(a.received.contains(m));
    }
    assert forall|x: int| 0 <= x < part_a.len() implies !deliverable(
        a.clock,
        #[trigger] part_a[x],
    ) by {
        assert(part_a.contains(part_a[x]));
        let k = choose|k: int| 0 <= k < a.received.len() && a.received[k] == part_a[x];
        assert(!deliverable(a.clock, a.received[k]));
    }
}

/// A node whose messages came with their causal past, and that can deliver
/// none, has delivered all.
pub proof fn complete_node_delivers_all<P>(node: Node<P>)
    requires
        node_sound(node),
        causally_complete(node.received),
        drained(node.clock, node.received),
    ensures
        covered(node.clock, node.received) == node.received,
{
    drained_means_all_delivered(node.clock, node.received);
    all_covered(node.clock, node.received);
}

/// Convergence: in whatever order the nodes of a group have been welcomed, have
/// sent, received, synced and delivered, two nodes that now have the same messages, and can
/// deliver none, have delivered the same ones, have the same clock, and put
/// the messages in the same order.
pub proof fn group_converges<P>(states: Seq<Seq<Node<P>>>, i: int, j: int)
    requires
        history(states),
        0 <= i < states.last().len(),
        0 <= j < states.last().len(),
        states.last()[i].received.to_set() == states.last()[j].received.to_set(),
        drained(states.last()[i].clock, states.last()[i].received),
        drained(states.last()[j].clock, states.last()[j].received),
    ensures
        ({
            let a = states.last()[i];
            let b = states.last()[j];
            &&& covered(a.clock, a.received).to_set() == covered(b.clock, b.received).to_set()
            &&& at_most(a.clock, b.clock) && at_most(b.clock, a.clock)
            &&& in_order(covered(a.clock, a.received)) == in_order(covered(b.clock, b.received))
        }),
{
    let nodes = states.last();
    history_is_sound(states, states.len() - 1);
    let a = nodes[i];
    let b = nodes[j];
    let part_a = covered(a.clock, a.received);
    let part_b = covered(b.clock, b.received);
    assert(node_sound(nodes[i]) && node_sound(nodes[j]));
    drained_has_delivered_same(nodes, i, j);
    drained_has_delivered_same(nodes, j, i);
    assert(part_a.to_set() =~= part_b.to_set()) by {
        assert forall|m: Signed<P>| part_a.to_set().contains(m) <==> part_b.to_set().contains(
            m,
        ) by {
            assert(part_a.contains(m) <==> part_b.contains(m));
        }
    }
    delivered_is_complete(nodes, i);
    delivered_is_complete(nodes, j);
    complete_is_in_line(part_a);
    complete_is_in_line(part_b);
    nodes_converge(a.clock, b.clock, part_a, part_b);
}

/// Whether a node has everything that the group has.
pub open spec fn has_everything<P>(nodes: Seq<Node<P>>, i: int) -> bool {
    forall|m: Signed<P>| #[trigger] in_group(nodes, m) ==> nodes[i].received.contains(m)
}

/// A node of a sound group that has everything has every message with its
/// causal past.
pub proof fn everything_is_complete<P>(nodes: Seq<Node<P>>, i: int)
    requires
        sound(nodes),
        0 <= i < nodes.len(),
        has_everything(nodes, i),
    ensures
        causally_complete(nodes[i].received),
{
    let r = nodes[i].received;
    assert forall|x: int| 0 <= x < r.len() implies distinct((#[trigger] r[x]).clock) && number(
        r[x],
    ) > 0 && in_group(nodes, r[x]) by {
        assert(nodes[i].received.contains(r[x]));
        assert(in_group(nodes, r[x]));
    }
    assert forall|x: int, id: NodeId|
        #![trigger seq_of(r[x].clock, id)]
        0 <= x < r.len() && past(r[x], id) > 0 implies exists|y: int|
        0 <= y < r.len() && is_number(#[trigger] r[y], id, past(r[x], id)) && precedes(
            r[y].clock,
            r[x].clock,
        ) by {
        assert(in_group(nodes, r[x]));
        assert(has_earlier(nodes, r[x], id, past(r[x], id)));
        let e = choose|e: Signed<P>| #[trigger]
            in_group(nodes, e) && is_number(e, id, past(r[x], id)) && precedes(
                e.clock,
                r[x].clock,
            );
        assert(r.contains(e));
        let y = choose|y: int| 0 <= y < r.len() && r[y] == e;
        assert(is_number(r[y], id, past(r[x], id)));
    }
}

/// Convergence of a group: in whatever order its nodes have been welcomed, have
/// sent, received, synced and delivered, once each of two nodes has everything, and can
/// deliver nothing, both have delivered everything, have the same clock, and
/// put the messages in the same order.
pub proof fn everything_received_converges<P>(states: Seq<Seq<Node<P>>>, i: int, j: int)
    requires
        history(states),
        0 <= i < states.last().len(),
        0 <= j < states.last().len(),
        has_everything(states.last(), i),
        has_everything(states.last(), j),
        drained(states.last()[i].clock, states.last()[i].received),
        drained(states.last()[j].clock, states.last()[j].received),
    ensures
        ({
            let a = states.last()[i];
            let b = states.last()[j];
            &&& covered(a.clock, a.received) == a.received
            &&& covered(b.clock, b.received) == b.received
            &&& at_most(a.clock, b.clock) && at_most(b.clock, a.clock)
            &&& in_order(covered(a.clock, a.received)) == in_order(covered(b.clock, b.received))
        }),
{
    let nodes = states.last();
    history_is_sound(states, states.len() - 1);
    everything_is_complete(nodes, i);
    everything_is_complete(nodes, j);
    assert(node_sound(nodes[i]) && node_sound(nodes[j]));
    complete_node_delivers_all(nodes[i]);
    complete_node_delivers_all(nodes[j]);
    let ra = nodes[i].received;
    let rb = nodes[j].received;
    assert forall|m: Signed<P>| ra.to_set().contains(m) <==> rb.to_set().contains(m) by {
        if ra.contains(m) {
            assert(nodes[i].received.contains(m));
            assert(in_group(nodes, m));
        }
        if rb.contains(m) {
            assert(nodes[j].received.contains(m));
            assert(in_group(nodes, m));
        }
    }
    assert(ra.to_set() =~= rb.to_set());
    group_converges(states, i, j);
}

/// Where nodes receive only all that another node has, every message comes
/// with its causal past.
pub proof fn whole_syncs_keep_past<P>(before: Seq<Node<P>>, after: Seq<Node<P>>)
    requires
        sound(before),
        forall|i: int| 0 <= i < before.len() ==> causally_complete((#[trigger] before[i]).received),
        ({
            ||| exists|i: int, m: Signed<P>| sends(before, after, i, m)
            ||| exists|i: int, j: int| syncs(before, after, i, j)
            ||| exists|i: int, j: int| is_welcomed(before, after, i, j)
            ||| exists|i: int, k: int| delivers(before, after, i, k)
        }),
    ensures
        forall|i: int| 0 <= i < after.len() ==> causally_complete((#[trigger] after[i]).received),
{
    if exists|i: int, m: Signed<P>| sends(before, after, i, m) {
        let (i, m) = choose|i: int, m: Signed<P>| sends(before, after, i, m);
        complete_after_sending(before, after, i, m);
        assert forall|a: int| 0 <= a < after.len() implies causally_complete(
            (#[trigger] after[a]).received,
        ) by {
            assert(causally_complete(before[a].received));
        }
    } else if exists|i: int, j: int| syncs(before, after, i, j) {
        let (i, j) = choose|i: int, j: int| syncs(before, after, i, j);
        receiving_takes(before, after, i, j, 0);
        receiver_has_messages(before, after, i, before[j].received);
        assert(causally_complete(before[i].received) && causally_complete(before[j].received));
        union_is_complete(before[i].received, before[j].received, after[i].received);
        assert forall|a: int| 0 <= a < after.len() implies causally_complete(
            (#[trigger] after[a]).received,
        ) by {
            assert(causally_complete(before[a].received));
        }
    } else if exists|i: int, j: int| is_welcomed(before, after, i, j) {
        let (i, j) = choose|i: int, j: int| is_welcomed(before, after, i, j);
        assert forall|a: int| 0 <= a < after.len() implies causally_complete(
            (#[trigger] after[a]).received,
        ) by {
            assert(causally_complete(before[a].received) && causally_complete(before[j].received));
        }
    } else {
        let (i, k) = choose|i: int, k: int| delivers(before, after, i, k);
        assert forall|a: int| 0 <= a < after.len() implies causally_complete(
            (#[trigger] after[a]).received,
        ) by {
            assert(causally_complete(before[a].received));
            assert(after[a].received == before[a].received);
        }
    }
}

/// A new message comes with its causal past.
proof fn complete_after_sending<P>(before: Seq<Node<P>>, after: Seq<Node<P>>, i: int, m: Signed<P>)
    requires
        sound(before),
        sends(before, after, i, m),
        causally_complete(before[i].received),
    ensures
        causally_complete(after[i].received),
{
    let r = before[i].received;
    let all = after[i].received;
    sender_counts_message(before, after, i, m);
    assert forall|x: int| 0 <= x < all.len() implies distinct((#[trigger] all[x]).clock) && number(
        all[x],
    ) > 0 by {
        if x < r.len() {
            assert(all[x] == r[x]);
        }
    }
    assert forall|x: int, id: NodeId|
        #![trigger seq_of(all[x].clock, id)]
        0 <= x < all.len() && past(all[x], id) > 0 implies exists|y: int|
        0 <= y < all.len() && is_number(#[trigger] all[y], id, past(all[x], id)) && precedes(
            all[y].clock,
            all[x].clock,
        ) by {
        if x < r.len() {
            assert(all[x] == r[x]);
            assert(seq_of(r[x].clock, id) == seq_of(all[x].clock, id));
            let y = choose|y: int|
                0 <= y < r.len() && is_number(#[trigger] r[y], id, past(r[x], id)) && precedes(
                    r[y].clock,
                    r[x].clock,
                );
            assert(all[y] == r[y]);
        } else {
            let y = sender_has_past(before, after, i, m, id);
            assert(all[y] == r[y]);
            assert(is_number(all[y], id, past(all[x], id)));
        }
    }
}

/// Messages that come with their causal past still do among more messages.
proof fn union_is_complete<P>(a: Seq<Signed<P>>, b: Seq<Signed<P>>, all: Seq<Signed<P>>)
    requires
        causally_complete(a),
        causally_complete(b),
        forall|m: Signed<P>| #[trigger] all.contains(m) <==> a.contains(m) || b.contains(m),
    ensures
        causally_complete(all),
{
    assert forall|i: int| 0 <= i < all.len() implies distinct((#[trigger] all[i]).clock) && number(
        all[i],
    ) > 0 by {
        assert(all.contains(all[i]));
        if a.contains(all[i]) {
            let k = choose|k: int| 0 <= k < a.len() && a[k] == all[i];
            assert(distinct(a[k].clock));
        } else {
            let k = choose|k: int| 0 <= k < b.len() && b[k] == all[i];
            assert(distinct(b[k].clock));
        }
    }
    assert forall|i: int, id: NodeId|
        #![trigger seq_of(all[i].clock, id)]
        0 <= i < all.len() && past(all[i], id) > 0 implies exists|j: int|
        0 <= j < all.len() && is_number(#[trigger] all[j], id, past(all[i], id)) && precedes(
            all[j].clock,
            all[i].clock,
        ) by {
        assert(all.contains(all[i]));
        let part = if a.contains(all[i]) {
            a
        } else {
            b
        };
        let k = choose|k: int| 0 <= k < part.len() && part[k] == all[i];
        assert(seq_of(part[k].clock, id) == seq_of(all[i].clock, id));
        let l = choose|l: int|
            0 <= l < part.len() && is_number(#[trigger] part[l], id, past(part[k], id))
                && precedes(part[l].clock, part[k].clock);
        assert(part.contains(part[l]));
        assert(all.contains(part[l]));
        let j = choose|j: int| 0 <= j < all.len() && all[j] == part[l];
        assert(is_number(all[j], id, past(all[i], id)));
    }
}

/// Two nodes that have synced both ways have the same messages.
pub proof fn synced_nodes_have_same_messages<P>(
    before: Seq<Node<P>>,
    middle: Seq<Node<P>>,
    after: Seq<Node<P>>,
    i: int,
    j: int,
)
    requires
        sound(before),
        i != j,
        syncs(before, middle, i, j),
        syncs(middle, after, j, i),
    ensures
        after[i].received.to_set() == after[j].received.to_set(),
{
    receiving_takes(before, middle, i, j, 0);
    receiver_has_messages(before, middle, i, before[j].received);
    receiving_keeps_sound(before, middle, i, before[j].received);
    receiving_takes(middle, after, j, i, 0);
    receiver_has_messages(middle, after, j, middle[i].received);
    assert forall|m: Signed<P>| after[i].received.to_set().contains(m)
        <==> after[j].received.to_set().contains(m) by {
        assert(middle[i].received.contains(m) <==> before[i].received.contains(m)
            || before[j].received.contains(m));
        assert(after[j].received.contains(m) <==> middle[j].received.contains(m)
            || middle[i].received.contains(m));
    }
    assert(after[i].received.to_set() =~= after[j].received.to_set());
}

/// Receiving messages loses none.
proof fn with_all_keeps<P>(received: Seq<Signed<P>>, messages: Seq<Signed<P>>, m: Signed<P>)
    requires
        received.contains(m),
    ensures
        with_all(received, messages).contains(m),
    decreases messages.len(),
{
    if messages.len() > 0 {
        with_all_keeps(received, messages.drop_last(), m);
        let some = with_all(received, messages.drop_last());
        let k = choose|k: int| 0 <= k < some.len() && some[k] == m;
        assert(with_all(received, messages)[k] == m);
    }
}

/// Whatever the nodes of a group do, no node loses a message.
pub proof fn steps_keep_messages<P>(
    before: Seq<Node<P>>,
    after: Seq<Node<P>>,
    i: int,
    m: Signed<P>,
)
    requires
        step(before, after),
        0 <= i < before.len(),
        before[i].received.contains(m),
    ensures
        after.len() == before.len(),
        after[i].received.contains(m),
{
    let k = choose|k: int| 0 <= k < before[i].received.len() && before[i].received[k] == m;
    if exists|a: int, sent: Signed<P>| sends(before, after, a, sent) {
        let (a, sent) = choose|a: int, sent: Signed<P>| sends(before, after, a, sent);
        assert(after[i].received[k] == m);
    } else if exists|a: int, b: int, c: int| receives(before, after, a, b, c) {
        let (a, b, c) = choose|a: int, b: int, c: int| receives(before, after, a, b, c);
        assert(after[i].received[k] == m);
    } else if exists|a: int, b: int| syncs(before, after, a, b) {
        let (a, b) = choose|a: int, b: int| syncs(before, after, a, b);
        if a == i {
            with_all_keeps(before[i].received, before[b].received, m);
        }
    } else if exists|a: int, b: int| is_welcomed(before, after, a, b) {
        let (a, b) = choose|a: int, b: int| is_welcomed(before, after, a, b);
        assert(a != i);
    } else {
        let (a, b) = choose|a: int, b: int| delivers(before, after, a, b);
        assert(after[i].received == before[i].received);
    }
}

/// A node has every message that it had at any time.
pub proof fn history_keeps_messages<P>(states: Seq<Seq<Node<P>>>, t: int, u: int, i: int, m: Signed<P>)
    requires
        history(states),
        0 <= t <= u < states.len(),
        0 <= i < states[t].len(),
        states[t][i].received.contains(m),
    ensures
        states[u].len() == states[t].len(),
        states[u][i].received.contains(m),
    decreases u - t,
{
    if t < u {
        history_keeps_messages(states, t, u - 1, i, m);
        assert(step(states[u - 1], states[u - 1 + 1]));
        steps_keep_messages(states[u - 1], states[u], i, m);
    }
}

/// The group has every message that a node ever sent, and its sender counts
/// it as delivered.
proof fn sent_message_is_kept<P>(states: Seq<Seq<Node<P>>>, t: int, i: int, m: Signed<P>)
    requires
        history(states),
        0 <= t < states.len() - 1,
        sends(states[t], states[t + 1], i, m),
    ensures
        0 <= i < states.last().len(),
        states.last()[i].received.contains(m),
        in_group(states.last(), m),
        at_most(m.clock, states.last()[i].clock),
{
    let n = states[t][i].received.len() as int;
    let last = states.last();
    assert(states[t + 1][i].received[n] == m);
    history_keeps_messages(states, t + 1, states.len() - 1, i, m);
    assert(last[i].received.contains(m));
    assert(in_group(last, m));
    history_is_sound(states, states.len() - 1);
    history_keeps_ids(states, t + 1, states.len() - 1, i);
    assert(last[i].id == m.public_key);
}

/// A node keeps its identifier.
pub proof fn history_keeps_ids<P>(states: Seq<Seq<Node<P>>>, t: int, u: int, i: int)
    requires
        history(states),
        0 <= t <= u < states.len(),
        0 <= i < states[t].len(),
    ensures
        states[u].len() == states[t].len(),
        states[u][i].id == states[t][i].id,
    decreases u - t,
{
    if t < u {
        history_keeps_ids(states, t, u - 1, i);
        assert(step(states[u - 1], states[u - 1 + 1]));
    }
}

/// Every message that a node of a group ever sent is delivered in the end by
/// each node that has the same messages as the sender, and none to deliver.
pub proof fn every_sent_message_is_delivered<P>(
    states: Seq<Seq<Node<P>>>,
    t: int,
    i: int,
    j: int,
    m: Signed<P>,
)
    requires
        history(states),
        0 <= t < states.len() - 1,
        sends(states[t], states[t + 1], i, m),
        0 <= j < states.last().len(),
        states.last()[i].received.to_set() == states.last()[j].received.to_set(),
        drained(states.last()[j].clock, states.last()[j].received),
    ensures
        covered(states.last()[j].clock, states.last()[j].received).contains(m),
{
    let last = states.last();
    sent_message_is_kept(states, t, i, m);
    history_is_sound(states, states.len() - 1);
    covered_is_part(last[i].clock, last[i].received);
    drained_has_delivered_same(last, j, i);
}

/// Every message that any node of a group ever sent is delivered in the end by
/// each node that has everything, and none to deliver.
pub proof fn everything_sent_is_delivered<P>(
    states: Seq<Seq<Node<P>>>,
    t: int,
    i: int,
    j: int,
    m: Signed<P>,
)
    requires
        history(states),
        0 <= t < states.len() - 1,
        sends(states[t], states[t + 1], i, m),
        0 <= j < states.last().len(),
        has_everything(states.last(), j),
        drained(states.last()[j].clock, states.last()[j].received),
    ensures
        covered(states.last()[j].clock, states.last()[j].received).contains(m),
{
    sent_message_is_kept(states, t, i, m);
    everything_received_converges(states, j, j);
}

} // verus!
