//! What one node delivers in the course of a history: the messages of each
//! sender in turn, none of them twice, and each after its causal past.

use crate::acb::{covered, deliverable, number, Signed};
use crate::clock::{
    at_most, at_most_iff_pointwise, at_most_pointwise, at_most_transitive, distinct, precedes,
    precedes_asymmetric, precedes_irreflexive, seq_of, seq_of_absent, seq_of_counted, Entries,
};
use crate::convergence::{delivery_is_causal, is_number, past};
use crate::key::NodeId;
use crate::system::{
    covered_is_part, delivers, delivery_counts_one, has_earlier, history, history_is_sound,
    history_keeps_ids, history_keeps_messages, in_group, node_sound, sends, sound, Node,
};
use vstd::prelude::*;
use vstd::seq_lib::seq_to_set_is_finite;
use vstd::set_lib::lemma_len_subset;

verus! {

/// Whether the node at `i` delivers a message in a step.
pub open spec fn has_delivery<P>(before: Seq<Node<P>>, after: Seq<Node<P>>, i: int) -> bool {
    exists|k: int| delivers(before, after, i, k)
}

/// The message that the node at `i` delivers in a step.
pub open spec fn delivery_of<P>(before: Seq<Node<P>>, after: Seq<Node<P>>, i: int) -> Signed<P> {
    before[i].received[choose|k: int| delivers(before, after, i, k)]
}

/// The messages that the node at `i` delivers between two times, in the order
/// in which it delivers them.
pub open spec fn deliveries<P>(states: Seq<Seq<Node<P>>>, i: int, from: int, to: int) -> Seq<
    Signed<P>,
>
    decreases to - from,
{
    if to <= from {
        Seq::empty()
    } else {
        let before = deliveries(states, i, from, to - 1);
        if has_delivery(states[to - 1], states[to], i) {
            before.push(delivery_of(states[to - 1], states[to], i))
        } else {
            before
        }
    }
}

/// Whether the clock of the node at `i` changes in a step only by what the
/// node itself sends or delivers.
pub open spec fn counts_alone<P>(before: Seq<Node<P>>, after: Seq<Node<P>>, i: int) -> bool {
    ||| after[i].clock == before[i].clock
    ||| exists|m: Signed<P>| sends(before, after, i, m)
    ||| has_delivery(before, after, i)
}

/// Whether that holds of the step after a time.
pub open spec fn step_counts_alone<P>(states: Seq<Seq<Node<P>>>, i: int, t: int) -> bool {
    counts_alone(states[t], states[t + 1], i)
}

/// Whether the node at `i` takes over no clock between two times.
pub open spec fn never_welcomed<P>(
    states: Seq<Seq<Node<P>>>,
    i: int,
    from: int,
    to: int,
) -> bool {
    forall|t: int| from <= t < to ==> #[trigger] step_counts_alone(states, i, t)
}

/// Picks the messages of a sender.
pub open spec fn sent_by<P>(id: NodeId) -> spec_fn(Signed<P>) -> bool {
    |m: Signed<P>| m.public_key == id
}

/// The messages of a sender, in order.
pub open spec fn from_sender<P>(messages: Seq<Signed<P>>, id: NodeId) -> Seq<Signed<P>> {
    messages.filter(sent_by(id))
}

/// Whether messages have the numbers after `last`, one after the other.
pub open spec fn in_turn<P>(messages: Seq<Signed<P>>, last: u64) -> bool {
    forall|x: int| 0 <= x < messages.len() ==> number(#[trigger] messages[x]) == last + x + 1
}

/// One more message is the last of its sender, and changes nothing for others.
proof fn from_sender_of_more<P>(messages: Seq<Signed<P>>, m: Signed<P>, id: NodeId)
    ensures
        from_sender(messages.push(m), id) == if m.public_key == id {
            from_sender(messages, id).push(m)
        } else {
            from_sender(messages, id)
        },
{
    reveal(Seq::filter);
    assert(messages.push(m).drop_last() =~= messages);
}

/// A step in which a node delivers: it counts the message, which is the next
/// one of its sender, from another node, and which nothing that the clock
/// covered before follows.
proof fn one_delivery<P>(before: Seq<Node<P>>, after: Seq<Node<P>>, i: int, k: int)
    requires
        sound(before),
        delivers(before, after, i, k),
    ensures
        ({
            let m = before[i].received[k];
            let clock = before[i].clock;
            &&& m.public_key != before[i].id
            &&& number(m) == seq_of(clock, m.public_key) + 1
            &&& !at_most(m.clock, clock)
            &&& at_most(clock, after[i].clock)
            &&& at_most(m.clock, after[i].clock)
            &&& forall|id: NodeId| #[trigger]
                seq_of(after[i].clock, id) == seq_of(clock, id) + if id == m.public_key {
                    1int
                } else {
                    0int
                }
            &&& after[i].received == before[i].received
            &&& before[i].received.contains(m)
        }),
{
    let m = before[i].received[k];
    let clock = before[i].clock;
    assert(node_sound(before[i]));
    assert(before[i].received.contains(m));
    assert(in_group(before, m));
    delivery_counts_one(clock, m);
    if at_most(m.clock, clock) {
        at_most_pointwise(m.clock, clock);
        assert(seq_of(m.clock, m.public_key) <= seq_of(clock, m.public_key));
    }
}

/// A step in which a node does not deliver, and takes over no clock: what it
/// counts of other nodes stays.
proof fn no_delivery<P>(before: Seq<Node<P>>, after: Seq<Node<P>>, i: int)
    requires
        sound(before),
        0 <= i < before.len(),
        counts_alone(before, after, i),
        !has_delivery(before, after, i),
    ensures
        at_most(before[i].clock, after[i].clock),
        forall|id: NodeId|
            id != before[i].id ==> #[trigger] seq_of(after[i].clock, id) == seq_of(
                before[i].clock,
                id,
            ),
{
    let clock = before[i].clock;
    assert(node_sound(before[i]));
    if after[i].clock == clock {
        at_most_iff_pointwise(clock, clock);
    } else {
        let m = choose|m: Signed<P>| sends(before, after, i, m);
        seq_of_counted(clock, before[i].id);
        assert(after[i].clock == m.clock);
        at_most_iff_pointwise(clock, m.clock);
    }
}

/// What a node delivers comes out in order. Over any time in which the node
/// takes over no clock, the messages of each other node come out with the
/// numbers that follow what was counted of it, one after the other, so none
/// comes out twice; those of the node itself do not come out. What precedes a
/// message never comes out after it. All of it has been received, and stays
/// covered by the clock.
pub proof fn deliveries_are_in_order<P>(states: Seq<Seq<Node<P>>>, i: int, from: int, to: int)
    requires
        history(states),
        0 <= from <= to < states.len(),
        0 <= i < states[from].len(),
        never_welcomed(states, i, from, to),
    ensures
        ({
            let out = deliveries(states, i, from, to);
            let start = states[from][i];
            let end = states[to][i];
            &&& states[to].len() == states[from].len() && end.id == start.id
            &&& forall|id: NodeId| #![trigger from_sender(out, id)]
                if id == start.id {
                    from_sender(out, id).len() == 0
                } else {
                    &&& in_turn(from_sender(out, id), seq_of(start.clock, id))
                    &&& seq_of(end.clock, id) == seq_of(start.clock, id) + from_sender(
                        out,
                        id,
                    ).len()
                }
            &&& forall|x: int, y: int|
                0 <= x < y < out.len() && (#[trigger] out[x]).public_key == (
                #[trigger] out[y]).public_key ==> number(out[x]) < number(out[y])
            &&& forall|x: int, y: int|
                0 <= x < y < out.len() ==> !precedes(
                    (#[trigger] out[y]).clock,
                    (#[trigger] out[x]).clock,
                )
            &&& forall|x: int|
                0 <= x < out.len() ==> end.received.contains(#[trigger] out[x]) && at_most(
                    out[x].clock,
                    end.clock,
                )
        }),
    decreases to - from,
{
    let out = deliveries(states, i, from, to);
    if to == from {
        reveal(Seq::filter);
        assert forall|id: NodeId| (#[trigger] from_sender(out, id)).len() == 0 by {}
    } else {
        let t = to - 1;
        deliveries_are_in_order(states, i, from, t);
        history_is_sound(states, t);
        history_keeps_ids(states, t, to, i);
        assert(step_counts_alone(states, i, t));
        let before = deliveries(states, i, from, t);
        let clock = states[t][i].clock;
        let after = states[to][i].clock;
        assert forall|x: int| 0 <= x < before.len() implies states[to][i].received.contains(
            #[trigger] before[x],
        ) by {
            history_keeps_messages(states, t, to, i, before[x]);
        }
        if has_delivery(states[t], states[to], i) {
            let k = choose|k: int| delivers(states[t], states[to], i, k);
            let m = states[t][i].received[k];
            one_delivery(states[t], states[to], i, k);
            assert(out == before.push(m));
            assert forall|id: NodeId| #![trigger from_sender(out, id)]
                if id == states[from][i].id {
                    from_sender(out, id).len() == 0
                } else {
                    &&& in_turn(from_sender(out, id), seq_of(states[from][i].clock, id))
                    &&& seq_of(after, id) == seq_of(states[from][i].clock, id) + from_sender(
                        out,
                        id,
                    ).len()
                } by {
                from_sender_of_more(before, m, id);
                assert(from_sender(before, id).len() >= 0);
            }
            assert forall|x: int| 0 <= x < before.len() implies at_most(
                (#[trigger] before[x]).clock,
                after,
            ) && !precedes(m.clock, before[x].clock) && (before[x].public_key == m.public_key
                ==> number(before[x]) < number(m)) by {
                at_most_transitive(before[x].clock, clock, after);
                at_most_pointwise(before[x].clock, clock);
                if precedes(m.clock, before[x].clock) {
                    at_most_transitive(m.clock, before[x].clock, clock);
                }
                assert(seq_of(before[x].clock, m.public_key) <= seq_of(clock, m.public_key));
            }
            assert forall|x: int| 0 <= x < out.len() implies states[to][i].received.contains(
                #[trigger] out[x],
            ) && at_most(out[x].clock, after) by {
                if x < before.len() {
                    assert(out[x] == before[x]);
                }
            }
            assert forall|x: int, y: int|
                0 <= x < y < out.len() && (#[trigger] out[x]).public_key == (
                #[trigger] out[y]).public_key implies number(out[x]) < number(out[y]) by {
                assert(out[x] == before[x]);
                if y < before.len() {
                    assert(out[y] == before[y]);
                }
            }
            assert forall|x: int, y: int| 0 <= x < y < out.len() implies !precedes(
                (#[trigger] out[y]).clock,
                (#[trigger] out[x]).clock,
            ) by {
                assert(out[x] == before[x]);
                if y < before.len() {
                    assert(out[y] == before[y]);
                }
            }
        } else {
            no_delivery(states[t], states[to], i);
            assert(out == before);
            assert forall|x: int| 0 <= x < out.len() implies at_most(
                (#[trigger] out[x]).clock,
                after,
            ) by {
                at_most_transitive(out[x].clock, clock, after);
            }
        }
    }
}

/// From the start on, the messages of each other node come out with the
/// numbers one, two, three and so on, up to what is counted of it.
pub proof fn deliveries_count_from_one<P>(states: Seq<Seq<Node<P>>>, i: int, to: int, id: NodeId)
    requires
        history(states),
        0 <= to < states.len(),
        0 <= i < states[0].len(),
        never_welcomed(states, i, 0, to),
        id != states[0][i].id,
    ensures
        ({
            let part = from_sender(deliveries(states, i, 0, to), id);
            &&& part.len() == seq_of(states[to][i].clock, id)
            &&& forall|x: int| 0 <= x < part.len() ==> number(#[trigger] part[x]) == x + 1
        }),
{
    deliveries_are_in_order(states, i, 0, to);
    assert(states[0][i].clock == Entries::empty());
    seq_of_absent(states[0][i].clock, id);
    let part = from_sender(deliveries(states, i, 0, to), id);
    assert(in_turn(part, 0));
}

/// A list without duplicates is no longer than one that has all of it.
proof fn part_is_no_longer<A>(part: Seq<A>, all: Seq<A>)
    requires
        part.no_duplicates(),
        forall|x: int| 0 <= x < part.len() ==> all.contains(#[trigger] part[x]),
    ensures
        part.len() <= all.len(),
{
    part.unique_seq_to_set();
    all.lemma_cardinality_of_set();
    seq_to_set_is_finite(all);
    assert forall|m: A| part.to_set().contains(m) implies all.to_set().contains(m) by {
        let x = choose|x: int| 0 <= x < part.len() && part[x] == m;
        assert(all.contains(part[x]));
    }
    lemma_len_subset(part.to_set(), all.to_set());
}

/// No message comes out twice, and no more messages come out than have been
/// received: delivering comes to an end.
pub proof fn deliveries_are_bounded<P>(states: Seq<Seq<Node<P>>>, i: int, from: int, to: int)
    requires
        history(states),
        0 <= from <= to < states.len(),
        0 <= i < states[from].len(),
        never_welcomed(states, i, from, to),
    ensures
        deliveries(states, i, from, to).no_duplicates(),
        deliveries(states, i, from, to).len() <= states[to][i].received.len(),
{
    let out = deliveries(states, i, from, to);
    let received = states[to][i].received;
    deliveries_are_in_order(states, i, from, to);
    assert forall|x: int, y: int|
        0 <= x < out.len() && 0 <= y < out.len() && x != y implies out[x] != out[y] by {
        if out[x] == out[y] {
            if x < y {
                assert(number(out[x]) < number(out[y]));
            } else {
                assert(number(out[y]) < number(out[x]));
            }
        }
    }
    part_is_no_longer(out, received);
}

/// From the start on, what a clock covers of other nodes is what came out.
pub proof fn delivered_is_what_came_out<P>(
    states: Seq<Seq<Node<P>>>,
    i: int,
    to: int,
    m: Signed<P>,
)
    requires
        history(states),
        0 <= to < states.len(),
        0 <= i < states[0].len(),
        never_welcomed(states, i, 0, to),
        m.public_key != states[0][i].id,
    ensures
        covered(states[to][i].clock, states[to][i].received).contains(m) <==> deliveries(
            states,
            i,
            0,
            to,
        ).contains(m),
{
    let nodes = states[to];
    let out = deliveries(states, i, 0, to);
    let end = nodes[i];
    deliveries_are_in_order(states, i, 0, to);
    history_is_sound(states, to);
    covered_is_part(end.clock, end.received);
    if out.contains(m) {
        let x = choose|x: int| 0 <= x < out.len() && out[x] == m;
        assert(end.received.contains(out[x]));
    }
    if covered(end.clock, end.received).contains(m) {
        let id = m.public_key;
        let part = from_sender(out, id);
        deliveries_count_from_one(states, i, to, id);
        assert(nodes[i].received.contains(m));
        assert(in_group(nodes, m));
        at_most_pointwise(m.clock, end.clock);
        assert(seq_of(m.clock, id) <= seq_of(end.clock, id));
        let x = number(m) - 1;
        let found = part[x];
        out.lemma_filter_pred(sent_by(id), x);
        assert(part.contains(found));
        out.lemma_filter_contains_rev(sent_by(id), found);
        assert(out.contains(found));
        let y = choose|y: int| 0 <= y < out.len() && out[y] == found;
        assert(nodes[i].received.contains(out[y]));
        assert(in_group(nodes, found));
        assert(is_number(found, m.public_key, number(m)));
        assert(found == m);
    }
}

/// What precedes a message of a sound group has seen less of its sender.
proof fn earlier_has_seen_less<P>(nodes: Seq<Node<P>>, earlier: Signed<P>, m: Signed<P>)
    requires
        sound(nodes),
        in_group(nodes, earlier),
        in_group(nodes, m),
        precedes(earlier.clock, m.clock),
    ensures
        seq_of(earlier.clock, m.public_key) < number(m),
{
    let id = m.public_key;
    at_most_pointwise(earlier.clock, m.clock);
    assert(seq_of(earlier.clock, id) <= seq_of(m.clock, id));
    if seq_of(earlier.clock, id) == number(m) {
        if earlier.public_key == id {
            assert(is_number(earlier, id, number(m)));
            assert(earlier == m);
            precedes_irreflexive(m.clock);
        } else {
            assert(past(earlier, id) == number(m));
            assert(has_earlier(nodes, earlier, id, past(earlier, id)));
            let w = choose|w: Signed<P>| #[trigger]
                in_group(nodes, w) && is_number(w, id, number(m)) && precedes(
                    w.clock,
                    earlier.clock,
                );
            assert(is_number(w, m.public_key, number(m)));
            assert(w == m);
            precedes_asymmetric(m.clock, earlier.clock);
        }
    }
}

/// A message is delivered after its causal past: when a node delivers it,
/// every message of the group that precedes it, whenever it was made, has been
/// delivered there before.
pub proof fn delivered_after_its_past<P>(
    states: Seq<Seq<Node<P>>>,
    t: int,
    i: int,
    k: int,
    earlier: Signed<P>,
)
    requires
        history(states),
        0 <= t < states.len() - 1,
        delivers(states[t], states[t + 1], i, k),
        in_group(states.last(), earlier),
        precedes(earlier.clock, states[t][i].received[k].clock),
    ensures
        at_most(earlier.clock, states[t][i].clock),
        at_most(earlier.clock, states[t + 1][i].clock),
{
    let m = states[t][i].received[k];
    let last = states.last();
    history_is_sound(states, t);
    history_is_sound(states, states.len() - 1);
    one_delivery(states[t], states[t + 1], i, k);
    assert(node_sound(states[t][i]));
    history_keeps_messages(states, t, states.len() - 1, i, m);
    assert(last[i].received.contains(m));
    assert(in_group(last, m));
    earlier_has_seen_less(last, earlier, m);
    assert(distinct(earlier.clock));
    assert(deliverable(states[t][i].clock, m));
    delivery_is_causal(states[t][i].clock, m, earlier);
    at_most_transitive(earlier.clock, states[t][i].clock, states[t + 1][i].clock);
}

} // verus!
