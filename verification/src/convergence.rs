//! What holds of nodes that exchange messages: nothing is delivered before
//! what it depends on, nothing is lost, and all nodes end up the same.

use crate::acb::{
    clock_after, covered, deliverable, drained, first_deliverable, known, number, stuck,
    with_message, Signed,
};
use crate::clock::{
    at_most, at_most_iff_pointwise, at_most_pointwise, at_most_transitive, counted,
    counted_is_after, distinct, first_entry, first_entry_exists, has_entry, highest,
    highest_is_bound, merged, precedes, seq_of, seq_of_counted, seq_of_first, seq_of_merged,
    Entries,
};
use crate::key::NodeId;
use crate::order::{in_order, ready_exists, same_final_order, senders_in_line};
use vstd::prelude::*;
use vstd::set_lib::{lemma_int_range, set_int_range};

verus! {

/// Receiving a message a second time changes nothing.
pub proof fn receive_is_idempotent<P>(received: Seq<Signed<P>>, m: Signed<P>)
    ensures
        with_message(with_message(received, m), m) == with_message(received, m),
{
    let once = with_message(received, m);
    if !known(received, m) {
        assert(once[received.len() as int] == m);
        assert(known(once, m));
    }
}

/// Whether no two messages have the same sender and number.
pub open spec fn numbers_unique<P>(received: Seq<Signed<P>>) -> bool {
    forall|i: int, j: int|
        0 <= i < j < received.len() ==> !((#[trigger] received[i]).public_key == (
        #[trigger] received[j]).public_key && number(received[i]) == number(received[j]))
}

/// Receiving keeps at most one message for each sender and number.
pub proof fn receive_keeps_numbers_unique<P>(received: Seq<Signed<P>>, m: Signed<P>)
    requires
        numbers_unique(received),
    ensures
        numbers_unique(with_message(received, m)),
{
}

/// A new message causally follows everything that its sender has delivered.
pub proof fn new_message_follows_delivered<P>(clock: Entries, id: NodeId, earlier: Signed<P>)
    requires
        distinct(clock),
        at_most(earlier.clock, clock),
        seq_of(clock, id) < u64::MAX,
    ensures
        precedes(earlier.clock, counted(clock, id)),
{
    let new = counted(clock, id);
    counted_is_after(clock, id);
    seq_of_counted(clock, id);
    at_most_transitive(earlier.clock, clock, new);
    at_most_pointwise(earlier.clock, clock);
    assert(seq_of(earlier.clock, id) < seq_of(new, id));
    let k = choose|k: int| first_entry(new, id, k);
    assert(has_entry(new, id));
    seq_of_first(new, id, k);
    assert(seq_of(earlier.clock, new[k].0) < new[k].1);
}

/// Whatever is covered stays covered when a message is sent.
pub proof fn covered_after_sending<P>(clock: Entries, id: NodeId, m: Signed<P>)
    requires
        distinct(clock),
        at_most(m.clock, clock),
        seq_of(clock, id) < u64::MAX,
    ensures
        at_most(m.clock, counted(clock, id)),
{
    counted_is_after(clock, id);
    at_most_transitive(m.clock, clock, counted(clock, id));
}

/// Whatever is covered stays covered when a message is delivered, and the
/// message is covered too.
pub proof fn covered_after_delivery<P>(clock: Entries, delivered: Signed<P>, m: Signed<P>)
    requires
        distinct(clock),
        at_most(m.clock, clock),
    ensures
        at_most(m.clock, merged(clock, delivered.clock)),
        at_most(delivered.clock, merged(clock, delivered.clock)),
{
    let after = merged(clock, delivered.clock);
    seq_of_merged(clock, delivered.clock);
    at_most_iff_pointwise(clock, after);
    at_most_transitive(m.clock, clock, after);
    merged_covers(clock, delivered.clock);
}

/// A merged clock covers what was merged into it.
proof fn merged_covers(clock: Entries, other: Entries)
    requires
        distinct(clock),
    ensures
        at_most(other, merged(clock, other)),
{
    let after = merged(clock, other);
    seq_of_merged(clock, other);
    assert forall|j: int| 0 <= j < other.len() implies !(seq_of(after, (#[trigger] other[j]).0)
        < other[j].1) by {
        highest_is_bound(other, other[j].0);
    }
    assert forall|i: int| 0 <= i < after.len() implies !((#[trigger] after[i]).1 < seq_of(
        other,
        after[i].0,
    )) by {
        let id = after[i].0;
        assert(first_entry(after, id, i));
        seq_of_first(after, id, i);
        highest_is_bound(other, id);
        if has_entry(other, id) {
            let k = choose|k: int| first_entry(other, id, k);
            seq_of_first(other, id, k);
            assert(other[k].1 <= highest(other, id));
        }
    }
}

/// Nothing is delivered before what it depends on: where a message can be
/// delivered, every message that precedes it, and that its sender saw before
/// sending it, has been delivered.
pub proof fn delivery_is_causal<P>(clock: Entries, m: Signed<P>, earlier: Signed<P>)
    requires
        distinct(clock),
        deliverable(clock, m),
        precedes(earlier.clock, m.clock),
        seq_of(earlier.clock, m.public_key) < number(m),
        distinct(earlier.clock),
    ensures
        at_most(earlier.clock, clock),
{
    at_most_pointwise(earlier.clock, m.clock);
    assert forall|id: NodeId| #[trigger] seq_of(earlier.clock, id) <= seq_of(clock, id) by {
        if has_entry(m.clock, id) {
            let k = choose|k: int| first_entry(m.clock, id, k);
            seq_of_first(m.clock, id, k);
            assert(m.clock[k].0 == id);
        }
    }
    at_most_iff_pointwise(earlier.clock, clock);
}

/// Whether every number in the clock comes from a message that it covers.
pub open spec fn clock_from_messages<P>(clock: Entries, received: Seq<Signed<P>>) -> bool {
    forall|id: NodeId| #[trigger]
        seq_of(clock, id) > 0 ==> exists|i: int|
            0 <= i < received.len() && at_most((#[trigger] received[i]).clock, clock) && highest(
                received[i].clock,
                id,
            ) == seq_of(clock, id)
}

/// A new broadcast has only numbers that come from messages.
pub proof fn clock_from_messages_at_start<P>()
    ensures
        clock_from_messages(Entries::empty(), Seq::<Signed<P>>::empty()),
        distinct(Entries::empty()),
{
}

/// Sending a message keeps it so that all numbers come from messages.
pub proof fn clock_from_messages_after_sending<P>(
    clock: Entries,
    received: Seq<Signed<P>>,
    m: Signed<P>,
)
    requires
        distinct(clock),
        seq_of(clock, m.public_key) < u64::MAX,
        m.clock == counted(clock, m.public_key),
    ensures
        clock_from_messages(m.clock, received.push(m)),
        distinct(m.clock),
{
    seq_of_counted(clock, m.public_key);
    at_most_iff_pointwise(m.clock, m.clock);
    assert forall|id: NodeId| #[trigger] seq_of(m.clock, id) > 0 implies exists|i: int|
        0 <= i < received.push(m).len() && at_most((#[trigger] received.push(m)[i]).clock, m.clock)
            && highest(received.push(m)[i].clock, id) == seq_of(m.clock, id) by {
        crate::clock::highest_is_seq(m.clock, id);
        assert(received.push(m)[received.len() as int] == m);
    }
}

/// Receiving a message keeps it so that all numbers come from messages.
pub proof fn clock_from_messages_after_receiving<P>(
    clock: Entries,
    received: Seq<Signed<P>>,
    m: Signed<P>,
)
    requires
        clock_from_messages(clock, received),
    ensures
        clock_from_messages(clock, with_message(received, m)),
{
    let after = with_message(received, m);
    assert forall|id: NodeId| #[trigger] seq_of(clock, id) > 0 implies exists|i: int|
        0 <= i < after.len() && at_most((#[trigger] after[i]).clock, clock) && highest(
            after[i].clock,
            id,
        ) == seq_of(clock, id) by {
        let i = choose|i: int|
            0 <= i < received.len() && at_most((#[trigger] received[i]).clock, clock) && highest(
                received[i].clock,
                id,
            ) == seq_of(clock, id);
        assert(after[i] == received[i]);
    }
}

/// Delivering a message keeps it so that all numbers come from messages.
pub proof fn clock_from_messages_after_delivery<P>(
    clock: Entries,
    received: Seq<Signed<P>>,
    delivered: int,
)
    requires
        distinct(clock),
        clock_from_messages(clock, received),
        0 <= delivered < received.len(),
    ensures
        clock_from_messages(merged(clock, received[delivered].clock), received),
        distinct(merged(clock, received[delivered].clock)),
{
    let after = merged(clock, received[delivered].clock);
    seq_of_merged(clock, received[delivered].clock);
    merged_covers(clock, received[delivered].clock);
    assert forall|id: NodeId| #[trigger] seq_of(after, id) > 0 implies exists|i: int|
        0 <= i < received.len() && at_most((#[trigger] received[i]).clock, after) && highest(
            received[i].clock,
            id,
        ) == seq_of(after, id) by {
        if seq_of(after, id) == highest(received[delivered].clock, id) {
            assert(at_most(received[delivered].clock, after));
        } else {
            assert(seq_of(after, id) == seq_of(clock, id));
            let i = choose|i: int|
                0 <= i < received.len() && at_most((#[trigger] received[i]).clock, clock)
                    && highest(received[i].clock, id) == seq_of(clock, id);
            at_most_iff_pointwise(clock, after);
            at_most_transitive(received[i].clock, clock, after);
        }
    }
}

/// Whether `m` is the message that `id` sent as number `n`.
pub open spec fn is_number<P>(m: Signed<P>, id: NodeId, n: u64) -> bool {
    m.public_key == id && number(m) == n
}

/// Whether every message comes with its causal past: its clock has one entry
/// per node and counts the message itself, and for each entry the message that
/// it counts last (for its own sender, the one before it) is there and
/// precedes it.
pub open spec fn causally_complete<P>(received: Seq<Signed<P>>) -> bool {
    &&& forall|i: int|
        0 <= i < received.len() ==> distinct((#[trigger] received[i]).clock) && number(
            received[i],
        ) > 0
    &&& forall|i: int, id: NodeId|
        #![trigger seq_of(received[i].clock, id)]
        0 <= i < received.len() && past(received[i], id) > 0 ==> exists|j: int|
            0 <= j < received.len() && is_number(
                #[trigger] received[j],
                id,
                past(received[i], id),
            ) && precedes(received[j].clock, received[i].clock)
}

/// The last number of `id` that precedes a message.
pub open spec fn past<P>(m: Signed<P>, id: NodeId) -> u64 {
    if id == m.public_key {
        (seq_of(m.clock, id) - 1) as u64
    } else {
        seq_of(m.clock, id)
    }
}

/// Whether a clock covers all messages.
pub open spec fn covers_all<P>(clock: Entries, received: Seq<Signed<P>>) -> bool {
    forall|i: int| 0 <= i < received.len() ==> at_most((#[trigger] received[i]).clock, clock)
}

/// Nothing is lost: where no message can be delivered, and every message came
/// with its causal past, all messages have been delivered.
pub proof fn drained_means_all_delivered<P>(clock: Entries, received: Seq<Signed<P>>)
    requires
        distinct(clock),
        drained(clock, received),
        causally_complete(received),
    ensures
        covers_all(clock, received),
{
    lemma_int_range(0, received.len() as int);
    let all = set_int_range(0, received.len() as int);
    let missing = all.filter(|i: int| !at_most(received[i].clock, clock));
    if missing.len() > 0 {
        let i = ready_exists(received, missing);
        assert(missing.contains(i));
        let m = received[i];
        assert(distinct(m.clock) && number(m) > 0);
        assert forall|id: NodeId| past(m, id) <= #[trigger] seq_of(clock, id) by {
            if past(m, id) > 0 {
                assert(seq_of(received[i].clock, id) == seq_of(m.clock, id));
                let j = choose|j: int|
                    0 <= j < received.len() && is_number(
                        #[trigger] received[j],
                        id,
                        past(received[i], id),
                    ) && precedes(received[j].clock, received[i].clock);
                assert(all.contains(j));
                assert(!missing.contains(j));
                at_most_pointwise(received[j].clock, clock);
                assert(seq_of(received[j].clock, id) <= seq_of(clock, id));
            }
        }
        if seq_of(clock, m.public_key) >= number(m) {
            assert forall|id: NodeId| #[trigger] seq_of(m.clock, id) <= seq_of(clock, id) by {
                assert(past(m, id) <= seq_of(clock, id));
            }
            at_most_iff_pointwise(m.clock, clock);
        } else {
            assert(past(m, m.public_key) <= seq_of(clock, m.public_key));
            assert forall|k: int| 0 <= k < m.clock.len() implies if (#[trigger] m.clock[k]).0
                == m.public_key {
                seq_of(clock, m.clock[k].0) + 1 == m.clock[k].1
            } else {
                m.clock[k].1 <= seq_of(clock, m.clock[k].0)
            } by {
                let id = m.clock[k].0;
                assert(first_entry(m.clock, id, k));
                seq_of_first(m.clock, id, k);
                assert(past(m, id) <= seq_of(clock, id));
            }
            assert(deliverable(clock, received[i]));
        }
    } else {
        missing.lemma_len0_is_empty();
        assert forall|i: int| 0 <= i < received.len() implies at_most(
            (#[trigger] received[i]).clock,
            clock,
        ) by {
            assert(all.contains(i));
            assert(!missing.contains(i));
        }
    }
}

/// Two nodes that have delivered the same messages have the same clock.
pub proof fn same_messages_same_clock<P>(
    a: Entries,
    b: Entries,
    received_a: Seq<Signed<P>>,
    received_b: Seq<Signed<P>>,
)
    requires
        received_a.to_set() == received_b.to_set(),
        clock_from_messages(a, received_a),
        clock_from_messages(b, received_b),
        covers_all(a, received_a),
        covers_all(b, received_b),
    ensures
        forall|id: NodeId| #[trigger] seq_of(a, id) == seq_of(b, id),
        distinct(a) && distinct(b) ==> at_most(a, b) && at_most(b, a),
{
    assert forall|id: NodeId| #[trigger] seq_of(a, id) == seq_of(b, id) by {
        clock_reached(a, b, received_a, received_b, id);
        clock_reached(b, a, received_b, received_a, id);
    }
    if distinct(a) && distinct(b) {
        at_most_iff_pointwise(a, b);
        at_most_iff_pointwise(b, a);
    }
}

proof fn clock_reached<P>(
    a: Entries,
    b: Entries,
    received_a: Seq<Signed<P>>,
    received_b: Seq<Signed<P>>,
    id: NodeId,
)
    requires
        received_a.to_set() == received_b.to_set(),
        clock_from_messages(a, received_a),
        covers_all(b, received_b),
    ensures
        seq_of(a, id) <= seq_of(b, id),
{
    if seq_of(a, id) > 0 {
        let i = choose|i: int|
            0 <= i < received_a.len() && at_most((#[trigger] received_a[i]).clock, a) && highest(
                received_a[i].clock,
                id,
            ) == seq_of(a, id);
        let m = received_a[i];
        assert(received_a.to_set().contains(m));
        assert(received_b.contains(m));
        let j = choose|j: int| 0 <= j < received_b.len() && received_b[j] == m;
        assert(at_most(received_b[j].clock, b));
        highest_is_bound(m.clock, id);
        let k = choose|k: int|
            0 <= k < m.clock.len() && (#[trigger] m.clock[k]) == (id, highest(m.clock, id));
        assert(!(seq_of(b, m.clock[k].0) < m.clock[k].1));
    }
}

/// Convergence: two nodes that have received the same messages, each with its
/// causal past, and have delivered all that can be delivered, have delivered
/// all of them, have the same clock, and put the messages in the same order.
pub proof fn nodes_converge<P>(
    a: Entries,
    b: Entries,
    received_a: Seq<Signed<P>>,
    received_b: Seq<Signed<P>>,
)
    requires
        received_a.to_set() == received_b.to_set(),
        distinct(a),
        distinct(b),
        drained(a, received_a),
        drained(b, received_b),
        causally_complete(received_a),
        causally_complete(received_b),
        clock_from_messages(a, received_a),
        clock_from_messages(b, received_b),
        senders_in_line(received_a),
        senders_in_line(received_b),
    ensures
        covered(a, received_a) == received_a,
        covered(b, received_b) == received_b,
        at_most(a, b) && at_most(b, a),
        in_order(covered(a, received_a)) == in_order(covered(b, received_b)),
{
    drained_means_all_delivered(a, received_a);
    drained_means_all_delivered(b, received_b);
    same_messages_same_clock(a, b, received_a, received_b);
    all_covered(a, received_a);
    all_covered(b, received_b);
    same_final_order(received_a, received_b);
}

/// Where a clock covers all messages, all of them have been delivered.
pub proof fn all_covered<P>(clock: Entries, received: Seq<Signed<P>>)
    requires
        covers_all(clock, received),
    ensures
        covered(clock, received) == received,
    decreases received.len(),
{
    reveal(Seq::filter);
    if received.len() > 0 {
        let rest = received.drop_last();
        assert forall|i: int| 0 <= i < rest.len() implies at_most(
            (#[trigger] rest[i]).clock,
            clock,
        ) by {
            assert(rest[i] == received[i]);
        }
        all_covered(clock, rest);
        assert(received[received.len() - 1] == received.last());
        assert(covered(clock, received) =~= received);
    }
}

/// Delivery gives up only where it would never end: where the first message
/// that can be delivered does not count itself, there is always one that can
/// be delivered.
pub proof fn stuck_never_drains<P>(clock: Entries, received: Seq<Signed<P>>, n: nat)
    requires
        stuck(clock, received),
    ensures
        !drained(clock_after(clock, received, n), received),
    decreases n,
{
    stuck_stays(clock, received, n);
    let after = clock_after(clock, received, n);
    let i = choose|i: int|
        #[trigger] first_deliverable(clock, received, i) && !has_entry(
            received[i].clock,
            received[i].public_key,
        );
    same_numbers_same_deliverable(clock, after, received[i]);
    assert(deliverable(after, received[i]));
}

proof fn stuck_stays<P>(clock: Entries, received: Seq<Signed<P>>, n: nat)
    requires
        stuck(clock, received),
    ensures
        forall|id: NodeId| #[trigger]
            seq_of(clock_after(clock, received, n), id) == seq_of(clock, id),
    decreases n,
{
    if n > 0 {
        let before = clock_after(clock, received, (n - 1) as nat);
        stuck_stays(clock, received, (n - 1) as nat);
        let i = choose|i: int|
            #[trigger] first_deliverable(clock, received, i) && !has_entry(
                received[i].clock,
                received[i].public_key,
            );
        if exists|k: int| first_deliverable(before, received, k) {
            let k = choose|k: int| first_deliverable(before, received, k);
            same_numbers_same_deliverable(clock, before, received[i]);
            same_numbers_same_deliverable(clock, before, received[k]);
            assert(k == i) by {
                if k < i {
                    assert(!deliverable(clock, received[k]));
                } else if i < k {
                    assert(!deliverable(before, received[i]));
                }
            }
            let m = received[i];
            seq_of_merged(before, m.clock);
            assert forall|id: NodeId| #[trigger]
                seq_of(merged(before, m.clock), id) == seq_of(clock, id) by {
                highest_is_bound(m.clock, id);
                if highest(m.clock, id) > 0 {
                    let e = choose|e: int|
                        0 <= e < m.clock.len() && (#[trigger] m.clock[e]) == (
                            id,
                            highest(m.clock, id),
                        );
                    if id == m.public_key {
                        let first = crate::clock::first_entry_exists(m.clock, id, e);
                    }
                    assert(m.clock[e].1 <= seq_of(before, id));
                }
                assert(seq_of(before, id) == seq_of(clock, id));
            }
        }
    }
}

proof fn same_numbers_same_deliverable<P>(a: Entries, b: Entries, m: Signed<P>)
    requires
        forall|id: NodeId| #[trigger] seq_of(b, id) == seq_of(a, id),
    ensures
        deliverable(a, m) == deliverable(b, m),
{
    assert forall|i: int| 0 <= i < m.clock.len() implies seq_of(a, (#[trigger] m.clock[i]).0)
        == seq_of(b, m.clock[i].0) by {}
}

/// A message is delivered once: where the clock has reached its number, it
/// cannot be delivered, now or later. Messages that a node made itself are
/// such, and messages that it has delivered.
pub proof fn delivered_once<P>(clock: Entries, m: Signed<P>)
    requires
        has_entry(m.clock, m.public_key),
        number(m) <= seq_of(clock, m.public_key),
    ensures
        !deliverable(clock, m),
{
    let k = choose|k: int| first_entry(m.clock, m.public_key, k);
    seq_of_first(m.clock, m.public_key, k);
    assert(m.clock[k].0 == m.public_key);
}

/// A node does not deliver its own messages: the clock has reached them when
/// they are made.
pub proof fn own_message_is_reached<P>(clock: Entries, m: Signed<P>)
    requires
        distinct(clock),
        seq_of(clock, m.public_key) < u64::MAX,
        m.clock == counted(clock, m.public_key),
    ensures
        number(m) <= seq_of(m.clock, m.public_key),
        !deliverable(m.clock, m),
{
    seq_of_counted(clock, m.public_key);
    counted_names(clock, m.public_key);
    delivered_once(m.clock, m);
}

/// A node that was counted has an entry.
proof fn counted_names(clock: Entries, id: NodeId)
    requires
        distinct(clock),
    ensures
        has_entry(counted(clock, id), id),
{
    let after = counted(clock, id);
    if has_entry(clock, id) {
        let i = choose|i: int| first_entry(clock, id, i);
        assert(first_entry(after, id, i));
    } else {
        assert forall|j: int| 0 <= j < clock.len() implies after[j].0 != id by {
            if clock[j].0 == id {
                let first = first_entry_exists(clock, id, j);
            }
        }
        assert(first_entry(after, id, clock.len() as int));
    }
}

/// Delivering a message reaches its number.
pub proof fn delivery_reaches_message<P>(clock: Entries, m: Signed<P>)
    requires
        deliverable(clock, m),
        has_entry(m.clock, m.public_key),
    ensures
        number(m) <= seq_of(merged(clock, m.clock), m.public_key),
        !deliverable(merged(clock, m.clock), m),
{
    seq_of_merged(clock, m.clock);
    let k = choose|k: int| first_entry(m.clock, m.public_key, k);
    seq_of_first(m.clock, m.public_key, k);
    highest_is_bound(m.clock, m.public_key);
    delivered_once(merged(clock, m.clock), m);
}

/// A message can be delivered exactly where it is the next one of its sender,
/// and its sender had seen nothing of another node that has not been
/// delivered.
pub proof fn next_message_can_be_delivered<P>(clock: Entries, m: Signed<P>)
    requires
        distinct(m.clock),
        seq_of(m.clock, m.public_key) > 0,
    ensures
        deliverable(clock, m) <==> seq_of(m.clock, m.public_key) == seq_of(clock, m.public_key) + 1
            && forall|id: NodeId|
            id != m.public_key ==> #[trigger] seq_of(m.clock, id) <= seq_of(clock, id),
{
    let s = m.public_key;
    if deliverable(clock, m) {
        assert(has_entry(m.clock, s));
        let e = choose|e: int| first_entry(m.clock, s, e);
        seq_of_first(m.clock, s, e);
        assert(m.clock[e].0 == s);
        assert forall|id: NodeId| id != s implies #[trigger] seq_of(m.clock, id) <= seq_of(
            clock,
            id,
        ) by {
            if has_entry(m.clock, id) {
                let k = choose|k: int| first_entry(m.clock, id, k);
                seq_of_first(m.clock, id, k);
                assert(m.clock[k].0 == id);
            }
        }
    }
    if seq_of(m.clock, s) == seq_of(clock, s) + 1 && (forall|id: NodeId|
        id != s ==> #[trigger] seq_of(m.clock, id) <= seq_of(clock, id)) {
        assert forall|k: int| 0 <= k < m.clock.len() implies if (#[trigger] m.clock[k]).0 == s {
            seq_of(clock, m.clock[k].0) + 1 == m.clock[k].1
        } else {
            m.clock[k].1 <= seq_of(clock, m.clock[k].0)
        } by {
            let id = m.clock[k].0;
            assert(first_entry(m.clock, id, k));
            seq_of_first(m.clock, id, k);
        }
    }
}

/// Receiving a message keeps what was there, in its place, and brings the
/// message, unless one of the same sender with the same number is there.
pub proof fn receiving_adds_the_message<P>(received: Seq<Signed<P>>, m: Signed<P>)
    ensures
        received.len() <= with_message(received, m).len() <= received.len() + 1,
        with_message(received, m).take(received.len() as int) == received,
        with_message(received, m).len() > received.len() ==> with_message(received, m).last() == m,
        with_message(received, m).len() == received.len() <==> exists|i: int|
            0 <= i < received.len() && (#[trigger] received[i]).public_key == m.public_key
                && seq_of(received[i].clock, m.public_key) == seq_of(m.clock, m.public_key),
{
    assert(with_message(received, m).take(received.len() as int) =~= received);
}

/// What a clock covers of two lists is what it covers of each, and of one
/// message it is the message, where its clock is at most the clock.
pub proof fn covered_of_parts<P>(
    clock: Entries,
    a: Seq<Signed<P>>,
    b: Seq<Signed<P>>,
    m: Signed<P>,
)
    ensures
        covered(clock, a + b) == covered(clock, a) + covered(clock, b),
        covered(clock, seq![m]) == if at_most(m.clock, clock) {
            seq![m]
        } else {
            Seq::empty()
        },
    decreases b.len(),
{
    reveal(Seq::filter);
    assert(seq![m].drop_last() =~= Seq::<Signed<P>>::empty());
    assert(covered(clock, seq![m].drop_last()) =~= Seq::<Signed<P>>::empty());
    assert(covered(clock, seq![m]) =~= if at_most(m.clock, clock) {
        seq![m]
    } else {
        Seq::empty()
    });
    if b.len() == 0 {
        assert(a + b =~= a);
        assert(covered(clock, a) + covered(clock, b) =~= covered(clock, a));
    } else {
        covered_of_parts(clock, a, b.drop_last(), m);
        assert((a + b).drop_last() =~= a + b.drop_last());
        assert((a + b).last() == b.last());
        assert(covered(clock, a + b) =~= covered(clock, a) + covered(clock, b));
    }
}

/// Delivering never takes anything back, and never goes beyond a clock at which
/// nothing is left to deliver.
pub proof fn delivering_stays_between<P>(
    clock: Entries,
    received: Seq<Signed<P>>,
    n: nat,
    bound: Entries,
)
    ensures
        forall|id: NodeId| #[trigger]
            seq_of(clock, id) <= seq_of(clock_after(clock, received, n), id),
        (forall|id: NodeId| #[trigger] seq_of(clock, id) <= seq_of(bound, id)) && (forall|k: int|
            0 <= k < received.len() ==> !deliverable(bound, #[trigger] received[k])) ==> (forall|
            id: NodeId,
        |
            #[trigger] seq_of(clock_after(clock, received, n), id) <= seq_of(bound, id)),
    decreases n,
{
    if n > 0 {
        let before = clock_after(clock, received, (n - 1) as nat);
        let after = clock_after(clock, received, n);
        delivering_stays_between(clock, received, (n - 1) as nat, bound);
        assert forall|id: NodeId| #[trigger] seq_of(clock, id) <= seq_of(before, id) by {}
        if exists|i: int| first_deliverable(before, received, i) {
            let i = choose|i: int| first_deliverable(before, received, i);
            let m = received[i];
            seq_of_merged(before, m.clock);
            assert forall|id: NodeId| #[trigger] seq_of(clock, id) <= seq_of(after, id) by {
                assert(seq_of(before, id) <= seq_of(after, id));
            }
            if (forall|id: NodeId| #[trigger] seq_of(clock, id) <= seq_of(bound, id)) && (forall|
                k: int,
            |
                0 <= k < received.len() ==> !deliverable(bound, #[trigger] received[k])) {
                assert forall|id: NodeId| #[trigger] seq_of(before, id) <= seq_of(bound, id) by {}
                assert forall|id: NodeId| #[trigger] seq_of(after, id) <= seq_of(bound, id) by {
                    assert(seq_of(before, id) <= seq_of(bound, id));
                    one_delivery_stays_below(before, m, bound, id);
                }
            }
        }
    }
}

/// A message that can be delivered at a clock, but not at a later one, counts
/// nothing that the later one does not.
proof fn one_delivery_stays_below<P>(clock: Entries, m: Signed<P>, bound: Entries, id: NodeId)
    requires
        deliverable(clock, m),
        !deliverable(bound, m),
        forall|id: NodeId| #[trigger] seq_of(clock, id) <= seq_of(bound, id),
    ensures
        highest(m.clock, id) <= seq_of(bound, id),
{
    highest_is_bound(m.clock, id);
    if highest(m.clock, id) > seq_of(bound, id) {
        let e = choose|e: int|
            0 <= e < m.clock.len() && (#[trigger] m.clock[e]) == (id, highest(m.clock, id));
        assert(seq_of(clock, id) <= seq_of(bound, id));
        assert(id == m.public_key);
        assert(seq_of(clock, id) == seq_of(bound, id));
        assert forall|k: int| 0 <= k < m.clock.len() implies if (#[trigger] m.clock[k]).0
            == m.public_key {
            seq_of(bound, m.clock[k].0) + 1 == m.clock[k].1
        } else {
            m.clock[k].1 <= seq_of(bound, m.clock[k].0)
        } by {
            assert(seq_of(clock, m.clock[k].0) <= seq_of(bound, m.clock[k].0));
        }
        assert(deliverable(bound, m));
    }
}

} // verus!
