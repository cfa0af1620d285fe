//! The total order of delivered messages.
//!
//! Messages are put in causal order. Of the messages that wait for no other,
//! the one with the smallest sender comes first.

use crate::acb::{views, Signed, SignedMessage};
use crate::clock::{precedes, precedes_asymmetric, precedes_irreflexive, precedes_transitive};
use crate::key::PublicKey;
use vstd::prelude::*;
use vstd::set_lib::{lemma_int_range, lemma_len_subset, set_int_range};

verus! {

/// Whether the message at `i` is left and waits for no message that is left.
pub open spec fn ready<P>(ms: Seq<Signed<P>>, left: Set<int>, i: int) -> bool {
    &&& left.contains(i)
    &&& forall|j: int| #[trigger] left.contains(j) ==> !precedes(ms[j].clock, ms[i].clock)
}

/// Whether the message at `i` is taken before the one at `j` where both are
/// ready: its sender is smaller, or it is the same and `i` is.
pub open spec fn sooner<P>(ms: Seq<Signed<P>>, i: int, j: int) -> bool {
    ||| ms[i].public_key.before(ms[j].public_key)
    ||| ms[i].public_key == ms[j].public_key && i < j
}

/// Whether the message at `i` is the one to take next.
pub open spec fn is_next<P>(ms: Seq<Signed<P>>, left: Set<int>, i: int) -> bool {
    &&& ready(ms, left, i)
    &&& forall|j: int| #[trigger] ready(ms, left, j) && j != i ==> sooner(ms, i, j)
}

/// The order in which the messages that are left are taken.
pub open spec fn order_from<P>(ms: Seq<Signed<P>>, left: Set<int>) -> Seq<int>
    decreases left.len(),
{
    if left.finite() && exists|i: int| is_next(ms, left, i) {
        let i = choose|i: int| is_next(ms, left, i);
        seq![i] + order_from(ms, left.remove(i))
    } else {
        Seq::empty()
    }
}

/// The positions of all messages.
pub open spec fn positions<P>(ms: Seq<Signed<P>>) -> Set<int> {
    set_int_range(0, ms.len() as int)
}

/// The total order of messages, as positions.
pub open spec fn causal_order<P>(ms: Seq<Signed<P>>) -> Seq<int> {
    order_from(ms, positions(ms))
}

/// The messages in their total order.
pub open spec fn in_order<P>(ms: Seq<Signed<P>>) -> Seq<Signed<P>> {
    causal_order(ms).map_values(|i: int| ms[i])
}

/// The messages of `left` that the message at `j` waits for.
spec fn blockers<P>(ms: Seq<Signed<P>>, left: Set<int>, j: int) -> Set<int> {
    left.filter(|i: int| precedes(ms[i].clock, ms[j].clock))
}

proof fn blockers_remove<P>(ms: Seq<Signed<P>>, left: Set<int>, i: int, j: int)
    requires
        left.finite(),
        left.contains(i),
    ensures
        precedes(ms[i].clock, ms[j].clock) ==> blockers(ms, left.remove(i), j).len() + 1
            == blockers(ms, left, j).len(),
        !precedes(ms[i].clock, ms[j].clock) ==> blockers(ms, left.remove(i), j) == blockers(
            ms,
            left,
            j,
        ),
{
    assert(blockers(ms, left.remove(i), j) =~= blockers(ms, left, j).remove(i));
    if !precedes(ms[i].clock, ms[j].clock) {
        assert(blockers(ms, left, j).remove(i) =~= blockers(ms, left, j));
    }
}

proof fn blockers_insert<P>(ms: Seq<Signed<P>>, left: Set<int>, i: int, j: int)
    requires
        left.finite(),
        !left.contains(i),
    ensures
        precedes(ms[i].clock, ms[j].clock) ==> blockers(ms, left.insert(i), j).len()
            == blockers(ms, left, j).len() + 1,
        !precedes(ms[i].clock, ms[j].clock) ==> blockers(ms, left.insert(i), j) == blockers(
            ms,
            left,
            j,
        ),
{
    if precedes(ms[i].clock, ms[j].clock) {
        assert(blockers(ms, left.insert(i), j) =~= blockers(ms, left, j).insert(i));
    } else {
        assert(blockers(ms, left.insert(i), j) =~= blockers(ms, left, j));
    }
}

proof fn ready_iff_no_blockers<P>(ms: Seq<Signed<P>>, left: Set<int>, j: int)
    requires
        left.finite(),
    ensures
        ready(ms, left, j) <==> left.contains(j) && blockers(ms, left, j).len() == 0,
{
    let b = blockers(ms, left, j);
    if b.len() == 0 {
        b.lemma_len0_is_empty();
        assert forall|i: int| #[trigger] left.contains(i) implies !precedes(
            ms[i].clock,
            ms[j].clock,
        ) by {
            assert(!b.contains(i));
        }
    } else if ready(ms, left, j) {
        assert(b =~= Set::empty());
    }
}

/// At most one message is to be taken next.
pub proof fn next_is_unique<P>(ms: Seq<Signed<P>>, left: Set<int>, i: int, j: int)
    requires
        is_next(ms, left, i),
        is_next(ms, left, j),
    ensures
        i == j,
{
    if i != j {
        assert(ready(ms, left, i) && ready(ms, left, j));
        assert(sooner(ms, i, j) && sooner(ms, j, i));
        if ms[i].public_key.before(ms[j].public_key) {
            if ms[j].public_key.before(ms[i].public_key) {
                PublicKey::before_transitive(
                    ms[i].public_key,
                    ms[j].public_key,
                    ms[i].public_key,
                );
            }
            PublicKey::before_irreflexive(ms[i].public_key);
        } else {
            PublicKey::before_irreflexive(ms[i].public_key);
        }
    }
}

/// For each message the later messages, and how many earlier ones each has.
fn build_graph<P>(messages: &Vec<&SignedMessage<P>>) -> (graph: (Vec<Vec<usize>>, Vec<usize>))
    ensures
        ({
            let ms = views(messages@);
            let n = ms.len();
            let (edges, incoming) = graph;
            &&& edges@.len() == n
            &&& incoming@.len() == n
            &&& forall|i: int| 0 <= i < n ==> edges_from(ms, i, n as int, #[trigger] edges@[i]@)
            &&& forall|j: int|
                0 <= j < n ==> #[trigger] incoming@[j] == blockers(ms, positions(ms), j).len()
        }),
{
    let n = messages.len();
    let ghost ms = views(messages@);
    let mut edges: Vec<Vec<usize>> = Vec::new();
    let mut incoming: Vec<usize> = Vec::new();
    let mut i: usize = 0;
    while i < n
        invariant
            i <= n,
            incoming@.len() == i,
            forall|j: int| 0 <= j < i ==> #[trigger] incoming@[j] == 0,
        decreases n - i,
    {
        incoming.push(0);
        i = i + 1;
    }
    proof {
        assert forall|j: int| 0 <= j < n implies #[trigger] incoming@[j] == blockers(
            ms,
            set_int_range(0, 0),
            j,
        ).len() by {
            assert(blockers(ms, set_int_range(0, 0), j) =~= Set::empty());
        }
    }
    let mut i: usize = 0;
    while i < n
        invariant
            i <= n,
            n == messages@.len(),
            ms == views(messages@),
            edges@.len() == i,
            incoming@.len() == n,
            forall|k: int| 0 <= k < i ==> edges_from(ms, k, n as int, #[trigger] edges@[k]@),
            forall|j: int|
                0 <= j < n ==> #[trigger] incoming@[j] == blockers(
                    ms,
                    set_int_range(0, i as int),
                    j,
                ).len(),
        decreases n - i,
    {
        let mut targets: Vec<usize> = Vec::new();
        let ghost before = set_int_range(0, i as int);
        let ghost after = set_int_range(0, i + 1);
        proof {
            lemma_int_range(0, i as int);
            lemma_int_range(0, i + 1);
            assert(after =~= before.insert(i as int));
        }
        let mut j: usize = 0;
        while j < n
            invariant
                j <= n,
                i < n,
                n == messages@.len(),
                ms == views(messages@),
                incoming@.len() == n,
                before == set_int_range(0, i as int),
                after == before.insert(i as int),
                before.finite(),
                before.len() == i,
                edges_from(ms, i as int, j as int, targets@),
                forall|k: int|
                    0 <= k < j ==> #[trigger] incoming@[k] == blockers(ms, after, k).len(),
                forall|k: int|
                    j <= k < n ==> #[trigger] incoming@[k] == blockers(ms, before, k).len(),
            decreases n - j,
        {
            proof {
                blockers_insert(ms, before, i as int, j as int);
                lemma_len_subset(blockers(ms, before, j as int), before);
                precedes_irreflexive(ms[i as int].clock);
            }
            let ghost found = targets@;
            if i != j && messages[i].inner.clock.happens_before(&messages[j].inner.clock) {
                targets.push(j);
                let count: usize = incoming[j];
                incoming.set(j, count + 1);
            }
            proof {
                assert forall|t: usize|
                    t < j + 1 && precedes(ms[i as int].clock, (#[trigger] ms[t as int]).clock)
                    implies targets@.contains(t) by {
                    if t < j {
                        let k = choose|k: int| 0 <= k < found.len() && found[k] == t;
                        assert(targets@[k] == t);
                    } else {
                        assert(targets@[found.len() as int] == t);
                    }
                }
            }
            j = j + 1;
        }
        edges.push(targets);
        i = i + 1;
    }
    (edges, incoming)
}

/// Whether a list holds, in increasing order, the positions below `bound` of
/// the messages that wait for the one at `i`.
spec fn edges_from<P>(ms: Seq<Signed<P>>, i: int, bound: int, targets: Seq<usize>) -> bool {
    &&& forall|k: int|
        0 <= k < targets.len() ==> (#[trigger] targets[k]) < bound && precedes(
            ms[i].clock,
            ms[targets[k] as int].clock,
        )
    &&& forall|k: int, l: int|
        0 <= k < l < targets.len() ==> (#[trigger] targets[k]) < (#[trigger] targets[l])
    &&& forall|j: usize|
        j < bound && precedes(ms[i].clock, (#[trigger] ms[j as int]).clock) ==> targets.contains(j)
}

/// The position in a list of ready messages of the one to take next.
fn find_next<P>(messages: &Vec<&SignedMessage<P>>, waiting: &Vec<usize>) -> (best: usize)
    requires
        waiting@.len() > 0,
        forall|k: int| 0 <= k < waiting@.len() ==> (#[trigger] waiting@[k]) < messages@.len(),
        waiting@.no_duplicates(),
    ensures
        best < waiting@.len(),
        forall|k: int|
            0 <= k < waiting@.len() && k != best ==> sooner(
                views(messages@),
                waiting@[best as int] as int,
                #[trigger] waiting@[k] as int,
            ),
{
    let ghost ms = views(messages@);
    let mut best: usize = 0;
    let mut k: usize = 1;
    while k < waiting.len()
        invariant
            1 <= k <= waiting@.len(),
            best < k,
            ms == views(messages@),
            forall|l: int| 0 <= l < waiting@.len() ==> (#[trigger] waiting@[l]) < messages@.len(),
            waiting@.no_duplicates(),
            forall|l: int|
                0 <= l < k && l != best ==> sooner(
                    ms,
                    waiting@[best as int] as int,
                    #[trigger] waiting@[l] as int,
                ),
        decreases waiting@.len() - k,
    {
        let i: usize = waiting[k];
        let b: usize = waiting[best];
        let key = messages[i].public_key;
        let best_key = messages[b].public_key;
        let replace = key.is_before(&best_key) || (key == best_key && i < b);
        proof {
            PublicKey::before_total(key, best_key);
            assert(waiting@[best as int] != waiting@[k as int]);
            assert(replace ==> sooner(ms, i as int, b as int));
            assert(!replace ==> sooner(ms, b as int, i as int));
            if replace {
                assert forall|l: int| 0 <= l < k implies sooner(
                    ms,
                    i as int,
                    #[trigger] waiting@[l] as int,
                ) by {
                    if l != best {
                        sooner_transitive(ms, i as int, b as int, waiting@[l] as int);
                    }
                }
            }
        }
        if replace {
            best = k;
        }
        k = k + 1;
    }
    best
}

/// What is taken before a message is taken before everything after it.
proof fn sooner_transitive<P>(ms: Seq<Signed<P>>, i: int, j: int, k: int)
    requires
        sooner(ms, i, j),
        sooner(ms, j, k),
    ensures
        sooner(ms, i, k),
{
    let a = ms[i].public_key;
    let b = ms[j].public_key;
    let c = ms[k].public_key;
    if a.before(b) && b.before(c) {
        PublicKey::before_transitive(a, b, c);
    }
}

/// Whether a list holds each ready message once.
spec fn lists_ready<P>(ms: Seq<Signed<P>>, left: Set<int>, waiting: Seq<usize>) -> bool {
    &&& waiting.no_duplicates()
    &&& forall|k: int|
        0 <= k < waiting.len() ==> ready(ms, left, #[trigger] waiting[k] as int)
    &&& forall|j: usize| #[trigger] ready(ms, left, j as int) ==> waiting.contains(j)
}

/// The positions of messages in their total order.
pub(crate) fn sort_causally<P>(messages: &Vec<&SignedMessage<P>>) -> (order: Vec<usize>)
    ensures
        order@.map_values(|i: usize| i as int) == causal_order(views(messages@)),
{
    let n = messages.len();
    let ghost ms = views(messages@);
    let ghost all = positions(ms);
    proof {
        lemma_int_range(0, n as int);
    }
    let (edges, mut incoming) = build_graph(messages);

    let mut waiting: Vec<usize> = Vec::new();
    let mut i: usize = 0;
    while i < n
        invariant
            i <= n,
            n == messages@.len(),
            ms == views(messages@),
            all == positions(ms),
            all.finite(),
            incoming@.len() == n,
            forall|j: int|
                0 <= j < n ==> #[trigger] incoming@[j] == blockers(ms, all, j).len(),
            waiting@.no_duplicates(),
            forall|k: int|
                0 <= k < waiting@.len() ==> (#[trigger] waiting@[k]) < i && ready(
                    ms,
                    all,
                    waiting@[k] as int,
                ),
            forall|j: usize|
                j < i && #[trigger] ready(ms, all, j as int) ==> waiting@.contains(j),
        decreases n - i,
    {
        let ghost found = waiting@;
        proof {
            ready_iff_no_blockers(ms, all, i as int);
        }
        if incoming[i] == 0 {
            waiting.push(i);
        }
        proof {
            assert forall|j: usize| j < i + 1 && #[trigger] ready(ms, all, j as int) implies
                waiting@.contains(j) by {
                if j < i {
                    let k = choose|k: int| 0 <= k < found.len() && found[k] == j;
                    assert(waiting@[k] == j);
                } else {
                    assert(waiting@[found.len() as int] == j);
                }
            }
        }
        i = i + 1;
    }

    let mut order: Vec<usize> = Vec::new();
    let ghost mut left = all;
    proof {
        assert(order@.map_values(|i: usize| i as int) + order_from(ms, left) =~= order_from(
            ms,
            all,
        ));
    }
    while waiting.len() > 0
        invariant
            n == messages@.len(),
            ms == views(messages@),
            all == positions(ms),
            left.finite(),
            left.subset_of(all),
            edges@.len() == n,
            forall|i: int| 0 <= i < n ==> edges_from(ms, i, n as int, #[trigger] edges@[i]@),
            incoming@.len() == n,
            forall|j: int|
                0 <= j < n ==> #[trigger] incoming@[j] == blockers(ms, left, j).len(),
            lists_ready(ms, left, waiting@),
            nothing_left_precedes_taken(ms, left),
            order@.map_values(|i: usize| i as int) + order_from(ms, left) == order_from(ms, all),
        decreases left.len(),
    {
        proof {
            assert forall|k: int| 0 <= k < waiting@.len() implies (#[trigger] waiting@[k])
                < messages@.len() by {
                assert(all.contains(waiting@[k] as int));
            }
        }
        let best = find_next(messages, &waiting);
        let i: usize = waiting[best];
        let ghost listed = waiting@;
        let ghost before = left;
        let ghost taken = order@;
        proof {
            take_next(ms, left, listed, best as int);
            assert(before.contains(i as int));
        }
        order.push(i);
        waiting.remove(best);
        proof {
            left = before.remove(i as int);
            assert(taken.push(i).map_values(|i: usize| i as int) =~= taken.map_values(
                |i: usize| i as int,
            ).push(i as int));
            assert(taken.push(i).map_values(|i: usize| i as int) + order_from(ms, left)
                =~= taken.map_values(|i: usize| i as int) + order_from(ms, before));
            taken_precedes_nothing_left(ms, before, i as int);
            without_taken(ms, before, listed, best as int);
        }
        let targets = &edges[i];
        let mut k: usize = 0;
        while k < targets.len()
            invariant
                k <= targets@.len(),
                n == messages@.len(),
                ms == views(messages@),
                all == positions(ms),
                before.finite(),
                before.contains(i as int),
                before.subset_of(all),
                left == before.remove(i as int),
                edges_from(ms, i as int, n as int, targets@),
                incoming@.len() == n,
                nothing_left_precedes_taken(ms, left),
                nothing_left_precedes_taken(ms, before),
                forall|j: int|
                    0 <= j < n ==> #[trigger] incoming@[j] == if among(targets@, k as int, j) {
                        blockers(ms, left, j).len()
                    } else {
                        blockers(ms, before, j).len()
                    },
                waiting@.no_duplicates(),
                forall|l: int|
                    0 <= l < waiting@.len() ==> ready(ms, left, #[trigger] waiting@[l] as int)
                        && (ready(ms, before, waiting@[l] as int) || among(
                        targets@,
                        k as int,
                        waiting@[l] as int,
                    )),
                forall|j: usize| #[trigger]
                    ready(ms, left, j as int) && (ready(ms, before, j as int) || among(
                        targets@,
                        k as int,
                        j as int,
                    )) ==> waiting@.contains(j),
            decreases targets@.len() - k,
        {
            let j: usize = targets[k];
            let ghost listed = waiting@;
            let ghost counts = incoming@;
            proof {
                assert(!among(targets@, k as int, j as int));
                blockers_remove(ms, before, i as int, j as int);
                ready_iff_no_blockers(ms, left, j as int);
                ready_iff_no_blockers(ms, before, j as int);
                assert(before.contains(j as int)) by {
                    if !before.contains(j as int) {
                        assert(!precedes(ms[i as int].clock, ms[j as int].clock));
                    }
                }
                precedes_irreflexive(ms[i as int].clock);
                assert(counts[j as int] == blockers(ms, before, j as int).len());
            }
            let count: usize = incoming[j];
            incoming.set(j, count - 1);
            if count - 1 == 0 {
                proof {
                    if listed.contains(j) {
                        let l = choose|l: int| 0 <= l < listed.len() && listed[l] == j;
                        assert(ready(ms, before, listed[l] as int) || among(
                            targets@,
                            k as int,
                            listed[l] as int,
                        ));
                    }
                }
                waiting.push(j);
            }
            proof {
                among_step(targets@, k as int);
                assert forall|t: usize| #[trigger]
                    ready(ms, left, t as int) && (ready(ms, before, t as int) || among(
                        targets@,
                        k + 1,
                        t as int,
                    )) implies waiting@.contains(t) by {
                    if t == j {
                        assert(waiting@[listed.len() as int] == t);
                    } else {
                        assert(listed.contains(t));
                        let l = choose|l: int| 0 <= l < listed.len() && listed[l] == t;
                        assert(waiting@[l] == t);
                    }
                }
            }
            k = k + 1;
        }
        proof {
            let ghost m = targets@.len() as int;
            assert forall|j: int| 0 <= j < n implies #[trigger] incoming@[j] == blockers(
                ms,
                left,
                j,
            ).len() by {
                blockers_remove(ms, before, i as int, j);
                if precedes(ms[i as int].clock, ms[j].clock) {
                    assert(ms[(j as usize) as int] == ms[j]);
                    assert(targets@.contains(j as usize));
                    let l = choose|l: int| 0 <= l < m && targets@[l] == j as usize;
                    assert(among(targets@, m, j));
                }
            }
            assert forall|j: usize| #[trigger] ready(ms, left, j as int) implies
                waiting@.contains(j) by {
                blockers_remove(ms, before, i as int, j as int);
                ready_iff_no_blockers(ms, left, j as int);
                ready_iff_no_blockers(ms, before, j as int);
                if precedes(ms[i as int].clock, ms[j as int].clock) {
                    assert(all.contains(j as int));
                    assert(targets@.contains(j));
                    let l = choose|l: int| 0 <= l < m && targets@[l] == j;
                    assert(among(targets@, m, j as int));
                }
            }
        }
    }
    proof {
        assert forall|i: int| !is_next(ms, left, i) by {
            if is_next(ms, left, i) {
                assert(all.contains(i));
                assert(ready(ms, left, (i as usize) as int));
                assert(waiting@.contains(i as usize));
            }
        }
        assert(order_from(ms, left) =~= Seq::empty());
        assert(order@.map_values(|i: usize| i as int) + order_from(ms, left)
            =~= order@.map_values(|i: usize| i as int));
    }
    order
}

/// Whether `j` is among the first `k` items of a list.
spec fn among(targets: Seq<usize>, k: int, j: int) -> bool {
    exists|l: int| 0 <= l < k && #[trigger] targets[l] == j
}

proof fn among_step(targets: Seq<usize>, k: int)
    requires
        0 <= k < targets.len(),
    ensures
        forall|j: int| #[trigger]
            among(targets, k + 1, j) <==> among(targets, k, j) || j == targets[k],
{
    assert forall|j: int| #[trigger]
        among(targets, k + 1, j) <==> among(targets, k, j) || j == targets[k] by {
        if among(targets, k, j) {
            let l = choose|l: int| 0 <= l < k && #[trigger] targets[l] == j;
            assert(0 <= l < k + 1 && targets[l] == j);
        }
        if j == targets[k] {
            assert(0 <= k < k + 1 && targets[k] == j);
        }
    }
}

/// Whether no message that is left precedes one that is not.
spec fn nothing_left_precedes_taken<P>(ms: Seq<Signed<P>>, left: Set<int>) -> bool {
    forall|i: int, j: int|
        #![trigger ms[i].clock, ms[j].clock]
        left.contains(i) && !left.contains(j) && 0 <= j < ms.len() ==> !precedes(
            ms[i].clock,
            ms[j].clock,
        )
}

/// Taking the next message continues the order.
proof fn take_next<P>(ms: Seq<Signed<P>>, left: Set<int>, waiting: Seq<usize>, best: int)
    requires
        left.finite(),
        left.subset_of(positions(ms)),
        ms.len() <= usize::MAX,
        lists_ready(ms, left, waiting),
        0 <= best < waiting.len(),
        forall|k: int|
            0 <= k < waiting.len() && k != best ==> sooner(
                ms,
                waiting[best] as int,
                #[trigger] waiting[k] as int,
            ),
    ensures
        is_next(ms, left, waiting[best] as int),
        order_from(ms, left) == seq![waiting[best] as int] + order_from(
            ms,
            left.remove(waiting[best] as int),
        ),
{
    let i = waiting[best] as int;
    assert forall|j: int| #[trigger] ready(ms, left, j) && j != i implies sooner(ms, i, j) by {
        assert(positions(ms).contains(j));
        assert(ready(ms, left, (j as usize) as int));
        assert(waiting.contains(j as usize));
        let k = choose|k: int| 0 <= k < waiting.len() && waiting[k] == j as usize;
        assert(k != best);
    }
    assert(is_next(ms, left, i));
    let chosen = choose|c: int| is_next(ms, left, c);
    next_is_unique(ms, left, i, chosen);
}

/// Nothing that is left after a ready message precedes it.
proof fn taken_precedes_nothing_left<P>(ms: Seq<Signed<P>>, left: Set<int>, i: int)
    requires
        ready(ms, left, i),
        nothing_left_precedes_taken(ms, left),
    ensures
        nothing_left_precedes_taken(ms, left.remove(i)),
{
    let after = left.remove(i);
    assert forall|a: int, b: int|
        #![trigger ms[a].clock, ms[b].clock]
        after.contains(a) && !after.contains(b) && 0 <= b < ms.len() implies !precedes(
        ms[a].clock,
        ms[b].clock,
    ) by {
        assert(left.contains(a));
    }
}

/// The list of ready messages without the one that was taken.
proof fn without_taken<P>(ms: Seq<Signed<P>>, left: Set<int>, waiting: Seq<usize>, best: int)
    requires
        lists_ready(ms, left, waiting),
        0 <= best < waiting.len(),
    ensures
        ({
            let i = waiting[best] as int;
            let rest = waiting.remove(best);
            let after = left.remove(i);
            &&& rest.no_duplicates()
            &&& forall|l: int|
                0 <= l < rest.len() ==> ready(ms, after, #[trigger] rest[l] as int) && ready(
                    ms,
                    left,
                    rest[l] as int,
                )
            &&& forall|j: usize| #[trigger]
                ready(ms, after, j as int) && ready(ms, left, j as int) ==> rest.contains(j)
        }),
{
    let i = waiting[best] as int;
    let rest = waiting.remove(best);
    let after = left.remove(i);
    assert forall|l: int| 0 <= l < rest.len() implies ready(ms, after, #[trigger] rest[l] as int)
        && ready(ms, left, rest[l] as int) by {
        let o = if l < best { l } else { l + 1 };
        assert(rest[l] == waiting[o]);
        assert(waiting[o] != waiting[best]);
    }
    assert forall|j: usize| #[trigger]
        ready(ms, after, j as int) && ready(ms, left, j as int) implies rest.contains(j) by {
        let o = choose|o: int| 0 <= o < waiting.len() && waiting[o] == j;
        assert(o != best);
        if o < best {
            assert(rest[o] == j);
        } else {
            assert(rest[o - 1] == j);
        }
    }
}

/// Where messages are left, one of them waits for no other.
pub proof fn ready_exists<P>(ms: Seq<Signed<P>>, left: Set<int>) -> (m: int)
    requires
        left.finite(),
        left.len() > 0,
    ensures
        ready(ms, left, m),
    decreases left.len(),
{
    let x = left.choose();
    let rest = left.remove(x);
    if rest.len() == 0 {
        rest.lemma_len0_is_empty();
        precedes_irreflexive(ms[x].clock);
        assert forall|j: int| #[trigger] left.contains(j) implies !precedes(
            ms[j].clock,
            ms[x].clock,
        ) by {
            assert(j == x || rest.contains(j));
        }
        x
    } else {
        let m = ready_exists(ms, rest);
        if precedes(ms[x].clock, ms[m].clock) {
            assert forall|j: int| #[trigger] left.contains(j) implies !precedes(
                ms[j].clock,
                ms[x].clock,
            ) by {
                if j == x {
                    precedes_irreflexive(ms[x].clock);
                } else if precedes(ms[j].clock, ms[x].clock) {
                    precedes_transitive(ms[j].clock, ms[x].clock, ms[m].clock);
                    assert(rest.contains(j));
                }
            }
            x
        } else {
            assert forall|j: int| #[trigger] left.contains(j) implies !precedes(
                ms[j].clock,
                ms[m].clock,
            ) by {
                assert(j == x || rest.contains(j));
            }
            m
        }
    }
}

/// Of some messages, one is taken before all others of them.
proof fn soonest_exists<P>(ms: Seq<Signed<P>>, some: Set<int>) -> (m: int)
    requires
        some.finite(),
        some.len() > 0,
    ensures
        some.contains(m),
        forall|j: int| #[trigger] some.contains(j) && j != m ==> sooner(ms, m, j),
    decreases some.len(),
{
    let x = some.choose();
    let rest = some.remove(x);
    if rest.len() == 0 {
        rest.lemma_len0_is_empty();
        assert forall|j: int| #[trigger] some.contains(j) && j != x implies sooner(ms, x, j) by {
            assert(rest.contains(j));
        }
        x
    } else {
        let m = soonest_exists(ms, rest);
        PublicKey::before_total(ms[x].public_key, ms[m].public_key);
        if sooner(ms, x, m) {
            assert forall|j: int| #[trigger] some.contains(j) && j != x implies sooner(
                ms,
                x,
                j,
            ) by {
                assert(rest.contains(j));
                if j != m {
                    sooner_transitive(ms, x, m, j);
                }
            }
            x
        } else {
            assert forall|j: int| #[trigger] some.contains(j) && j != m implies sooner(
                ms,
                m,
                j,
            ) by {
                assert(j == x || rest.contains(j));
            }
            m
        }
    }
}

/// Where messages are left, one of them is to be taken next.
pub proof fn next_exists<P>(ms: Seq<Signed<P>>, left: Set<int>) -> (m: int)
    requires
        left.finite(),
        left.len() > 0,
    ensures
        is_next(ms, left, m),
{
    let some = left.filter(|i: int| ready(ms, left, i));
    let r = ready_exists(ms, left);
    assert(some.contains(r));
    let m = soonest_exists(ms, some);
    assert forall|j: int| #[trigger] ready(ms, left, j) && j != m implies sooner(ms, m, j) by {
        assert(some.contains(j));
    }
    m
}

/// The order takes every message that is left, and each once.
pub proof fn order_takes_each_once<P>(ms: Seq<Signed<P>>, left: Set<int>)
    requires
        left.finite(),
    ensures
        order_from(ms, left).no_duplicates(),
        order_from(ms, left).to_set() == left,
        order_from(ms, left).len() == left.len(),
    decreases left.len(),
{
    let order = order_from(ms, left);
    if left.len() == 0 {
        left.lemma_len0_is_empty();
        assert(order =~= Seq::empty()) by {
            if exists|i: int| is_next(ms, left, i) {
                let i = choose|i: int| is_next(ms, left, i);
                assert(left.contains(i));
            }
        }
        assert(order.to_set() =~= left);
    } else {
        let m = next_exists(ms, left);
        let i = choose|i: int| is_next(ms, left, i);
        let rest = order_from(ms, left.remove(i));
        order_takes_each_once(ms, left.remove(i));
        assert(order == seq![i] + rest);
        assert forall|x: int| order.to_set().contains(x) <==> left.contains(x) by {
            if left.contains(x) {
                if x == i {
                    assert(order[0] == x);
                } else {
                    assert(rest.to_set().contains(x));
                    let k = choose|k: int| 0 <= k < rest.len() && rest[k] == x;
                    assert(order[k + 1] == x);
                }
            }
            if order.contains(x) {
                let k = choose|k: int| 0 <= k < order.len() && order[k] == x;
                if k > 0 {
                    assert(rest[k - 1] == x);
                    assert(rest.to_set().contains(x));
                }
            }
        }
        assert(order.to_set() =~= left);
        assert forall|a: int, b: int| 0 <= a < order.len() && 0 <= b < order.len() && a != b implies
            order[a] != order[b] by {
            if a > 0 {
                assert(rest.to_set().contains(rest[a - 1]));
            }
            if b > 0 {
                assert(rest.to_set().contains(rest[b - 1]));
            }
        }
    }
}

/// The total order holds every message, and each once.
pub proof fn causal_order_is_permutation<P>(ms: Seq<Signed<P>>)
    ensures
        causal_order(ms).no_duplicates(),
        causal_order(ms).len() == ms.len(),
        forall|i: int| 0 <= i < ms.len() <==> #[trigger] causal_order(ms).contains(i),
{
    lemma_int_range(0, ms.len() as int);
    order_takes_each_once(ms, positions(ms));
    assert forall|i: int| 0 <= i < ms.len() <==> #[trigger] causal_order(ms).contains(i) by {
        assert(causal_order(ms).to_set().contains(i) <==> positions(ms).contains(i));
    }
}

/// The total order is causal: no message is preceded by a later one.
pub proof fn order_is_causal<P>(ms: Seq<Signed<P>>, left: Set<int>)
    requires
        left.finite(),
    ensures
        forall|a: int, b: int|
            0 <= a < b < order_from(ms, left).len() ==> !precedes(
                ms[#[trigger] order_from(ms, left)[b]].clock,
                ms[#[trigger] order_from(ms, left)[a]].clock,
            ),
    decreases left.len(),
{
    let order = order_from(ms, left);
    if exists|i: int| is_next(ms, left, i) {
        let i = choose|i: int| is_next(ms, left, i);
        let rest = order_from(ms, left.remove(i));
        order_is_causal(ms, left.remove(i));
        order_takes_each_once(ms, left.remove(i));
        assert(order == seq![i] + rest);
        assert forall|a: int, b: int| 0 <= a < b < order.len() implies !precedes(
            ms[#[trigger] order[b]].clock,
            ms[#[trigger] order[a]].clock,
        ) by {
            assert(order[b] == rest[b - 1]);
            if a == 0 {
                assert(rest.to_set().contains(rest[b - 1]));
                assert(left.contains(order[b]));
            } else {
                assert(order[a] == rest[a - 1]);
            }
        }
    }
}

/// Causal order: a message stands before every message that it precedes.
pub proof fn predecessors_come_first<P>(ms: Seq<Signed<P>>, a: int, b: int)
    requires
        0 <= a < ms.len(),
        0 <= b < ms.len(),
        precedes(ms[a].clock, ms[b].clock),
    ensures
        causal_order(ms).index_of(a) < causal_order(ms).index_of(b),
{
    lemma_int_range(0, ms.len() as int);
    causal_order_is_permutation(ms);
    order_is_causal(ms, positions(ms));
    precedes_irreflexive(ms[a].clock);
    let order = causal_order(ms);
    assert(order.contains(a) && order.contains(b));
    let i = order.index_of(a);
    let j = order.index_of(b);
    assert(order[i] == a && order[j] == b);
    assert(i != j);
}

/// Whether the messages of each sender are causally in line.
pub open spec fn senders_in_line<P>(ms: Seq<Signed<P>>) -> bool {
    forall|i: int, j: int|
        0 <= i < ms.len() && 0 <= j < ms.len() && i != j && (#[trigger] ms[i]).public_key == (
        #[trigger] ms[j]).public_key ==> precedes(ms[i].clock, ms[j].clock) || precedes(
            ms[j].clock,
            ms[i].clock,
        )
}

spec fn ready_in<P>(set: Set<Signed<P>>, m: Signed<P>) -> bool {
    &&& set.contains(m)
    &&& forall|x: Signed<P>| #[trigger] set.contains(x) ==> !precedes(x.clock, m.clock)
}

spec fn next_in<P>(set: Set<Signed<P>>, m: Signed<P>) -> bool {
    &&& ready_in(set, m)
    &&& forall|x: Signed<P>| #[trigger]
        ready_in(set, x) && x != m ==> m.public_key.before(x.public_key)
}

/// The order of a set of messages, without reference to where each stands.
spec fn order_of_set<P>(set: Set<Signed<P>>) -> Seq<Signed<P>>
    decreases set.len(),
{
    if set.finite() && exists|m: Signed<P>| next_in(set, m) {
        let m = choose|m: Signed<P>| next_in(set, m);
        seq![m] + order_of_set(set.remove(m))
    } else {
        Seq::empty()
    }
}

/// The messages at some positions.
spec fn messages_at<P>(ms: Seq<Signed<P>>, left: Set<int>) -> Set<Signed<P>> {
    left.map(|i: int| ms[i])
}

proof fn order_depends_on_set<P>(ms: Seq<Signed<P>>, left: Set<int>)
    requires
        left.finite(),
        left.subset_of(positions(ms)),
        senders_in_line(ms),
    ensures
        order_from(ms, left).map_values(|i: int| ms[i]) == order_of_set(messages_at(ms, left)),
    decreases left.len(),
{
    let at = |i: int| ms[i];
    let set = messages_at(ms, left);
    left.lemma_map_finite(at);
    if left.len() == 0 {
        left.lemma_len0_is_empty();
        assert(set =~= Set::empty());
        assert(order_from(ms, left) =~= Seq::empty()) by {
            if exists|i: int| is_next(ms, left, i) {
                let i = choose|i: int| is_next(ms, left, i);
                assert(left.contains(i));
            }
        }
        assert(order_of_set(set) =~= Seq::empty()) by {
            if exists|m: Signed<P>| next_in(set, m) {
                let m = choose|m: Signed<P>| next_in(set, m);
                assert(set.contains(m));
            }
        }
    } else {
        let witness = next_exists(ms, left);
        let i = choose|i: int| is_next(ms, left, i);
        let m = ms[i];
        assert forall|x: Signed<P>| #[trigger] set.contains(x) implies !precedes(
            x.clock,
            m.clock,
        ) by {
            let j = choose|j: int| left.contains(j) && x == at(j);
            assert(left.contains(j));
        }
        assert(set.contains(m)) by {
            assert(left.contains(i) && m == at(i));
        }
        assert forall|x: Signed<P>| #[trigger] ready_in(set, x) && x != m implies
            m.public_key.before(x.public_key) by {
            let j = choose|j: int| left.contains(j) && x == at(j);
            assert forall|k: int| #[trigger] left.contains(k) implies !precedes(
                ms[k].clock,
                ms[j].clock,
            ) by {
                assert(set.contains(at(k)));
            }
            assert(ready(ms, left, j));
            assert(sooner(ms, i, j));
            assert(positions(ms).contains(i) && positions(ms).contains(j));
            if ms[i].public_key == ms[j].public_key {
                assert(left.contains(i) && left.contains(j));
                assert(precedes(ms[i].clock, ms[j].clock) || precedes(ms[j].clock, ms[i].clock));
            }
        }
        assert(next_in(set, m));
        let chosen = choose|c: Signed<P>| next_in(set, c);
        if chosen != m {
            assert(ready_in(set, chosen) && ready_in(set, m));
            PublicKey::before_transitive(m.public_key, chosen.public_key, m.public_key);
            PublicKey::before_irreflexive(m.public_key);
        }
        assert(messages_at(ms, left.remove(i)) =~= set.remove(m)) by {
            assert forall|x: Signed<P>| messages_at(ms, left.remove(i)).contains(x) <==> set.remove(
                m,
            ).contains(x) by {
                if messages_at(ms, left.remove(i)).contains(x) {
                    let j = choose|j: int| left.remove(i).contains(j) && x == at(j);
                    assert(left.contains(j) && x == at(j));
                    assert(positions(ms).contains(i) && positions(ms).contains(j));
                    if x == m {
                        precedes_irreflexive(m.clock);
                        assert(ms[i].public_key == ms[j].public_key);
                    }
                }
                if set.remove(m).contains(x) {
                    let j = choose|j: int| left.contains(j) && x == at(j);
                    assert(left.remove(i).contains(j));
                }
            }
        }
        order_depends_on_set(ms, left.remove(i));
        let rest = order_from(ms, left.remove(i));
        assert(order_from(ms, left) == seq![i] + rest);
        assert((seq![i] + rest).map_values(at) =~= seq![m] + rest.map_values(at));
        assert(order_from(ms, left).map_values(at) == order_of_set(set));
    }
}

/// Convergence: two nodes that have delivered the same messages put them in
/// the same order, in whatever order they received them, if the messages of
/// each sender are causally in line.
pub proof fn same_final_order<P>(a: Seq<Signed<P>>, b: Seq<Signed<P>>)
    requires
        a.to_set() == b.to_set(),
        senders_in_line(a),
        senders_in_line(b),
    ensures
        in_order(a) == in_order(b),
{
    lemma_int_range(0, a.len() as int);
    lemma_int_range(0, b.len() as int);
    order_depends_on_set(a, positions(a));
    order_depends_on_set(b, positions(b));
    all_messages(a);
    all_messages(b);
    assert(in_order(a) =~= order_of_set(a.to_set()));
    assert(in_order(b) =~= order_of_set(b.to_set()));
}

proof fn all_messages<P>(ms: Seq<Signed<P>>)
    ensures
        messages_at(ms, positions(ms)) == ms.to_set(),
{
    let at = |i: int| ms[i];
    assert forall|x: Signed<P>| messages_at(ms, positions(ms)).contains(x) <==> ms.to_set().contains(
        x,
    ) by {
        if ms.contains(x) {
            let i = choose|i: int| 0 <= i < ms.len() && ms[i] == x;
            assert(positions(ms).contains(i) && x == at(i));
        }
        if messages_at(ms, positions(ms)).contains(x) {
            let i = choose|i: int| positions(ms).contains(i) && x == at(i);
            assert(ms[i] == x);
        }
    }
    assert(messages_at(ms, positions(ms)) =~= ms.to_set());
}

/// A message that all others precede is taken last.
#[verifier::rlimit(40)]
proof fn last_is_taken_last<P>(ms: Seq<Signed<P>>, m: Signed<P>, left: Set<int>)
    requires
        left.finite(),
        forall|i: int| #[trigger] left.contains(i) ==> 0 <= i < ms.len(),
        forall|i: int| 0 <= i < ms.len() ==> precedes((#[trigger] ms[i]).clock, m.clock),
    ensures
        order_from(ms.push(m), left.insert(ms.len() as int)) == order_from(ms, left).push(
            ms.len() as int,
        ),
    decreases left.len(),
{
    let n = ms.len() as int;
    let all = ms.push(m);
    let more = left.insert(n);
    if left.len() == 0 {
        left.lemma_len0_is_empty();
        precedes_irreflexive(m.clock);
        assert(is_next(all, more, n));
        let i = choose|i: int| is_next(all, more, i);
        assert(more.contains(i));
        assert(more.remove(n) =~= left);
        order_takes_each_once(all, left);
        order_takes_each_once(ms, left);
        assert(order_from(all, more) =~= order_from(ms, left).push(n));
    } else {
        let i = next_exists(ms, left);
        assert(left.contains(i));
        assert(precedes(ms[i].clock, m.clock));
        precedes_asymmetric(ms[i].clock, m.clock);
        assert(ready(all, more, i)) by {
            assert forall|j: int| #[trigger] more.contains(j) implies !precedes(
                all[j].clock,
                all[i].clock,
            ) by {
                if j != n {
                    assert(left.contains(j));
                }
            }
        }
        assert(is_next(all, more, i)) by {
            assert forall|j: int| #[trigger] ready(all, more, j) && j != i implies sooner(
                all,
                i,
                j,
            ) by {
                assert(more.contains(i));
                assert(j != n);
                assert(left.contains(j));
                assert(ready(ms, left, j)) by {
                    assert forall|k: int| #[trigger] left.contains(k) implies !precedes(
                        ms[k].clock,
                        ms[j].clock,
                    ) by {
                        assert(more.contains(k));
                    }
                }
                assert(sooner(ms, i, j));
            }
        }
        let a = choose|k: int| is_next(ms, left, k);
        let b = choose|k: int| is_next(all, more, k);
        next_is_unique(ms, left, a, i);
        next_is_unique(all, more, b, i);
        last_is_taken_last(ms, m, left.remove(i));
        assert(more.remove(i) =~= left.remove(i).insert(n));
        assert(order_from(all, more) =~= order_from(ms, left).push(n));
    }
}

/// A message that all others precede comes last.
pub proof fn newest_comes_last<P>(ms: Seq<Signed<P>>, m: Signed<P>)
    requires
        forall|i: int| 0 <= i < ms.len() ==> precedes((#[trigger] ms[i]).clock, m.clock),
    ensures
        in_order(ms.push(m)) == in_order(ms).push(m),
{
    let n = ms.len() as int;
    lemma_int_range(0, n);
    last_is_taken_last(ms, m, positions(ms));
    assert(positions(ms.push(m)) =~= positions(ms).insert(n));
    causal_order_is_permutation(ms);
    assert forall|k: int| 0 <= k < n implies #[trigger] in_order(ms.push(m))[k] == in_order(
        ms,
    )[k] by {
        assert(causal_order(ms).contains(causal_order(ms)[k]));
    }
    assert(in_order(ms.push(m)) =~= in_order(ms).push(m));
}

/// The total order holds the messages that there are, and no message that
/// another one precedes stands before it.
pub proof fn order_holds_all_messages<P>(ms: Seq<Signed<P>>)
    ensures
        in_order(ms).len() == ms.len(),
        forall|m: Signed<P>| #[trigger] in_order(ms).contains(m) <==> ms.contains(m),
        forall|x: int, y: int|
            0 <= x < y < ms.len() ==> !precedes(
                (#[trigger] in_order(ms)[y]).clock,
                (#[trigger] in_order(ms)[x]).clock,
            ),
{
    lemma_int_range(0, ms.len() as int);
    causal_order_is_permutation(ms);
    order_is_causal(ms, positions(ms));
    let order = causal_order(ms);
    let out = in_order(ms);
    assert forall|k: int| 0 <= k < order.len() implies 0 <= #[trigger] order[k] < ms.len() by {
        assert(order.contains(order[k]));
    }
    assert forall|m: Signed<P>| #[trigger] out.contains(m) <==> ms.contains(m) by {
        if out.contains(m) {
            let k = choose|k: int| 0 <= k < out.len() && out[k] == m;
            assert(ms[order[k]] == m);
        }
        if ms.contains(m) {
            let i = choose|i: int| 0 <= i < ms.len() && ms[i] == m;
            assert(order.contains(i));
            let k = choose|k: int| 0 <= k < order.len() && order[k] == i;
            assert(out[k] == m);
        }
    }
    assert forall|x: int, y: int| 0 <= x < y < ms.len() implies !precedes(
        (#[trigger] out[y]).clock,
        (#[trigger] out[x]).clock,
    ) by {
        assert(out[y] == ms[order[y]] && out[x] == ms[order[x]]);
    }
}

proof fn smallest_sender_is_taken<P>(ms: Seq<Signed<P>>, left: Set<int>, x: int, y: int)
    requires
        left.finite(),
        0 <= x < y < order_from(ms, left).len(),
        forall|z: int|
            x <= z < order_from(ms, left).len() ==> !precedes(
                ms[#[trigger] order_from(ms, left)[z]].clock,
                ms[order_from(ms, left)[y]].clock,
            ),
    ensures
        !ms[order_from(ms, left)[y]].public_key.before(ms[order_from(ms, left)[x]].public_key),
        ms[order_from(ms, left)[x]].public_key == ms[order_from(ms, left)[y]].public_key
            ==> order_from(ms, left)[x] < order_from(ms, left)[y],
    decreases left.len(),
{
    let order = order_from(ms, left);
    let i = choose|i: int| is_next(ms, left, i);
    let rest = order_from(ms, left.remove(i));
    assert(order == seq![i] + rest);
    order_takes_each_once(ms, left);
    order_takes_each_once(ms, left.remove(i));
    if x == 0 {
        let j = order[y];
        assert(order.to_set().contains(j));
        assert forall|k: int| #[trigger] left.contains(k) implies !precedes(
            ms[k].clock,
            ms[j].clock,
        ) by {
            assert(order.to_set().contains(k));
            let z = choose|z: int| 0 <= z < order.len() && order[z] == k;
            assert(!precedes(ms[order[z]].clock, ms[order[y]].clock));
        }
        assert(ready(ms, left, j));
        assert(order[0] == i && j != i);
        assert(sooner(ms, i, j));
        PublicKey::before_irreflexive(ms[i].public_key);
        if ms[j].public_key.before(ms[i].public_key) {
            if ms[i].public_key.before(ms[j].public_key) {
                PublicKey::before_transitive(
                    ms[i].public_key,
                    ms[j].public_key,
                    ms[i].public_key,
                );
            }
            PublicKey::before_irreflexive(ms[i].public_key);
        }
    } else {
        assert(order[x] == rest[x - 1] && order[y] == rest[y - 1]);
        assert forall|z: int| x - 1 <= z < rest.len() implies !precedes(
            ms[#[trigger] rest[z]].clock,
            ms[rest[y - 1]].clock,
        ) by {
            assert(order[z + 1] == rest[z]);
        }
        smallest_sender_is_taken(ms, left.remove(i), x - 1, y - 1);
    }
}

/// Of messages that wait for nothing else, that of the smallest sender comes
/// first: where nothing from a position on precedes the message at a later
/// one, its sender does not come before the sender at the position. Of the same
/// sender, what is first in the list comes first.
pub proof fn smallest_sender_comes_first<P>(ms: Seq<Signed<P>>, x: int, y: int)
    requires
        0 <= x < y < in_order(ms).len(),
        forall|z: int|
            x <= z < in_order(ms).len() ==> !precedes(
                (#[trigger] in_order(ms)[z]).clock,
                in_order(ms)[y].clock,
            ),
    ensures
        !in_order(ms)[y].public_key.before(in_order(ms)[x].public_key),
        in_order(ms)[x].public_key == in_order(ms)[y].public_key ==> causal_order(ms)[x]
            < causal_order(ms)[y],
{
    lemma_int_range(0, ms.len() as int);
    let order = causal_order(ms);
    assert forall|z: int| x <= z < order.len() implies !precedes(
        ms[#[trigger] order[z]].clock,
        ms[order[y]].clock,
    ) by {
        assert(in_order(ms)[z] == ms[order[z]]);
    }
    smallest_sender_is_taken(ms, positions(ms), x, y);
}

} // verus!
