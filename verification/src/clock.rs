//! Vector clocks.

use crate::key::NodeId;
use vstd::prelude::*;

verus! {

/// Vector clock: the number of messages seen from each node.
///
/// A node without an entry has sent nothing. Where a node has several entries
/// (a clock read from the network may), the first one counts.
#[derive(Debug, PartialEq, Eq)]
pub struct Clock {
    pub inner: Vec<(NodeId, u64)>,
}

/// The entries of a clock, in order.
pub type Entries = Seq<(NodeId, u64)>;

/// Whether `i` is the first entry of `id`.
pub open spec fn first_entry(entries: Entries, id: NodeId, i: int) -> bool {
    &&& 0 <= i < entries.len()
    &&& entries[i].0 == id
    &&& forall|j: int| 0 <= j < i ==> entries[j].0 != id
}

/// Whether `id` has an entry.
pub open spec fn has_entry(entries: Entries, id: NodeId) -> bool {
    exists|i: int| first_entry(entries, id, i)
}

/// The sequence number of `id`: that of its first entry, or zero.
pub open spec fn seq_of(entries: Entries, id: NodeId) -> u64 {
    if has_entry(entries, id) {
        entries[choose|i: int| first_entry(entries, id, i)].1
    } else {
        0
    }
}

/// Whether every node has at most one entry.
pub open spec fn distinct(entries: Entries) -> bool {
    forall|i: int, j: int|
        0 <= i < j < entries.len() ==> (#[trigger] entries[i]).0 != (#[trigger] entries[j]).0
}

/// Whether some entry of `a` is less than what `b` has for the same node, or
/// some entry of `b` is greater than what `a` has for it.
pub open spec fn some_less(a: Entries, b: Entries) -> bool {
    ||| exists|j: int|
        0 <= j < b.len() && seq_of(a, (#[trigger] b[j]).0) < b[j].1
    ||| exists|i: int|
        0 <= i < a.len() && (#[trigger] a[i]).1 < seq_of(b, a[i].0)
}

/// Whether the clock `a` is at most the clock `b`.
pub open spec fn at_most(a: Entries, b: Entries) -> bool {
    !some_less(b, a)
}

/// Whether the clock `a` is at most the clock `b` and less in some entry.
pub open spec fn precedes(a: Entries, b: Entries) -> bool {
    some_less(a, b) && !some_less(b, a)
}

/// The entries after one more message of `id`.
pub open spec fn counted(entries: Entries, id: NodeId) -> Entries {
    if has_entry(entries, id) {
        let i = choose|i: int| first_entry(entries, id, i);
        entries.update(i, (id, (entries[i].1 + 1) as u64))
    } else {
        entries.push((id, 1))
    }
}

/// The entries after raising the sequence number of `entry`'s node to at least
/// that of `entry`.
pub open spec fn raised(entries: Entries, entry: (NodeId, u64)) -> Entries {
    if has_entry(entries, entry.0) {
        let i = choose|i: int| first_entry(entries, entry.0, i);
        if entry.1 > entries[i].1 {
            entries.update(i, entry)
        } else {
            entries
        }
    } else {
        entries.push(entry)
    }
}

/// The entries after raising them to each entry of `other`, in order.
pub open spec fn merged(entries: Entries, other: Entries) -> Entries
    decreases other.len(),
{
    if other.len() == 0 {
        entries
    } else {
        raised(merged(entries, other.drop_last()), other.last())
    }
}

/// The highest sequence number among all entries of `id`, or zero.
pub open spec fn highest(entries: Entries, id: NodeId) -> u64
    decreases entries.len(),
{
    if entries.len() == 0 {
        0
    } else {
        let rest = highest(entries.drop_last(), id);
        if entries.last().0 == id && entries.last().1 > rest {
            entries.last().1
        } else {
            rest
        }
    }
}

/// The greater of two sequence numbers.
pub open spec fn max_seq(a: u64, b: u64) -> u64 {
    if a >= b {
        a
    } else {
        b
    }
}

/// A node that occurs has a first entry.
pub proof fn first_entry_exists(entries: Entries, id: NodeId, i: int) -> (first: int)
    requires
        0 <= i < entries.len(),
        entries[i].0 == id,
    ensures
        first_entry(entries, id, first),
        first <= i,
    decreases i,
{
    if exists|j: int| 0 <= j < i && entries[j].0 == id {
        let j = choose|j: int| 0 <= j < i && entries[j].0 == id;
        first_entry_exists(entries, id, j)
    } else {
        i
    }
}

/// The sequence number of a node is that of its first entry.
pub proof fn seq_of_first(entries: Entries, id: NodeId, i: int)
    requires
        first_entry(entries, id, i),
    ensures
        has_entry(entries, id),
        seq_of(entries, id) == entries[i].1,
        (choose|k: int| first_entry(entries, id, k)) == i,
{
    let k = choose|k: int| first_entry(entries, id, k);
    assert(first_entry(entries, id, k));
    assert(k == i) by {
        if k < i {
            assert(entries[k].0 != id);
        } else if i < k {
            assert(entries[i].0 != id);
        }
    }
}

/// A node without an entry has sequence number zero.
pub proof fn seq_of_absent(entries: Entries, id: NodeId)
    requires
        forall|i: int| 0 <= i < entries.len() ==> (#[trigger] entries[i]).0 != id,
    ensures
        !has_entry(entries, id),
        seq_of(entries, id) == 0,
{
}

/// Raising one entry changes the sequence number of its node alone.
pub proof fn seq_of_raised(entries: Entries, entry: (NodeId, u64))
    ensures
        forall|id: NodeId|
            #[trigger] seq_of(raised(entries, entry), id) == if id == entry.0 {
                max_seq(seq_of(entries, id), entry.1)
            } else {
                seq_of(entries, id)
            },
        distinct(entries) ==> distinct(raised(entries, entry)),
{
    let after = raised(entries, entry);
    if has_entry(entries, entry.0) {
        let i = choose|i: int| first_entry(entries, entry.0, i);
        same_nodes_same_firsts(entries, after);
        assert forall|id: NodeId| #[trigger] seq_of(after, id) == if id == entry.0 {
            max_seq(seq_of(entries, id), entry.1)
        } else {
            seq_of(entries, id)
        } by {
            if has_entry(entries, id) {
                let k = choose|k: int| first_entry(entries, id, k);
                seq_of_first(entries, id, k);
                seq_of_first(after, id, k);
            }
        }
        assert forall|x: int, y: int| distinct(entries) && 0 <= x < y < after.len() implies (
        #[trigger] after[x]).0 != (#[trigger] after[y]).0 by {
            assert(entries[x].0 != entries[y].0);
        }
    } else {
        assert forall|id: NodeId| #[trigger] seq_of(after, id) == if id == entry.0 {
            max_seq(seq_of(entries, id), entry.1)
        } else {
            seq_of(entries, id)
        } by {
            seq_of_pushed(entries, entry, id);
        }
        assert forall|x: int, y: int| distinct(entries) && 0 <= x < y < after.len() implies (
        #[trigger] after[x]).0 != (#[trigger] after[y]).0 by {
            if y == entries.len() && entries[x].0 == entry.0 {
                let k = first_entry_exists(entries, entry.0, x);
            }
        }
    }
}

/// Entries that name the same nodes in the same places have the same first
/// entries.
proof fn same_nodes_same_firsts(a: Entries, b: Entries)
    requires
        a.len() == b.len(),
        forall|i: int|
            #![trigger a[i]]
            #![trigger b[i]]
            0 <= i < a.len() ==> a[i].0 == b[i].0,
    ensures
        forall|id: NodeId, i: int| first_entry(a, id, i) == #[trigger] first_entry(b, id, i),
        forall|id: NodeId| #[trigger] has_entry(a, id) == has_entry(b, id),
{
    assert forall|id: NodeId| #[trigger] has_entry(a, id) == has_entry(b, id) by {
        if has_entry(a, id) {
            let i = choose|i: int| first_entry(a, id, i);
            assert(a[i].0 == b[i].0);
            assert(first_entry(b, id, i));
        }
        if has_entry(b, id) {
            let i = choose|i: int| first_entry(b, id, i);
            assert(a[i].0 == b[i].0);
            assert(first_entry(a, id, i));
        }
    }
}

/// Appending the first entry of a node leaves the other nodes as they were.
proof fn seq_of_pushed(entries: Entries, entry: (NodeId, u64), id: NodeId)
    requires
        !has_entry(entries, entry.0),
    ensures
        seq_of(entries.push(entry), id) == if id == entry.0 {
            entry.1
        } else {
            seq_of(entries, id)
        },
{
    let after = entries.push(entry);
    if id == entry.0 {
        assert forall|j: int| 0 <= j < entries.len() implies (#[trigger] after[j]).0 != id by {
            if entries[j].0 == id {
                let k = first_entry_exists(entries, id, j);
            }
        }
        assert(first_entry(after, id, entries.len() as int));
        seq_of_first(after, id, entries.len() as int);
    } else if has_entry(entries, id) {
        let k = choose|k: int| first_entry(entries, id, k);
        seq_of_first(entries, id, k);
        assert(first_entry(after, id, k));
        seq_of_first(after, id, k);
    } else {
        assert forall|j: int| 0 <= j < after.len() implies (#[trigger] after[j]).0 != id by {
            if j < entries.len() && entries[j].0 == id {
                let k = first_entry_exists(entries, id, j);
            }
        }
        seq_of_absent(after, id);
    }
}

/// Counting a message of `id` changes the sequence number of `id` alone.
pub proof fn seq_of_counted(entries: Entries, id: NodeId)
    requires
        seq_of(entries, id) < u64::MAX,
    ensures
        forall|other: NodeId|
            #[trigger] seq_of(counted(entries, id), other) == if other == id {
                seq_of(entries, id) + 1
            } else {
                seq_of(entries, other) as int
            },
        distinct(entries) ==> distinct(counted(entries, id)),
{
    let next = (id, (seq_of(entries, id) + 1) as u64);
    seq_of_raised(entries, next);
    if has_entry(entries, id) {
        let i = choose|i: int| first_entry(entries, id, i);
        seq_of_first(entries, id, i);
    } else {
        assert(seq_of(entries, id) == 0);
    }
    assert(counted(entries, id) == raised(entries, next));
}

/// After a merge, each node has the greater of what it had and of the highest
/// entry that it has in the other clock.
pub proof fn seq_of_merged(entries: Entries, other: Entries)
    ensures
        forall|id: NodeId|
            #[trigger] seq_of(merged(entries, other), id) == max_seq(
                seq_of(entries, id),
                highest(other, id),
            ),
        distinct(entries) ==> distinct(merged(entries, other)),
    decreases other.len(),
{
    if other.len() > 0 {
        seq_of_merged(entries, other.drop_last());
        seq_of_raised(merged(entries, other.drop_last()), other.last());
    }
}

/// The highest entry of a node is one of its entries, or zero where it has
/// none, and no entry is higher.
pub proof fn highest_is_bound(entries: Entries, id: NodeId)
    ensures
        forall|i: int|
            0 <= i < entries.len() && (#[trigger] entries[i]).0 == id ==> entries[i].1 <= highest(
                entries,
                id,
            ),
        highest(entries, id) > 0 ==> exists|i: int|
            0 <= i < entries.len() && (#[trigger] entries[i]) == (id, highest(entries, id)),
    decreases entries.len(),
{
    if entries.len() > 0 {
        let rest = entries.drop_last();
        highest_is_bound(rest, id);
        assert forall|i: int|
            0 <= i < entries.len() && (#[trigger] entries[i]).0 == id implies entries[i].1
            <= highest(entries, id) by {
            if i < rest.len() {
                assert(rest[i] == entries[i]);
            }
        }
        if highest(entries, id) > 0 {
            if entries.last().0 == id && entries.last().1 > highest(rest, id) {
                assert(entries[entries.len() - 1] == (id, highest(entries, id)));
            } else {
                let i = choose|i: int|
                    0 <= i < rest.len() && (#[trigger] rest[i]) == (id, highest(rest, id));
                assert(entries[i] == (id, highest(entries, id)));
            }
        }
    }
}

/// With one entry per node, the highest entry is the sequence number.
pub proof fn highest_is_seq(entries: Entries, id: NodeId)
    requires
        distinct(entries),
    ensures
        highest(entries, id) == seq_of(entries, id),
{
    highest_is_bound(entries, id);
    if highest(entries, id) > 0 {
        let i = choose|i: int|
            0 <= i < entries.len() && (#[trigger] entries[i]) == (id, highest(entries, id));
        assert(first_entry(entries, id, i));
        seq_of_first(entries, id, i);
    } else if has_entry(entries, id) {
        let i = choose|i: int| first_entry(entries, id, i);
        seq_of_first(entries, id, i);
        assert(entries[i].1 <= 0);
    }
}

impl View for Clock {
    type V = Entries;

    open spec fn view(&self) -> Entries {
        self.inner@
    }
}

impl Clone for Clock {
    fn clone(&self) -> (copy: Self)
        ensures
            copy@ == self@,
    {
        let mut inner: Vec<(NodeId, u64)> = Vec::new();
        let mut i: usize = 0;
        while i < self.inner.len()
            invariant
                i <= self.inner.len(),
                inner@ == self@.take(i as int),
            decreases self.inner.len() - i,
        {
            inner.push(self.inner[i]);
            i = i + 1;
        }
        Clock { inner }
    }
}

impl Clock {
    /// The clock that has seen nothing.
    pub fn new() -> (clock: Self)
        ensures
            clock@ == Entries::empty(),
            distinct(clock@),
    {
        Clock { inner: Vec::new() }
    }

    /// The position of the first entry of a node.
    fn position(&self, node_id: NodeId) -> (found: Option<usize>)
        ensures
            found matches Some(i) ==> first_entry(self@, node_id, i as int),
            found is None ==> !has_entry(self@, node_id),
    {
        let mut i: usize = 0;
        while i < self.inner.len()
            invariant
                i <= self.inner.len(),
                forall|j: int| 0 <= j < i ==> (#[trigger] self@[j]).0 != node_id,
            decreases self.inner.len() - i,
        {
            if self.inner[i].0 == node_id {
                return Some(i);
            }
            i = i + 1;
        }
        None
    }

    /// Counts one more message of a node, and returns its sequence number.
    pub fn incr(&mut self, node_id: NodeId) -> (seq: u64)
        requires
            seq_of(old(self)@, node_id) < u64::MAX,
        ensures
            final(self)@ == counted(old(self)@, node_id),
            seq == seq_of(old(self)@, node_id) + 1,
            seq == seq_of(final(self)@, node_id),
            forall|id: NodeId|
                id != node_id ==> #[trigger] seq_of(final(self)@, id) == seq_of(old(self)@, id),
            distinct(old(self)@) ==> distinct(final(self)@),
    {
        proof {
            seq_of_counted(self@, node_id);
        }
        match self.position(node_id) {
            Some(i) => {
                proof {
                    seq_of_first(self@, node_id, i as int);
                }
                let seq: u64 = self.inner[i].1 + 1;
                self.inner.set(i, (node_id, seq));
                seq
            },
            None => {
                self.inner.push((node_id, 1));
                1
            },
        }
    }

    /// The sequence number of a node.
    pub fn get(&self, node_id: NodeId) -> (seq: u64)
        ensures
            seq == seq_of(self@, node_id),
    {
        match self.position(node_id) {
            Some(i) => {
                proof {
                    seq_of_first(self@, node_id, i as int);
                }
                self.inner[i].1
            },
            None => 0,
        }
    }

    /// Whether a node has an entry.
    pub fn names(&self, node_id: NodeId) -> (yes: bool)
        ensures
            yes == has_entry(self@, node_id),
    {
        self.position(node_id).is_some()
    }

    /// The entries, in order.
    pub fn iter(&self) -> (entries: std::slice::Iter<'_, (NodeId, u64)>)
        ensures
            vstd::std_specs::slice::into_iter_elts(entries) == self@,
            vstd::std_specs::iter::IteratorSpec::remaining(&entries) == self@.as_ref(),
    {
        self.inner.iter()
    }

    /// Whether some of our entries are less than theirs, and whether some are
    /// greater.
    fn compare(&self, other: &Self) -> (found: (bool, bool))
        ensures
            found.0 == some_less(self@, other@),
            found.1 == some_less(other@, self@),
    {
        let mut some_lt = false;
        let mut some_gt = false;
        let mut j: usize = 0;
        while j < other.inner.len()
            invariant
                j <= other.inner.len(),
                some_lt <==> exists|k: int|
                    0 <= k < j && seq_of(self@, (#[trigger] other@[k]).0) < other@[k].1,
                some_gt <==> exists|k: int|
                    0 <= k < j && (#[trigger] other@[k]).1 < seq_of(self@, other@[k].0),
            decreases other.inner.len() - j,
        {
            let my_seq = self.get(other.inner[j].0);
            let other_seq = other.inner[j].1;
            assert(other@[j as int] == other.inner[j as int]);
            if my_seq < other_seq {
                some_lt = true;
            } else if my_seq > other_seq {
                some_gt = true;
            }
            j = j + 1;
        }
        let mut i: usize = 0;
        while i < self.inner.len()
            invariant
                i <= self.inner.len(),
                some_lt <==> (exists|k: int|
                    0 <= k < other@.len() && seq_of(self@, (#[trigger] other@[k]).0)
                        < other@[k].1) || (exists|k: int|
                    0 <= k < i && (#[trigger] self@[k]).1 < seq_of(other@, self@[k].0)),
                some_gt <==> (exists|k: int|
                    0 <= k < other@.len() && (#[trigger] other@[k]).1 < seq_of(
                        self@,
                        other@[k].0,
                    )) || (exists|k: int|
                    0 <= k < i && seq_of(other@, (#[trigger] self@[k]).0) < self@[k].1),
            decreases self.inner.len() - i,
        {
            let my_seq = self.inner[i].1;
            let other_seq = other.get(self.inner[i].0);
            assert(self@[i as int] == self.inner[i as int]);
            if my_seq < other_seq {
                some_lt = true;
            } else if my_seq > other_seq {
                some_gt = true;
            }
            i = i + 1;
        }
        (some_lt, some_gt)
    }

    /// Whether neither clock has an entry that differs from the other clock.
    pub fn eq(&self, other: &Self) -> (same: bool)
        ensures
            same == (at_most(self@, other@) && at_most(other@, self@)),
    {
        let (some_lt, some_gt) = self.compare(other);
        !some_lt && !some_gt
    }

    /// Whether this clock is causally before the other one.
    pub fn happens_before(&self, other: &Self) -> (before: bool)
        ensures
            before == precedes(self@, other@),
    {
        let (some_lt, some_gt) = self.compare(other);
        some_lt && !some_gt
    }

    /// Whether this clock is causally after the other one.
    pub fn happens_after(&self, other: &Self) -> (after: bool)
        ensures
            after == precedes(other@, self@),
    {
        let (some_lt, some_gt) = self.compare(other);
        !some_lt && some_gt
    }

    /// Whether neither clock is at most the other one.
    pub fn concurrent_with(&self, other: &Self) -> (concurrent: bool)
        ensures
            concurrent == (!at_most(self@, other@) && !at_most(other@, self@)),
    {
        let (some_lt, some_gt) = self.compare(other);
        some_lt && some_gt
    }

    /// Whether this clock is at most the other one.
    pub fn lte(&self, other: &Self) -> (at_most_other: bool)
        ensures
            at_most_other == at_most(self@, other@),
    {
        let (_some_lt, some_gt) = self.compare(other);
        !some_gt
    }

    /// Raises this clock to everything that the other clock has seen.
    pub fn merge(&mut self, other: &Self)
        ensures
            final(self)@ == merged(old(self)@, other@),
            forall|id: NodeId|
                #[trigger] seq_of(final(self)@, id) == max_seq(
                    seq_of(old(self)@, id),
                    highest(other@, id),
                ),
            distinct(old(self)@) ==> distinct(final(self)@),
    {
        proof {
            seq_of_merged(self@, other@);
        }
        let ghost start = self@;
        let mut j: usize = 0;
        while j < other.inner.len()
            invariant
                j <= other.inner.len(),
                self@ == merged(start, other@.take(j as int)),
            decreases other.inner.len() - j,
        {
            let (id, other_seq) = other.inner[j];
            proof {
                assert(other@.take(j + 1).drop_last() =~= other@.take(j as int));
                assert(other@.take(j + 1).last() == (id, other_seq));
            }
            match self.position(id) {
                Some(i) => {
                    proof {
                        seq_of_first(self@, id, i as int);
                    }
                    if other_seq > self.inner[i].1 {
                        self.inner.set(i, (id, other_seq));
                    }
                },
                None => {
                    self.inner.push((id, other_seq));
                },
            }
            j = j + 1;
        }
        proof {
            assert(other@.take(other@.len() as int) =~= other@);
        }
    }
}

/// What is at most a clock has at most its sequence number for every node.
pub proof fn at_most_pointwise(a: Entries, b: Entries)
    requires
        at_most(a, b),
    ensures
        forall|id: NodeId| #[trigger] seq_of(a, id) <= seq_of(b, id),
{
    assert forall|id: NodeId| #[trigger] seq_of(a, id) <= seq_of(b, id) by {
        if has_entry(a, id) {
            let i = choose|i: int| first_entry(a, id, i);
            seq_of_first(a, id, i);
            assert(a[i].0 == id);
        }
    }
}

/// With one entry per node, a clock is at most another one exactly where it
/// has at most its sequence number for every node.
pub proof fn at_most_iff_pointwise(a: Entries, b: Entries)
    requires
        distinct(a),
        distinct(b),
    ensures
        at_most(a, b) <==> forall|id: NodeId| #[trigger] seq_of(a, id) <= seq_of(b, id),
{
    if at_most(a, b) {
        at_most_pointwise(a, b);
    }
    if forall|id: NodeId| #[trigger] seq_of(a, id) <= seq_of(b, id) {
        assert forall|j: int| 0 <= j < a.len() implies !(seq_of(b, (#[trigger] a[j]).0)
            < a[j].1) by {
            assert(first_entry(a, a[j].0, j));
            seq_of_first(a, a[j].0, j);
        }
        assert forall|i: int| 0 <= i < b.len() implies !((#[trigger] b[i]).1 < seq_of(
            a,
            b[i].0,
        )) by {
            assert(first_entry(b, b[i].0, i));
            seq_of_first(b, b[i].0, i);
        }
    }
}

/// No clock precedes itself.
pub proof fn precedes_irreflexive(a: Entries)
    ensures
        !precedes(a, a),
{
    if some_less(a, a) {
        if exists|j: int| 0 <= j < a.len() && seq_of(a, (#[trigger] a[j]).0) < a[j].1 {
            let j = choose|j: int| 0 <= j < a.len() && seq_of(a, (#[trigger] a[j]).0) < a[j].1;
            assert(some_less(a, a));
        }
    }
}

/// Two clocks do not precede each other.
pub proof fn precedes_asymmetric(a: Entries, b: Entries)
    requires
        precedes(a, b),
    ensures
        !precedes(b, a),
{
}

/// What precedes a clock precedes everything after it.
pub proof fn precedes_transitive(a: Entries, b: Entries, c: Entries)
    requires
        precedes(a, b),
        precedes(b, c),
    ensures
        precedes(a, c),
{
    at_most_transitive(a, b, c);
    at_most_pointwise(a, b);
    at_most_pointwise(b, c);
    if exists|j: int| 0 <= j < b.len() && seq_of(a, (#[trigger] b[j]).0) < b[j].1 {
        let j = choose|j: int| 0 <= j < b.len() && seq_of(a, (#[trigger] b[j]).0) < b[j].1;
        let id = b[j].0;
        assert(b[j].1 <= seq_of(c, id));
        assert(has_entry(c, id));
        let k = choose|k: int| first_entry(c, id, k);
        seq_of_first(c, id, k);
        assert(seq_of(a, c[k].0) < c[k].1);
    } else {
        let i = choose|i: int| 0 <= i < a.len() && (#[trigger] a[i]).1 < seq_of(b, a[i].0);
        let id = a[i].0;
        assert(seq_of(b, id) <= seq_of(c, id));
        assert(a[i].1 < seq_of(c, a[i].0));
    }
}

/// A clock is at most everything that a greater clock is at most.
pub proof fn at_most_transitive(a: Entries, b: Entries, c: Entries)
    requires
        at_most(a, b),
        at_most(b, c),
    ensures
        at_most(a, c),
{
    at_most_pointwise(a, b);
    at_most_pointwise(b, c);
    assert forall|j: int| 0 <= j < a.len() implies !(seq_of(c, (#[trigger] a[j]).0)
        < a[j].1) by {
        assert(seq_of(b, a[j].0) <= seq_of(c, a[j].0));
    }
    assert forall|i: int| 0 <= i < c.len() implies !((#[trigger] c[i]).1 < seq_of(
        a,
        c[i].0,
    )) by {
        assert(seq_of(a, c[i].0) <= seq_of(b, c[i].0));
    }
}

/// A merged clock is the least clock that is at least both: each of the two is
/// at most the merged clock, and the merged clock is at most every clock that
/// both are at most.
pub proof fn merged_is_least_upper_bound(a: Entries, b: Entries)
    requires
        distinct(a),
        distinct(b),
    ensures
        at_most(a, merged(a, b)),
        at_most(b, merged(a, b)),
        forall|c: Entries|
            distinct(c) && at_most(a, c) && at_most(b, c) ==> #[trigger] at_most(
                merged(a, b),
                c,
            ),
{
    let m = merged(a, b);
    seq_of_merged(a, b);
    assert forall|id: NodeId| #[trigger] seq_of(m, id) == max_seq(
        seq_of(a, id),
        seq_of(b, id),
    ) by {
        highest_is_seq(b, id);
    }
    at_most_iff_pointwise(a, m);
    at_most_iff_pointwise(b, m);
    assert forall|c: Entries|
        distinct(c) && at_most(a, c) && at_most(b, c) implies #[trigger] at_most(m, c) by {
        at_most_iff_pointwise(m, c);
        at_most_iff_pointwise(a, c);
        at_most_iff_pointwise(b, c);
    }
}

/// Merging is commutative: whichever clock is merged into the other, every
/// node ends with the same sequence number.
pub proof fn merged_commutes(a: Entries, b: Entries)
    requires
        distinct(a),
        distinct(b),
    ensures
        forall|id: NodeId| #[trigger] seq_of(merged(a, b), id) == seq_of(merged(b, a), id),
{
    seq_of_merged(a, b);
    seq_of_merged(b, a);
    assert forall|id: NodeId| #[trigger] seq_of(merged(a, b), id) == seq_of(
        merged(b, a),
        id,
    ) by {
        highest_is_seq(a, id);
        highest_is_seq(b, id);
    }
}

/// Merging a clock a second time changes nothing.
pub proof fn merged_idempotent(a: Entries, b: Entries)
    ensures
        merged(merged(a, b), b) == merged(a, b),
{
    seq_of_merged(a, b);
    merged_names(a, b);
    merged_dominated(merged(a, b), b, b.len() as int);
    assert(b.take(b.len() as int) =~= b);
}

/// Raising an entry keeps the nodes of a clock, and adds that of the entry.
proof fn raised_names(entries: Entries, entry: (NodeId, u64))
    ensures
        has_entry(raised(entries, entry), entry.0),
        forall|id: NodeId|
            has_entry(entries, id) ==> #[trigger] has_entry(raised(entries, entry), id),
{
    let after = raised(entries, entry);
    assert forall|id: NodeId| has_entry(entries, id) implies #[trigger] has_entry(after, id) by {
        let k = choose|k: int| first_entry(entries, id, k);
        let first = first_entry_exists(after, id, k);
    }
    if !has_entry(entries, entry.0) {
        let first = first_entry_exists(after, entry.0, entries.len() as int);
    }
}

/// A merged clock names the nodes of both clocks.
pub proof fn merged_names(a: Entries, b: Entries)
    ensures
        forall|id: NodeId| has_entry(a, id) ==> #[trigger] has_entry(merged(a, b), id),
        forall|j: int| 0 <= j < b.len() ==> has_entry(merged(a, b), (#[trigger] b[j]).0),
    decreases b.len(),
{
    if b.len() > 0 {
        merged_names(a, b.drop_last());
        raised_names(merged(a, b.drop_last()), b.last());
        assert forall|j: int| 0 <= j < b.len() implies has_entry(
            merged(a, b),
            (#[trigger] b[j]).0,
        ) by {
            if j < b.len() - 1 {
                assert(b.drop_last()[j] == b[j]);
            }
        }
    }
}

/// Merging entries that a clock has already reached changes nothing.
proof fn merged_dominated(m: Entries, b: Entries, n: int)
    requires
        0 <= n <= b.len(),
        forall|id: NodeId| highest(b, id) <= #[trigger] seq_of(m, id),
        forall|j: int| 0 <= j < b.len() ==> has_entry(m, (#[trigger] b[j]).0),
    ensures
        merged(m, b.take(n)) == m,
    decreases n,
{
    if n > 0 {
        merged_dominated(m, b, n - 1);
        assert(b.take(n).drop_last() =~= b.take(n - 1));
        let last = b[n - 1];
        highest_is_bound(b, last.0);
        assert(last.1 <= seq_of(m, last.0));
        let i = choose|i: int| first_entry(m, last.0, i);
        seq_of_first(m, last.0, i);
    }
}

/// Counting a message moves the clock strictly ahead.
pub proof fn counted_is_after(entries: Entries, id: NodeId)
    requires
        distinct(entries),
        seq_of(entries, id) < u64::MAX,
    ensures
        precedes(entries, counted(entries, id)),
{
    let after = counted(entries, id);
    seq_of_counted(entries, id);
    at_most_iff_pointwise(entries, after);
    at_most_iff_pointwise(after, entries);
    assert(seq_of(after, id) > seq_of(entries, id));
}

/// Of two clocks exactly one holds: they are equal, the first precedes the
/// second, the second precedes the first, or they are concurrent.
pub proof fn clocks_compare_one_way(a: Entries, b: Entries)
    ensures
        ({
            let equal = at_most(a, b) && at_most(b, a);
            let before = precedes(a, b);
            let after = precedes(b, a);
            let concurrent = !at_most(a, b) && !at_most(b, a);
            &&& equal || before || after || concurrent
            &&& !(equal && before) && !(equal && after) && !(equal && concurrent)
            &&& !(before && after) && !(before && concurrent) && !(after && concurrent)
        }),
{
}

/// With one entry per node, the sequence number of a node is that of its entry,
/// and zero where it has none.
pub proof fn entries_are_sequence_numbers(entries: Entries, i: int, id: NodeId)
    requires
        distinct(entries),
    ensures
        0 <= i < entries.len() ==> seq_of(entries, entries[i].0) == entries[i].1,
        (forall|j: int| 0 <= j < entries.len() ==> (#[trigger] entries[j]).0 != id) ==> seq_of(
            entries,
            id,
        ) == 0,
{
    if 0 <= i < entries.len() {
        assert(first_entry(entries, entries[i].0, i));
        seq_of_first(entries, entries[i].0, i);
    }
    if forall|j: int| 0 <= j < entries.len() ==> (#[trigger] entries[j]).0 != id {
        seq_of_absent(entries, id);
    }
}

/// With one entry per node, a clock precedes another one exactly where it has
/// at most its sequence number for every node, and less for some node.
pub proof fn precedes_iff_pointwise(a: Entries, b: Entries)
    requires
        distinct(a),
        distinct(b),
    ensures
        precedes(a, b) <==> (forall|id: NodeId| #[trigger] seq_of(a, id) <= seq_of(b, id)) && (
        exists|id: NodeId| #[trigger] seq_of(a, id) < seq_of(b, id)),
{
    at_most_iff_pointwise(a, b);
    at_most_iff_pointwise(b, a);
    if precedes(a, b) {
        assert(!at_most(b, a));
        let id = choose|id: NodeId| !(#[trigger] seq_of(b, id) <= seq_of(a, id));
        assert(seq_of(a, id) < seq_of(b, id));
    }
    if exists|id: NodeId| #[trigger] seq_of(a, id) < seq_of(b, id) {
        let id = choose|id: NodeId| #[trigger] seq_of(a, id) < seq_of(b, id);
        assert(!(seq_of(b, id) <= seq_of(a, id)));
        assert(!at_most(b, a));
    }
}

/// A merged clock has the greater of both sequence numbers for every node.
pub proof fn merged_has_the_greater(a: Entries, b: Entries, id: NodeId)
    requires
        distinct(b),
    ensures
        seq_of(merged(a, b), id) >= seq_of(a, id),
        seq_of(merged(a, b), id) >= seq_of(b, id),
        seq_of(merged(a, b), id) == seq_of(a, id) || seq_of(merged(a, b), id) == seq_of(b, id),
{
    seq_of_merged(a, b);
    highest_is_seq(b, id);
}

/// What a clock shows is what it holds: all its entries, in order.
pub proof fn clocks_show_their_entries(clock: Clock)
    ensures
        clock@.len() == clock.inner@.len(),
        forall|i: int|
            0 <= i < clock.inner@.len() ==> (#[trigger] clock@[i]).0 == clock.inner@[i].0
                && clock@[i].1 == clock.inner@[i].1,
{
}

} // verus!
