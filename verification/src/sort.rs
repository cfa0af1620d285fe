//! Texts in alphabetical order.

use crate::text::texts;
use vstd::prelude::*;
use vstd::seq_lib::{to_multiset_build, to_multiset_insert};

verus! {

/// Whether `k` is where `a` shows to come before `b`: up to there they are the
/// same, and there `a` ends or has the smaller character.
pub open spec fn smaller_at(a: Seq<char>, b: Seq<char>, k: int) -> bool {
    &&& 0 <= k < b.len()
    &&& k <= a.len()
    &&& forall|j: int| 0 <= j < k ==> a[j] == b[j]
    &&& k < a.len() ==> a[k] < b[k]
}

/// Whether `a` comes before `b`.
pub open spec fn text_before(a: Seq<char>, b: Seq<char>) -> bool {
    exists|k: int| smaller_at(a, b, k)
}

/// Decides [`text_before`].
pub fn is_text_before(a: &str, b: &str) -> (yes: bool)
    ensures
        yes == text_before(a@, b@),
{
    let n = a.unicode_len();
    let m = b.unicode_len();
    let mut k: usize = 0;
    while k < n && k < m && a.get_char(k) == b.get_char(k)
        invariant
            n == a@.len(),
            m == b@.len(),
            k <= n,
            k <= m,
            forall|j: int| 0 <= j < k ==> a@[j] == b@[j],
        decreases n - k,
    {
        k = k + 1;
    }
    let yes = k < m && (k == n || a.get_char(k) < b.get_char(k));
    proof {
        if yes {
            assert(smaller_at(a@, b@, k as int));
        } else if text_before(a@, b@) {
            let l = choose|l: int| smaller_at(a@, b@, l);
            if l < k {
                assert(a@[l] == b@[l]);
            } else if k < l {
                assert(a@[k as int] == b@[k as int]);
            }
        }
    }
    yes
}

/// Of two different texts, one comes before the other.
pub proof fn text_order_is_total(a: Seq<char>, b: Seq<char>)
    ensures
        a == b || text_before(a, b) || text_before(b, a),
{
    let k = common_prefix(a, b, 0);
    if k < b.len() && (k == a.len() || a[k] < b[k]) {
        assert(smaller_at(a, b, k));
    } else if k < a.len() {
        assert(smaller_at(b, a, k));
    } else {
        assert(a =~= b);
    }
}

proof fn common_prefix(a: Seq<char>, b: Seq<char>, from: int) -> (k: int)
    requires
        0 <= from <= a.len(),
        from <= b.len(),
        forall|j: int| 0 <= j < from ==> a[j] == b[j],
    ensures
        0 <= k <= a.len(),
        k <= b.len(),
        forall|j: int| 0 <= j < k ==> a[j] == b[j],
        k < a.len() && k < b.len() ==> a[k] != b[k],
    decreases a.len() - from,
{
    if from < a.len() && from < b.len() && a[from] == b[from] {
        common_prefix(a, b, from + 1)
    } else {
        from
    }
}

/// What comes before a text comes before what that comes before.
pub proof fn text_order_is_transitive(a: Seq<char>, b: Seq<char>, c: Seq<char>)
    requires
        text_before(a, b),
        text_before(b, c),
    ensures
        text_before(a, c),
{
    let i = choose|k: int| smaller_at(a, b, k);
    let j = choose|k: int| smaller_at(b, c, k);
    let k = if i < j { i } else { j };
    assert(smaller_at(a, c, k));
}

/// Whether no text comes before an earlier one.
pub open spec fn is_sorted(list: Seq<Seq<char>>) -> bool {
    forall|i: int, j: int|
        0 <= i < j < list.len() ==> !text_before(#[trigger] list[j], #[trigger] list[i])
}

/// Whether a list is another one in order.
pub open spec fn is_sorted_of(list: Seq<Seq<char>>, all: Seq<Seq<char>>) -> bool {
    &&& is_sorted(list)
    &&& list.to_multiset() == all.to_multiset()
}

/// Puts texts in order.
pub fn sort_texts(list: Vec<String>) -> (sorted: Vec<String>)
    ensures
        is_sorted_of(texts(sorted@), texts(list@)),
{
    let mut sorted: Vec<String> = Vec::new();
    let ghost all = texts(list@);
    let mut i: usize = 0;
    assert(texts(sorted@) =~= all.take(0));
    while i < list.len()
        invariant
            i <= list@.len(),
            all == texts(list@),
            is_sorted(texts(sorted@)),
            texts(sorted@).to_multiset() == all.take(i as int).to_multiset(),
        decreases list@.len() - i,
    {
        let text = list[i].clone();
        let ghost before = texts(sorted@);
        let at = position_for(&sorted, &text);
        sorted.insert(at, text);
        proof {
            assert(texts(sorted@) =~= before.insert(at as int, text@));
            before.insert_ensures(at as int, text@);
            inserting_keeps_sorted(before, at as int, text@);
            assert(all.take(i + 1) =~= all.take(i as int).push(text@));
            to_multiset_build(all.take(i as int), text@);
            to_multiset_insert(before, at as int, text@);
        }
        i = i + 1;
    }
    assert(all.take(all.len() as int) =~= all);
    sorted
}

/// Where a text goes in an ordered list: behind all that do not come after it.
fn position_for(sorted: &Vec<String>, text: &String) -> (at: usize)
    requires
        is_sorted(texts(sorted@)),
    ensures
        at <= sorted@.len(),
        forall|j: int| 0 <= j < at ==> !text_before(text@, #[trigger] texts(sorted@)[j]),
        forall|j: int|
            at <= j < sorted@.len() ==> !text_before(#[trigger] texts(sorted@)[j], text@),
{
    let ghost all = texts(sorted@);
    let mut at: usize = 0;
    while at < sorted.len() && !is_text_before(text.as_str(), sorted[at].as_str())
        invariant
            at <= sorted@.len(),
            all == texts(sorted@),
            forall|j: int| 0 <= j < at ==> !text_before(text@, #[trigger] all[j]),
        decreases sorted@.len() - at,
    {
        assert(all[at as int] == sorted@[at as int]@);
        at = at + 1;
    }
    proof {
        if at < sorted@.len() {
            assert(all[at as int] == sorted@[at as int]@);
            assert forall|j: int| at <= j < sorted@.len() implies !text_before(
                #[trigger] all[j],
                text@,
            ) by {
                if text_before(all[j], text@) {
                    text_order_is_transitive(all[j], text@, all[at as int]);
                    if j == at {
                        let k = choose|k: int| smaller_at(all[j], all[j], k);
                    }
                }
            }
        }
    }
    at
}

proof fn inserting_keeps_sorted(list: Seq<Seq<char>>, at: int, text: Seq<char>)
    requires
        is_sorted(list),
        0 <= at <= list.len(),
        forall|j: int| 0 <= j < at ==> !text_before(text, #[trigger] list[j]),
        forall|j: int| at <= j < list.len() ==> !text_before(#[trigger] list[j], text),
    ensures
        is_sorted(list.insert(at, text)),
{
    let after = list.insert(at, text);
    list.insert_ensures(at, text);
    assert forall|i: int, j: int| 0 <= i < j < after.len() implies !text_before(
        #[trigger] after[j],
        #[trigger] after[i],
    ) by {
        let a = if i < at { i } else { i - 1 };
        let b = if j < at { j } else { j - 1 };
        if i != at {
            assert(after[i] == list[a]);
        }
        if j != at {
            assert(after[j] == list[b]);
        }
    }
}

/// There is one way to put texts in order.
pub proof fn sorted_is_unique(a: Seq<Seq<char>>, b: Seq<Seq<char>>)
    requires
        is_sorted(a),
        is_sorted(b),
        a.to_multiset() == b.to_multiset(),
    ensures
        a == b,
    decreases a.len(),
{
    a.to_multiset_ensures();
    b.to_multiset_ensures();
    assert(a.len() == b.len());
    if a.len() == 0 {
        assert(a =~= b);
    } else {
        let x = a[0];
        let y = b[0];
        assert(a.contains(x) && b.contains(y));
        assert(b.to_multiset().count(x) > 0 && a.to_multiset().count(y) > 0);
        assert(b.contains(x) && a.contains(y));
        let i = choose|i: int| 0 <= i < b.len() && b[i] == x;
        let j = choose|j: int| 0 <= j < a.len() && a[j] == y;
        text_order_is_total(x, y);
        assert(x == y) by {
            if text_before(x, y) {
                assert(!text_before(b[i], b[0]) || i == 0);
            }
            if text_before(y, x) {
                assert(!text_before(a[j], a[0]) || j == 0);
            }
        }
        let rest_a = a.drop_first();
        let rest_b = b.drop_first();
        assert(a =~= seq![x] + rest_a);
        assert(b =~= seq![y] + rest_b);
        assert(rest_a =~= a.remove(0));
        assert(rest_b =~= b.remove(0));
        assert(rest_a.to_multiset() =~= a.to_multiset().remove(x));
        assert(rest_b.to_multiset() =~= b.to_multiset().remove(y));
        assert forall|p: int, q: int| 0 <= p < q < rest_a.len() implies !text_before(
            #[trigger] rest_a[q],
            #[trigger] rest_a[p],
        ) by {
            assert(rest_a[q] == a[q + 1] && rest_a[p] == a[p + 1]);
        }
        assert forall|p: int, q: int| 0 <= p < q < rest_b.len() implies !text_before(
            #[trigger] rest_b[q],
            #[trigger] rest_b[p],
        ) by {
            assert(rest_b[q] == b[q + 1] && rest_b[p] == b[p + 1]);
        }
        sorted_is_unique(rest_a, rest_b);
    }
}

/// Texts compare by the first character in which they differ, and a text comes
/// before every longer one that starts with it. No text comes before itself.
pub proof fn first_character_decides(
    start: Seq<char>,
    a: char,
    b: char,
    rest_a: Seq<char>,
    rest_b: Seq<char>,
)
    ensures
        a < b ==> text_before(start.push(a) + rest_a, start.push(b) + rest_b),
        text_before(start, start.push(b) + rest_b),
        !text_before(start, start),
{
    let x = start.push(a) + rest_a;
    let y = start.push(b) + rest_b;
    if a < b {
        assert(smaller_at(x, y, start.len() as int));
    }
    assert(smaller_at(start, y, start.len() as int));
    if text_before(start, start) {
        let k = choose|k: int| smaller_at(start, start, k);
    }
}

/// What is put in order is what was there, as often as it was there, and every
/// text stands before those that come after it.
pub proof fn sorting_keeps_all_texts(list: Seq<Seq<char>>, all: Seq<Seq<char>>, i: int, j: int)
    requires
        is_sorted_of(list, all),
    ensures
        list.to_multiset() == all.to_multiset(),
        list.len() == all.len(),
        0 <= i < list.len() && 0 <= j < list.len() && text_before(list[i], list[j]) ==> i < j,
{
    list.to_multiset_ensures();
    all.to_multiset_ensures();
    if 0 <= i < list.len() && 0 <= j < list.len() && text_before(list[i], list[j]) {
        if j < i {
            assert(!text_before(list[i], list[j]));
        } else if i == j {
            first_character_decides(list[i], 'a', 'b', Seq::empty(), Seq::empty());
        }
    }
}

} // verus!
