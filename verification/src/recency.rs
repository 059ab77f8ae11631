//! The order in which ignored directories are shown: the one with the latest activity
//! first, and of those with activity at the same time the one known longer first.

use crate::state::IgnoredDir;
use vstd::prelude::*;

verus! {

/// The order of the entries' numbers, by time and then by number.
pub open spec fn recency(entries: Seq<(Seq<char>, u64)>) -> spec_fn(int, int) -> bool {
    |i: int, j: int| entries[i].1 > entries[j].1 || (entries[i].1 == entries[j].1 && i < j)
}

/// Whether `order` holds the first `n` numbers of entries, the most recent first.
pub open spec fn is_recency_order(
    entries: Seq<(Seq<char>, u64)>,
    n: int,
    order: Seq<int>,
) -> bool {
    &&& crate::order::is_sorted(order, recency(entries))
    &&& forall|i: int| #[trigger] order.contains(i) <==> 0 <= i < n
}

/// The numbers of the entries, the most recent first.
pub open spec fn recency_order(entries: Seq<(Seq<char>, u64)>) -> Seq<int> {
    choose|order: Seq<int>| is_recency_order(entries, entries.len() as int, order)
}

/// The names of the entries, the most recent first.
pub open spec fn names_by_recency(entries: Seq<(Seq<char>, u64)>) -> Seq<Seq<char>> {
    recency_order(entries).map_values(|i: int| entries[i].0)
}

proof fn lemma_recency(entries: Seq<(Seq<char>, u64)>)
    ensures
        crate::order::is_strict_order(recency(entries)),
{
}

proof fn lemma_recency_unique(entries: Seq<(Seq<char>, u64)>, a: Seq<int>, b: Seq<int>)
    requires
        is_recency_order(entries, entries.len() as int, a),
        is_recency_order(entries, entries.len() as int, b),
    ensures
        a == b,
{
    lemma_recency(entries);
    assert forall|i: int| #[trigger] a.contains(i) <==> b.contains(i) by {}
    crate::order::law_sorted_unique(a, b, recency(entries));
}

/// Entering number `n` behind the entries that are not older.
proof fn lemma_recency_insert(
    entries: Seq<(Seq<char>, u64)>,
    n: int,
    order: Seq<int>,
    p: int,
)
    requires
        0 <= n < entries.len(),
        is_recency_order(entries, n, order),
        0 <= p <= order.len(),
        forall|q: int| 0 <= q < p ==> entries[#[trigger] order[q]].1 >= entries[n].1,
        p < order.len() ==> entries[order[p]].1 < entries[n].1,
    ensures
        is_recency_order(entries, n + 1, order.insert(p, n)),
{
    let after = order.insert(p, n);
    let before = recency(entries);
    assert forall|q: int| 0 <= q < order.len() implies 0 <= #[trigger] order[q] < n by {
        assert(order.contains(order[q]));
    }
    assert forall|q: int| p <= q < order.len() implies entries[#[trigger] order[q]].1
        < entries[n].1 by {
        if p < q {
            assert(before(order[p], order[q]));
        }
    }
    assert forall|i: int, j: int| 0 <= i < j < after.len() implies before(
        #[trigger] after[i],
        #[trigger] after[j],
    ) by {
        let k = if i < p { i } else { i - 1 };
        let l = if j < p { j } else { j - 1 };
        if i != p && j != p {
            assert(after[i] == order[k] && after[j] == order[l]);
            assert(before(order[k], order[l]));
        } else if i == p {
            assert(after[j] == order[l]);
        } else {
            assert(after[i] == order[k]);
        }
    }
    assert forall|i: int| #[trigger] after.contains(i) <==> 0 <= i < n + 1 by {
        if after.contains(i) {
            let x = choose|x: int| 0 <= x < after.len() && after[x] == i;
            if x != p {
                assert(after[x] == order[if x < p { x } else { x - 1 }]);
            }
        }
        if 0 <= i < n {
            assert(order.contains(i));
            let y = choose|y: int| 0 <= y < order.len() && order[y] == i;
            assert(after[if y < p { y } else { y + 1 }] == i);
        } else if i == n {
            assert(after[p] == i);
        }
    }
}

/// The place of an entry of the given time among those from `from` on.
proof fn lemma_recency_place(
    entries: Seq<(Seq<char>, u64)>,
    order: Seq<int>,
    time: u64,
    from: int,
) -> (p: int)
    requires
        0 <= from <= order.len(),
        forall|q: int| 0 <= q < from ==> entries[#[trigger] order[q]].1 >= time,
    ensures
        from <= p <= order.len(),
        forall|q: int| 0 <= q < p ==> entries[#[trigger] order[q]].1 >= time,
        p < order.len() ==> entries[order[p]].1 < time,
    decreases order.len() - from,
{
    if from < order.len() && entries[order[from]].1 >= time {
        lemma_recency_place(entries, order, time, from + 1)
    } else {
        from
    }
}

proof fn lemma_recency_exists(entries: Seq<(Seq<char>, u64)>, n: int)
    requires
        0 <= n <= entries.len(),
    ensures
        exists|order: Seq<int>| is_recency_order(entries, n, order),
    decreases n,
{
    if n == 0 {
        assert(is_recency_order(entries, 0, Seq::empty()));
    } else {
        let k = n - 1;
        lemma_recency_exists(entries, k);
        let order = choose|order: Seq<int>| is_recency_order(entries, k, order);
        let p = lemma_recency_place(entries, order, entries[k].1, 0);
        lemma_recency_insert(entries, k, order, p);
    }
}

/// Every ignored directory is shown once, and one with later activity stands before one
/// with earlier activity.
pub proof fn law_latest_activity_first(entries: Seq<(Seq<char>, u64)>)
    ensures
        is_recency_order(entries, entries.len() as int, recency_order(entries)),
{
    lemma_recency_exists(entries, entries.len() as int);
}

/// The ignored directories are shown by their names, each as often as it is entered, the
/// one with the latest activity first; of two with activity at the same time the one that
/// was entered first.
pub proof fn law_names_by_recency(entries: Seq<(Seq<char>, u64)>)
    ensures
        recency_order(entries).len() == entries.len(),
        names_by_recency(entries).len() == entries.len(),
        forall|k: int|
            0 <= k < entries.len() ==> 0 <= #[trigger] recency_order(entries)[k] < entries.len()
                && names_by_recency(entries)[k] == entries[recency_order(entries)[k]].0,
        forall|i: int| 0 <= i < entries.len() ==> #[trigger] recency_order(entries).contains(i),
        forall|k: int, l: int|
            0 <= k < l < entries.len() ==> {
                let a = #[trigger] recency_order(entries)[k];
                let b = #[trigger] recency_order(entries)[l];
                entries[a].1 > entries[b].1 || entries[a].1 == entries[b].1 && a < b
            },
{
    let order = recency_order(entries);
    law_latest_activity_first(entries);
    let before = recency(entries);
    assert forall|k: int, l: int| 0 <= k < order.len() && 0 <= l < order.len() && k
        != l implies order[k] != order[l] by {
        if k < l {
            assert(before(order[k], order[l]));
        } else {
            assert(before(order[l], order[k]));
        }
    }
    assert(order.no_duplicates());
    order.unique_seq_to_set();
    let numbers = Seq::new(entries.len(), |i: int| i);
    assert(numbers.no_duplicates());
    numbers.unique_seq_to_set();
    assert forall|i: int| #[trigger] order.to_set().contains(i) == numbers.to_set().contains(i) by {
        assert(order.contains(i) <==> 0 <= i < entries.len());
        if 0 <= i < entries.len() {
            assert(numbers[i] == i);
        }
    }
    assert(order.to_set() =~= numbers.to_set());
    assert forall|k: int| 0 <= k < entries.len() implies 0 <= #[trigger] order[k] < entries.len()
        && names_by_recency(entries)[k] == entries[order[k]].0 by {
        assert(order.contains(order[k]));
    }
    assert forall|k: int, l: int| 0 <= k < l < entries.len() implies ({
        let a = #[trigger] order[k];
        let b = #[trigger] order[l];
        entries[a].1 > entries[b].1 || entries[a].1 == entries[b].1 && a < b
    }) by {
        assert(before(order[k], order[l]));
    }
}

/// The numbers of an order in mathematical form.
pub open spec fn as_order(order: Seq<usize>) -> Seq<int> {
    order.map_values(|i: usize| i as int)
}

/// The numbers of the directories, the one with the latest activity first.
pub(crate) fn order_by_recency(dirs: &Vec<IgnoredDir>) -> (order: Vec<usize>)
    ensures
        as_order(order@) == recency_order(crate::state::entries_of(dirs@)),
        forall|i: int| 0 <= i < order@.len() ==> (#[trigger] order@[i]) < dirs@.len(),
{
    let ghost entries = crate::state::entries_of(dirs@);
    let mut order: Vec<usize> = Vec::new();
    let mut n: usize = 0;
    assert(is_recency_order(entries, 0, as_order(order@)));
    while n < dirs.len()
        invariant
            n <= dirs@.len(),
            entries == crate::state::entries_of(dirs@),
            is_recency_order(entries, n as int, as_order(order@)),
            forall|i: int| 0 <= i < order@.len() ==> (#[trigger] order@[i]) < n,
        decreases dirs@.len() - n,
    {
        let ghost before = as_order(order@);
        let mut p: usize = 0;
        while p < order.len() && dirs[order[p]].time >= dirs[n].time
            invariant
                n < dirs@.len(),
                entries == crate::state::entries_of(dirs@),
                before == as_order(order@),
                p <= order@.len(),
                forall|i: int| 0 <= i < order@.len() ==> (#[trigger] order@[i]) < n,
                forall|q: int| 0 <= q < p ==> entries[#[trigger] before[q]].1 >= entries[n as int].1,
            decreases order@.len() - p,
        {
            assert(before[p as int] == order@[p as int]);
            p += 1;
        }
        proof {
            if p < order@.len() {
                assert(before[p as int] == order@[p as int]);
            }
            lemma_recency_insert(entries, n as int, before, p as int);
        }
        order.insert(p, n);
        assert(as_order(order@) =~= before.insert(p as int, n as int));
        n += 1;
    }
    proof {
        law_latest_activity_first(entries);
        lemma_recency_unique(entries, as_order(order@), recency_order(entries));
    }
    order
}

} // verus!
