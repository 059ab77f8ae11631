//! Strict orders, and the dictionary order that a strict order of the items gives
//! to sequences.

use vstd::prelude::*;

verus! {

/// Whether `before` orders any two different items, and orders them one way.
pub open spec fn is_strict_order<A>(before: spec_fn(A, A) -> bool) -> bool {
    &&& forall|x: A| !#[trigger] before(x, x)
    &&& forall|x: A, y: A, z: A| #[trigger]
        before(x, y) && #[trigger] before(y, z) ==> before(x, z)
    &&& forall|x: A, y: A| x == y || #[trigger] before(x, y) || before(y, x)
}

/// Whether `a` and `b` agree on their first `i` items and the item at `i` puts
/// `a` first: it is before the one of `b`, or `a` has none.
pub open spec fn parts_at<A>(
    a: Seq<A>,
    b: Seq<A>,
    before: spec_fn(A, A) -> bool,
    i: int,
) -> bool {
    &&& 0 <= i <= a.len()
    &&& i < b.len()
    &&& forall|j: int| 0 <= j < i ==> a[j] == b[j]
    &&& i == a.len() || before(a[i], b[i])
}

/// The dictionary order of sequences.
pub open spec fn seq_before<A>(a: Seq<A>, b: Seq<A>, before: spec_fn(A, A) -> bool) -> bool {
    exists|i: int| parts_at(a, b, before, i)
}

/// The dictionary order of a strict order.
pub open spec fn dictionary<A>(before: spec_fn(A, A) -> bool) -> spec_fn(Seq<A>, Seq<A>) -> bool {
    |a: Seq<A>, b: Seq<A>| seq_before(a, b, before)
}

/// The dictionary order of a strict order is a strict order.
pub proof fn law_dictionary_is_strict<A>(before: spec_fn(A, A) -> bool)
    requires
        is_strict_order(before),
    ensures
        is_strict_order(dictionary(before)),
{
    let dict = dictionary(before);
    assert forall|a: Seq<A>| !#[trigger] dict(a, a) by {
        assert forall|i: int| !parts_at(a, a, before, i) by {}
    }
    assert forall|a: Seq<A>, b: Seq<A>, c: Seq<A>| #[trigger]
        dict(a, b) && #[trigger] dict(b, c) implies dict(a, c) by {
        let i = choose|i: int| parts_at(a, b, before, i);
        let j = choose|j: int| parts_at(b, c, before, j);
        assert(parts_at(a, c, before, if i < j { i } else { j }));
    }
    assert forall|a: Seq<A>, b: Seq<A>| a == b || #[trigger] dict(a, b) || dict(b, a) by {
        if a != b {
            lemma_first_difference(a, b, 0);
            let i = choose|i: int| first_difference(a, b, i);
            assert(parts_at(a, b, before, i) || parts_at(b, a, before, i));
        }
    }
}

/// Whether `i` is the first place where `a` and `b` differ.
spec fn first_difference<A>(a: Seq<A>, b: Seq<A>, i: int) -> bool {
    &&& 0 <= i <= a.len()
    &&& i <= b.len()
    &&& forall|j: int| 0 <= j < i ==> a[j] == b[j]
    &&& i < a.len() || i < b.len()
    &&& i < a.len() && i < b.len() ==> a[i] != b[i]
}

proof fn lemma_first_difference<A>(a: Seq<A>, b: Seq<A>, from: int)
    requires
        a != b,
        0 <= from <= a.len(),
        from <= b.len(),
        forall|j: int| 0 <= j < from ==> a[j] == b[j],
    ensures
        exists|i: int| first_difference(a, b, i),
    decreases a.len() - from,
{
    if from < a.len() && from < b.len() && a[from] == b[from] {
        lemma_first_difference(a, b, from + 1);
    } else {
        if from == a.len() && from == b.len() {
            assert(a =~= b);
        }
        assert(first_difference(a, b, from));
    }
}

/// Whether the items of `s` stand in order, none of them twice.
pub open spec fn is_sorted<A>(s: Seq<A>, before: spec_fn(A, A) -> bool) -> bool {
    forall|i: int, j: int| 0 <= i < j < s.len() ==> before(#[trigger] s[i], #[trigger] s[j])
}

/// There is only one way to put a set of items in order.
pub proof fn law_sorted_unique<A>(a: Seq<A>, b: Seq<A>, before: spec_fn(A, A) -> bool)
    requires
        is_strict_order(before),
        is_sorted(a, before),
        is_sorted(b, before),
        forall|x: A| #[trigger] a.contains(x) <==> b.contains(x),
    ensures
        a == b,
    decreases a.len(),
{
    if a.len() == 0 {
        if b.len() > 0 {
            assert(b.contains(b[0]));
            assert(a.contains(b[0]));
        }
        assert(a =~= b);
    } else {
        let x = a.last();
        assert(a.contains(x));
        let k = choose|k: int| 0 <= k < b.len() && b[k] == x;
        let y = b.last();
        assert(b.contains(y));
        assert(a.contains(y));
        let l = choose|l: int| 0 <= l < a.len() && a[l] == y;
        assert(!before(x, x));
        if k < b.len() - 1 {
            assert(before(b[k], b[b.len() - 1]));
            if l < a.len() - 1 {
                assert(before(a[l], a[a.len() - 1]));
            }
        }
        assert(x == y);
        let (c, d) = (a.drop_last(), b.drop_last());
        assert forall|z: A| #[trigger] c.contains(z) <==> d.contains(z) by {
            lemma_without_last(a, before, z);
            lemma_without_last(b, before, z);
            assert(a.contains(z) <==> b.contains(z));
        }
        law_sorted_unique(c, d, before);
        assert(a =~= c.push(x));
        assert(b =~= d.push(y));
    }
}

proof fn lemma_without_last<A>(s: Seq<A>, before: spec_fn(A, A) -> bool, z: A)
    requires
        s.len() > 0,
        is_strict_order(before),
        is_sorted(s, before),
    ensures
        s.drop_last().contains(z) <==> s.contains(z) && z != s.last(),
{
    let c = s.drop_last();
    assert(!before(z, z));
    if c.contains(z) {
        let i = choose|i: int| 0 <= i < c.len() && c[i] == z;
        assert(s[i] == z);
        assert(before(s[i], s[s.len() - 1]));
    }
    if s.contains(z) && z != s.last() {
        let i = choose|i: int| 0 <= i < s.len() && s[i] == z;
        assert(c[i] == z);
    }
}

/// The order of bytes by their value.
pub open spec fn byte_order() -> spec_fn(u8, u8) -> bool {
    |x: u8, y: u8| x < y
}

/// Whether the bytes `a` come before the bytes `b` in the dictionary.
pub fn bytes_before(a: &[u8], b: &[u8]) -> (before: bool)
    ensures
        before == seq_before(a@, b@, byte_order()),
{
    let mut i: usize = 0;
    while i < a.len() && i < b.len() && a[i] == b[i]
        invariant
            i <= a.len(),
            i <= b.len(),
            forall|j: int| 0 <= j < i ==> a@[j] == b@[j],
        decreases a.len() - i,
    {
        i += 1;
    }
    let before: bool = i < b.len() && (i == a.len() || a[i] < b[i]);
    proof {
        if before {
            assert(parts_at(a@, b@, byte_order(), i as int));
        } else if seq_before(a@, b@, byte_order()) {
            let k = choose|k: int| parts_at(a@, b@, byte_order(), k);
            assert(k <= i);
            assert(false);
        }
    }
    before
}

/// Whether `a` and `b` are the same bytes.
pub fn same_bytes(a: &[u8], b: &[u8]) -> (same: bool)
    ensures
        same == (a@ == b@),
{
    if a.len() != b.len() {
        return false;
    }
    let mut i: usize = 0;
    while i < a.len()
        invariant
            i <= a.len(),
            a.len() == b.len(),
            forall|j: int| 0 <= j < i ==> a@[j] == b@[j],
        decreases a.len() - i,
    {
        if a[i] != b[i] {
            return false;
        }
        i += 1;
    }
    assert(a@ =~= b@);
    true
}

} // verus!
