//! File paths as raw bytes, read the way Unix reads them.
//!
//! Two paths are the same when they have the same components: repeated and
//! trailing separators and inner `.` segments do not count. The text of a path
//! keeps them.

use crate::order::{bytes_before, same_bytes};
use vstd::prelude::*;
use vstd::slice::slice_subrange;

verus! {

/// The byte between two segments of a path.
pub const SEPARATOR: u8 = 0x2f;

/// The byte of the segment that names the current directory.
pub const DOT: u8 = 0x2e;

/// Where the segment of `p` that starts at `from` ends.
pub open spec fn segment_end(p: Seq<u8>, from: int) -> int
    decreases p.len() - from,
{
    if from >= p.len() || p[from] == SEPARATOR {
        from
    } else {
        segment_end(p, from + 1)
    }
}

/// Whether the segment `[start, end)` is empty or a lone dot.
pub open spec fn is_void_segment(p: Seq<u8>, start: int, end: int) -> bool {
    start == end || (end == start + 1 && p[start] == DOT)
}

/// The bounds of the segments of `p` from `from` on, without the void ones.
pub open spec fn body_spans(p: Seq<u8>, from: int) -> Seq<(int, int)>
    decreases p.len() + 1 - from,
{
    if from < 0 || from >= p.len() {
        Seq::empty()
    } else {
        proof {
            lemma_segment_end(p, from);
        }
        let end = segment_end(p, from);
        let rest = body_spans(p, end + 1);
        if is_void_segment(p, from, end) {
            rest
        } else {
            seq![(from, end)] + rest
        }
    }
}

/// Whether `p` starts with a one-byte component: the root, or a leading dot.
pub open spec fn has_lead(p: Seq<u8>) -> bool {
    p.len() > 0 && (p[0] == SEPARATOR || (p[0] == DOT && (p.len() == 1 || p[1] == SEPARATOR)))
}

/// The bounds of the components of `p`.
pub open spec fn spans(p: Seq<u8>) -> Seq<(int, int)> {
    if has_lead(p) {
        seq![(0, 1)] + body_spans(p, 1)
    } else {
        body_spans(p, 0)
    }
}

/// The components of `p`, each as its text: `/` for the root, `.` for a leading
/// dot, `..` for the parent, and the name of a file or directory otherwise.
pub open spec fn components(p: Seq<u8>) -> Seq<Seq<u8>> {
    spans(p).map_values(|s: (int, int)| p.subrange(s.0, s.1))
}

/// The text of `p` from its component number `k` to its last one.
pub open spec fn tail_text(p: Seq<u8>, k: int) -> Seq<u8> {
    if k >= spans(p).len() {
        Seq::empty()
    } else {
        p.subrange(spans(p)[k].0, spans(p).last().1)
    }
}

/// What is left of `p` below `base`, if the components of `base` lead those of `p`.
pub open spec fn stripped(p: Seq<u8>, base: Seq<u8>) -> Option<Seq<u8>> {
    if components(base).is_prefix_of(components(p)) {
        Some(tail_text(p, components(base).len() as int))
    } else {
        None
    }
}

/// `p` relative to `base`, or `p` itself where it does not lie below `base`.
pub open spec fn relative_to(p: Seq<u8>, base: Seq<u8>) -> Seq<u8> {
    match stripped(p, base) {
        Some(rest) => rest,
        None => p,
    }
}

/// Whether `p` starts at the root.
pub open spec fn is_absolute(p: Seq<u8>) -> bool {
    p.len() > 0 && p[0] == SEPARATOR
}

/// The path that `rest` names when it is read in the directory `base`: one that starts at
/// the root stands for itself, any other goes behind `base` and a separator.
pub open spec fn joined_path(base: Seq<u8>, rest: Seq<u8>) -> Seq<u8> {
    if is_absolute(rest) {
        rest
    } else if base.len() == 0 || base.last() == SEPARATOR {
        base + rest
    } else {
        base.push(SEPARATOR) + rest
    }
}

pub proof fn lemma_segment_end(p: Seq<u8>, from: int)
    requires
        0 <= from <= p.len(),
    ensures
        from <= segment_end(p, from) <= p.len(),
        segment_end(p, from) < p.len() ==> p[segment_end(p, from)] == SEPARATOR,
        forall|i: int| from <= i < segment_end(p, from) ==> p[i] != SEPARATOR,
    decreases p.len() - from,
{
    if from < p.len() && p[from] != SEPARATOR {
        lemma_segment_end(p, from + 1);
    }
}

/// A segment ends no later than any separator, or the end, at or after its start.
proof fn lemma_segment_end_at_most(p: Seq<u8>, from: int, stop: int)
    requires
        0 <= from <= stop <= p.len(),
        stop < p.len() ==> p[stop] == SEPARATOR,
    ensures
        segment_end(p, from) <= stop,
    decreases stop - from,
{
    if from < stop && p[from] != SEPARATOR {
        lemma_segment_end_at_most(p, from + 1, stop);
    }
}

/// Cutting `p` at a separator, or at its end, leaves the segments before it alone.
proof fn lemma_segment_end_of_slice(p: Seq<u8>, a: int, b: int, from: int)
    requires
        0 <= a <= from <= b <= p.len(),
        b < p.len() ==> p[b] == SEPARATOR,
    ensures
        segment_end(p.subrange(a, b), from - a) == segment_end(p, from) - a,
    decreases b - from,
{
    if from < b && p[from] != SEPARATOR {
        lemma_segment_end_of_slice(p, a, b, from + 1);
    }
}

/// Whether `s` bounds a component of `p` that is no lead.
pub open spec fn is_body_span(p: Seq<u8>, s: (int, int)) -> bool {
    &&& 0 <= s.0 < s.1 <= p.len()
    &&& s.1 < p.len() ==> p[s.1] == SEPARATOR
    &&& forall|i: int| s.0 <= i < s.1 ==> p[i] != SEPARATOR
    &&& !is_void_segment(p, s.0, s.1)
}

proof fn lemma_body_spans(p: Seq<u8>, from: int)
    requires
        0 <= from,
    ensures
        forall|i: int|
            0 <= i < body_spans(p, from).len() ==> is_body_span(p, #[trigger] body_spans(p, from)[i])
                && from <= body_spans(p, from)[i].0,
        forall|i: int, j: int|
            0 <= i < j < body_spans(p, from).len() ==> (#[trigger] body_spans(p, from)[i]).1
                < (#[trigger] body_spans(p, from)[j]).0,
    decreases p.len() + 1 - from,
{
    if from < p.len() {
        lemma_segment_end(p, from);
        let end = segment_end(p, from);
        let rest = body_spans(p, end + 1);
        let all = body_spans(p, from);
        lemma_body_spans(p, end + 1);
        if !is_void_segment(p, from, end) {
            assert forall|i: int| 0 <= i < all.len() implies is_body_span(p, #[trigger] all[i])
                && from <= all[i].0 by {
                if i > 0 {
                    assert(all[i] == rest[i - 1]);
                }
            }
            assert forall|i: int, j: int| 0 <= i < j < all.len() implies (#[trigger] all[i]).1 < (
            #[trigger] all[j]).0 by {
                assert(all[j] == rest[j - 1]);
                if i > 0 {
                    assert(all[i] == rest[i - 1]);
                }
            }
        }
    }
}

/// Reading on from a component's start gives that component and those after it.
proof fn lemma_body_spans_from(p: Seq<u8>, from: int, k: int)
    requires
        0 <= from,
        0 <= k < body_spans(p, from).len(),
    ensures
        body_spans(p, body_spans(p, from)[k].0) == body_spans(p, from).skip(k),
    decreases p.len() + 1 - from,
{
    lemma_segment_end(p, from);
    let end = segment_end(p, from);
    let rest = body_spans(p, end + 1);
    if is_void_segment(p, from, end) {
        lemma_body_spans_from(p, end + 1, k);
    } else if k > 0 {
        lemma_body_spans_from(p, end + 1, k - 1);
        assert(body_spans(p, from).skip(k) =~= rest.skip(k - 1));
    } else {
        assert(body_spans(p, from).skip(0) =~= body_spans(p, from));
    }
}

/// The components that lie in a slice of `p` are those of the slice read by itself.
proof fn lemma_body_spans_of_slice(p: Seq<u8>, a: int, b: int, from: int)
    requires
        0 <= a <= from,
        a <= b <= p.len(),
        b < p.len() ==> p[b] == SEPARATOR,
        body_spans(p, from).len() > 0 ==> body_spans(p, from).last().1 == b,
    ensures
        body_spans(p.subrange(a, b), from - a) == body_spans(p, from).map_values(
            |s: (int, int)| (s.0 - a, s.1 - a),
        ),
    decreases b + 1 - from,
{
    let t = p.subrange(a, b);
    let shift = |s: (int, int)| (s.0 - a, s.1 - a);
    lemma_body_spans(p, from);
    if from > b {
        if body_spans(p, from).len() > 0 {
            assert(is_body_span(p, body_spans(p, from).last()));
            assert(false);
        }
        assert(body_spans(t, from - a) =~= body_spans(p, from).map_values(shift));
    } else {
        lemma_segment_end(p, from);
        lemma_segment_end_at_most(p, from, b);
        lemma_segment_end_of_slice(p, a, b, from);
        let end = segment_end(p, from);
        let rest = body_spans(p, end + 1);
        if from < p.len() {
            if !is_void_segment(p, from, end) {
                assert(rest.len() > 0 ==> body_spans(p, from).last() == rest.last());
            }
            lemma_body_spans_of_slice(p, a, b, end + 1);
        }
        assert(body_spans(t, from - a) =~= body_spans(p, from).map_values(shift));
    }
}

proof fn lemma_spans(p: Seq<u8>)
    ensures
        forall|i: int|
            0 <= i < spans(p).len() ==> 0 <= (#[trigger] spans(p)[i]).0 < spans(p)[i].1 <= p.len(),
        forall|i: int|
            1 <= i < spans(p).len() ==> is_body_span(p, #[trigger] spans(p)[i]),
        forall|i: int, j: int|
            0 <= i < j < spans(p).len() ==> (#[trigger] spans(p)[i]).1 <= (
            #[trigger] spans(p)[j]).0,
        p.len() > 0 ==> spans(p).len() > 0 && spans(p)[0].0 == 0,
        p.len() == 0 ==> spans(p).len() == 0,
{
    lemma_body_spans(p, 0);
    lemma_body_spans(p, 1);
    if p.len() > 0 && !has_lead(p) {
        lemma_segment_end(p, 0);
        if p.len() > 1 {
            assert(segment_end(p, 0) == segment_end(p, 1));
            lemma_segment_end(p, 1);
        }
    }
}

/// What is left below a base, put behind the base, gives the path again: its
/// components are those of the base followed by those of the rest.
pub proof fn law_strip_prefix_splits(p: Seq<u8>, base: Seq<u8>)
    requires
        stripped(p, base) is Some,
    ensures
        components(p) == components(base) + components(stripped(p, base)->0),
{
    let k = components(base).len() as int;
    lemma_tail_components(p, k);
    assert(components(p) =~= components(base) + components(p).skip(k));
}

/// Moves a span `a` bytes to the left.
spec fn shifted(spans: Seq<(int, int)>, a: int) -> Seq<(int, int)> {
    spans.map_values(|s: (int, int)| (s.0 - a, s.1 - a))
}

/// Reading a tail of `p` that starts behind the lead.
proof fn lemma_tail_spans_body(p: Seq<u8>, k: int)
    requires
        0 <= k < spans(p).len(),
        has_lead(p) ==> k > 0,
    ensures
        spans(tail_text(p, k)) == shifted(spans(p).skip(k), spans(p)[k].0),
{
    let lead = if has_lead(p) { 1int } else { 0int };
    let body = body_spans(p, lead);
    let a = spans(p)[k].0;
    let b = spans(p).last().1;
    let t = tail_text(p, k);
    assert(spans(p)[k] == body[k - lead]);
    assert(spans(p).last() == body.last());
    lemma_body_spans(p, lead);
    assert(is_body_span(p, body[k - lead]));
    assert(is_body_span(p, body[body.len() - 1]));
    lemma_body_spans_from(p, lead, k - lead);
    assert(spans(p).skip(k) =~= body.skip(k - lead));
    assert(body_spans(p, a).last() == spans(p).last());
    if k - lead < body.len() - 1 {
        assert(body[k - lead].1 < body[body.len() - 1].0);
    }
    lemma_body_spans_of_slice(p, a, b, a);
    assert(t[0] == p[a]);
    assert(t.len() > 1 ==> t[1] == p[a + 1]);
    assert(!has_lead(t));
}

/// Reading a tail of `p` that starts with the lead.
proof fn lemma_tail_spans_lead(p: Seq<u8>)
    requires
        has_lead(p),
    ensures
        spans(tail_text(p, 0)) == shifted(spans(p), 0),
{
    let body = body_spans(p, 1);
    let b = spans(p).last().1;
    let t = tail_text(p, 0);
    assert(t == p.subrange(0, b));
    if body.len() > 0 {
        lemma_body_spans(p, 1);
        assert(spans(p).last() == body.last());
        assert(is_body_span(p, body[body.len() - 1]));
        lemma_body_spans_of_slice(p, 0, b, 1);
        assert(t[0] == p[0]);
        assert(t.len() > 1 ==> t[1] == p[1]);
    } else {
        assert(b == 1);
        assert(t[0] == p[0]);
        assert(t.len() == 1);
    }
    assert(has_lead(t));
    assert(spans(t) =~= shifted(spans(p), 0));
}

/// The text of a path from one of its components on has the components from there on.
proof fn lemma_tail_components(p: Seq<u8>, k: int)
    requires
        0 <= k <= components(p).len(),
    ensures
        components(tail_text(p, k)) == components(p).skip(k),
{
    let t = tail_text(p, k);
    lemma_spans(p);
    if k == spans(p).len() {
        lemma_spans(t);
        assert(components(t) =~= components(p).skip(k));
    } else {
        let a = spans(p)[k].0;
        let b = spans(p).last().1;
        if has_lead(p) && k == 0 {
            lemma_tail_spans_lead(p);
            assert(spans(p).skip(0) =~= spans(p));
        } else {
            lemma_tail_spans_body(p, k);
        }
        assert(spans(t) == shifted(spans(p).skip(k), a));
        assert forall|i: int| 0 <= i < components(t).len() implies #[trigger] components(t)[i]
            == components(p).skip(k)[i] by {
            let s = spans(p)[i + k];
            assert(spans(t)[i] == (s.0 - a, s.1 - a));
            if i > 0 {
                assert(spans(p)[k].1 <= spans(p)[i + k].0);
            }
            if i + k < spans(p).len() - 1 {
                assert(spans(p)[i + k].1 <= spans(p)[spans(p).len() - 1].0);
            }
            assert(t.subrange(s.0 - a, s.1 - a) =~= p.subrange(s.0, s.1));
            assert(components(t)[i] =~= components(p)[i + k]);
        }
        assert(components(t) =~= components(p).skip(k));
    }
}

/// Reading `p` from a place in its tail `rest`, which starts at `m`.
proof fn lemma_body_spans_behind(p: Seq<u8>, rest: Seq<u8>, m: int, from: int)
    requires
        0 <= m <= p.len(),
        0 <= from,
        rest == p.subrange(m, p.len() as int),
    ensures
        body_spans(p, m + from) == shifted(body_spans(rest, from), -m),
    decreases rest.len() + 1 - from,
{
    if from < rest.len() {
        lemma_segment_end_of_slice(p, m, p.len() as int, m + from);
        lemma_segment_end(rest, from);
        let end = segment_end(rest, from);
        lemma_body_spans_behind(p, rest, m, end + 1);
        assert(is_void_segment(p, m + from, m + end) == is_void_segment(rest, from, end));
    }
    assert(body_spans(p, m + from) =~= shifted(body_spans(rest, from), -m));
}

/// Reading a joined path gives what is in the directory's path, then what is in the rest.
proof fn lemma_body_spans_of_joined(base: Seq<u8>, rest: Seq<u8>, from: int)
    requires
        is_absolute(base),
        !is_absolute(rest),
        0 <= from <= base.len(),
    ensures
        ({
            let p = joined_path(base, rest);
            body_spans(p, from) == body_spans(base, from) + shifted(
                body_spans(rest, 0),
                rest.len() - p.len(),
            )
        }),
    decreases base.len() - from,
{
    let p = joined_path(base, rest);
    let n = base.len() as int;
    let m = p.len() - rest.len();
    let behind = shifted(body_spans(rest, 0), -m);
    assert(rest =~= p.subrange(m, p.len() as int));
    assert(base =~= p.subrange(0, n));
    lemma_body_spans_behind(p, rest, m, 0);
    if from == n {
        if m > n {
            assert(p[n] == SEPARATOR);
            assert(segment_end(p, n) == n);
            assert(body_spans(p, n) == body_spans(p, m));
        }
    } else {
        lemma_segment_end(base, from);
        let end = segment_end(base, from);
        if m == n {
            lemma_segment_end_at_most(base, from, n - 1);
            lemma_segment_end_of_slice(p, 0, n - 1, from);
            lemma_segment_end_of_slice(base, 0, n - 1, from);
            assert(p.subrange(0, n - 1) =~= base.subrange(0, n - 1));
        } else {
            assert(p[n] == SEPARATOR);
            lemma_segment_end_of_slice(p, 0, n, from);
        }
        assert(segment_end(p, from) == end);
        assert(is_void_segment(p, from, end) == is_void_segment(base, from, end));
        if end < n {
            lemma_body_spans_of_joined(base, rest, end + 1);
        } else {
            assert(end + 1 == m);
            assert(body_spans(base, end + 1) =~= Seq::empty());
        }
    }
    assert(body_spans(p, from) =~= body_spans(base, from) + behind);
}

/// The components of a path, but for a leading dot, are those it has behind a separator.
proof fn lemma_body_components(p: Seq<u8>)
    requires
        !is_absolute(p),
    ensures
        body_spans(p, 0) == (if has_lead(p) {
            spans(p).skip(1)
        } else {
            spans(p)
        }),
{
    if has_lead(p) {
        if p.len() > 1 {
            assert(segment_end(p, 1) == 1);
            assert(body_spans(p, 1) == body_spans(p, 2));
        }
        assert(segment_end(p, 0) == segment_end(p, 1) == 1);
        assert(body_spans(p, 0) == body_spans(p, 2));
        assert(spans(p).skip(1) =~= body_spans(p, 1));
    }
}

/// A relative path that is joined to a directory below the root, and then taken relative
/// to that directory, has the components that it had alone, but for a leading dot. Alone
/// it is not below the directory, and stays what it is.
pub proof fn law_joined_path_is_relative_again(base: Seq<u8>, rest: Seq<u8>)
    requires
        is_absolute(base),
        !is_absolute(rest),
    ensures
        relative_to(rest, base) == rest,
        components(relative_to(joined_path(base, rest), base)) == (if has_lead(rest) {
            components(rest).skip(1)
        } else {
            components(rest)
        }),
        !has_lead(rest) ==> relative_to(joined_path(base, rest), base) == tail_text(rest, 0),
{
    let p = joined_path(base, rest);
    let m = p.len() - rest.len();
    let k = components(base).len() as int;
    let body = body_spans(rest, 0);
    lemma_body_spans_of_joined(base, rest, 1);
    lemma_body_components(rest);
    lemma_body_spans(rest, 0);
    lemma_spans(base);
    assert(p[0] == base[0]);
    assert(spans(p) =~= spans(base) + shifted(body, -m));
    assert(components(p) =~= components(base) + body.map_values(
        |s: (int, int)| rest.subrange(s.0, s.1),
    )) by {
        assert forall|i: int| 0 <= i < spans(p).len() implies #[trigger] components(p)[i] == (
        components(base) + body.map_values(|s: (int, int)| rest.subrange(s.0, s.1)))[i] by {
            if i < k {
                assert(spans(p)[i] == spans(base)[i]);
                assert(components(p)[i] =~= components(base)[i]);
            } else {
                let t = body[i - k];
                assert(is_body_span(rest, t));
                assert(spans(p)[i] == (t.0 + m, t.1 + m));
                assert(components(p)[i] =~= rest.subrange(t.0, t.1));
            }
        }
    }
    assert(components(base) =~= components(p).subrange(0, k));
    lemma_tail_components(p, k);
    assert(components(p).skip(k) =~= body.map_values(|s: (int, int)| rest.subrange(s.0, s.1)));
    assert(body.map_values(|s: (int, int)| rest.subrange(s.0, s.1)) =~= (if has_lead(rest) {
        components(rest).skip(1)
    } else {
        components(rest)
    }));
    if components(base).is_prefix_of(components(rest)) {
        lemma_spans(rest);
        assert(components(base)[0] =~= seq![SEPARATOR]);
        assert(components(rest)[0] == components(base)[0]);
        assert(components(rest)[0][0] == rest[0]);
        assert(false);
    }
    if !has_lead(rest) && body.len() > 0 {
        assert(spans(p)[k] == (body[0].0 + m, body[0].1 + m));
        assert(spans(p).last() == (body.last().0 + m, body.last().1 + m));
        assert(is_body_span(rest, body[body.len() - 1]));
        if body.len() > 1 {
            assert(body[0].1 < body[body.len() - 1].0);
        }
        assert(tail_text(p, k) =~= tail_text(rest, 0));
    }
}

/// Where a component stands among the kinds of components: the root first, then a
/// leading dot, the parent, and names last.
pub open spec fn component_rank(c: Seq<u8>) -> int {
    if c == seq![SEPARATOR] {
        0
    } else if c == seq![DOT] {
        1
    } else if c == seq![DOT, DOT] {
        2
    } else {
        3
    }
}

/// The order of components: by kind, and names by their bytes.
pub open spec fn component_order() -> spec_fn(Seq<u8>, Seq<u8>) -> bool {
    |c: Seq<u8>, d: Seq<u8>|
        component_rank(c) < component_rank(d) || (component_rank(c) == component_rank(d)
            && crate::order::seq_before(c, d, crate::order::byte_order()))
}

/// The order of paths: component by component.
pub open spec fn path_before(p: Seq<u8>, q: Seq<u8>) -> bool {
    crate::order::seq_before(components(p), components(q), component_order())
}

/// Whether two paths name the same file.
pub open spec fn same_path(p: Seq<u8>, q: Seq<u8>) -> bool {
    components(p) == components(q)
}

/// Paths are strictly ordered: no path is before one that it is the same as, the
/// order is transitive, and of two paths that differ one is before the other.
pub proof fn law_path_order(p: Seq<u8>, q: Seq<u8>, r: Seq<u8>)
    ensures
        same_path(p, q) ==> !path_before(p, q),
        path_before(p, q) && path_before(q, r) ==> path_before(p, r),
        same_path(p, q) || path_before(p, q) || path_before(q, p),
{
    lemma_component_order();
    crate::order::law_dictionary_is_strict(component_order());
    let before = crate::order::dictionary(component_order());
    let (a, b, c) = (components(p), components(q), components(r));
    assert(before(a, b) == path_before(p, q));
    assert(before(b, a) == path_before(q, p));
    assert(before(b, c) == path_before(q, r));
    assert(before(a, c) == path_before(p, r));
    assert(!before(a, a));
}

pub(crate) proof fn lemma_component_order()
    ensures
        crate::order::is_strict_order(component_order()),
{
    let bytes = crate::order::byte_order();
    assert(crate::order::is_strict_order(bytes));
    crate::order::law_dictionary_is_strict(bytes);
    let names = crate::order::dictionary(bytes);
    let before = component_order();
    assert forall|c: Seq<u8>| !#[trigger] before(c, c) by {
        assert(!names(c, c));
    }
    assert forall|c: Seq<u8>, d: Seq<u8>, e: Seq<u8>| #[trigger]
        before(c, d) && #[trigger] before(d, e) implies before(c, e) by {
        assert(names(c, d) && names(d, e) ==> names(c, e));
    }
    assert forall|c: Seq<u8>, d: Seq<u8>| c == d || #[trigger] before(c, d) || before(d, c) by {
        assert(c == d || names(c, d) || names(d, c));
    }
}

/// Reading a path behind a separator gives what is in front of it, then what is behind it.
proof fn lemma_body_spans_apart(base: Seq<u8>, rest: Seq<u8>, from: int)
    requires
        0 <= from <= base.len(),
    ensures
        body_spans(base.push(SEPARATOR) + rest, from) == body_spans(base, from) + shifted(
            body_spans(rest, 0),
            -(base.len() + 1),
        ),
    decreases base.len() - from,
{
    let p = base.push(SEPARATOR) + rest;
    let n = base.len() as int;
    let m = n + 1;
    let behind = shifted(body_spans(rest, 0), -m);
    assert(rest =~= p.subrange(m, p.len() as int));
    assert(base =~= p.subrange(0, n));
    assert(p[n] == SEPARATOR);
    lemma_body_spans_behind(p, rest, m, 0);
    lemma_segment_end_of_slice(p, 0, n, from);
    if from == n {
        assert(segment_end(p, n) == n);
        assert(body_spans(p, n) == body_spans(p, m));
    } else {
        lemma_segment_end(base, from);
        let end = segment_end(base, from);
        assert(segment_end(p, from) == end);
        assert(is_void_segment(p, from, end) == is_void_segment(base, from, end));
        if end < n {
            lemma_body_spans_apart(base, rest, end + 1);
        } else {
            assert(body_spans(base, end + 1) =~= Seq::empty());
        }
    }
    assert(body_spans(p, from) =~= body_spans(base, from) + behind);
}

/// A separator puts the components of what is behind it after those of what is in front of
/// it. A root or a leading dot counts only in front.
pub proof fn law_components_add_up(base: Seq<u8>, rest: Seq<u8>)
    requires
        base.len() > 0,
    ensures
        components(base.push(SEPARATOR) + rest) == components(base) + (if has_lead(rest) {
            components(rest).skip(1)
        } else {
            components(rest)
        }),
{
    let p = base.push(SEPARATOR) + rest;
    let m = base.len() + 1;
    let body = body_spans(rest, 0);
    let tail = if has_lead(rest) {
        components(rest).skip(1)
    } else {
        components(rest)
    };
    if is_absolute(rest) {
        assert(segment_end(rest, 0) == 0);
        assert(body == body_spans(rest, 1));
        assert(spans(rest).skip(1) =~= body_spans(rest, 1));
    } else {
        lemma_body_components(rest);
    }
    lemma_body_spans_apart(base, rest, 0);
    lemma_body_spans_apart(base, rest, 1);
    lemma_body_spans(rest, 0);
    lemma_spans(base);
    assert(p[0] == base[0]);
    if base.len() == 1 {
        assert(p[1] == SEPARATOR);
    } else {
        assert(p[1] == base[1]);
    }
    assert(has_lead(p) == has_lead(base));
    assert(spans(p) =~= spans(base) + shifted(body, -m));
    let k = spans(base).len() as int;
    assert forall|i: int| 0 <= i < spans(p).len() implies #[trigger] components(p)[i] == (
    components(base) + tail)[i] by {
        if i < k {
            assert(spans(p)[i] == spans(base)[i]);
            assert(components(p)[i] =~= components(base)[i]);
        } else {
            let t = body[i - k];
            assert(is_body_span(rest, t));
            assert(spans(p)[i] == (t.0 + m, t.1 + m));
            assert(components(p)[i] =~= rest.subrange(t.0, t.1));
            assert(tail[i - k] == rest.subrange(t.0, t.1));
        }
    }
    assert(components(p) =~= components(base) + tail);
}

/// A name is its own only component, and so are the root and a lone dot. An empty path has
/// none. Separators at the end and dots inside do not count.
pub proof fn law_components_of_names(name: Seq<u8>, base: Seq<u8>)
    requires
        name.len() > 0,
        forall|i: int| 0 <= i < name.len() ==> name[i] != 0x2f,
        base.len() > 0,
    ensures
        components(name) == seq![name],
        components(seq![0x2fu8]) == seq![seq![0x2fu8]],
        components(Seq::empty()).len() == 0,
        components(base.push(0x2f)) == components(base),
        components(base.push(0x2f) + seq![0x2eu8]) == components(base),
        name != seq![0x2eu8] ==> components(base.push(0x2f) + name) == components(base).push(name),
        name != seq![0x2eu8] ==> components(seq![0x2fu8] + name) == seq![seq![0x2fu8], name],
{
    let (root, dot) = (seq![SEPARATOR], seq![DOT]);
    let nothing = Seq::<u8>::empty();
    lemma_segment_end(name, 0);
    assert(segment_end(name, 0) == name.len());
    if has_lead(name) {
        if name.len() > 1 {
            assert(name[1] != 0x2f);
        }
        assert(name =~= dot);
        assert(body_spans(name, 1) =~= Seq::empty());
        assert(spans(name) =~= seq![(0int, 1int)]);
    } else {
        assert(body_spans(name, (name.len() + 1) as int) =~= Seq::empty());
        assert(!is_void_segment(name, 0, name.len() as int));
        assert(spans(name) =~= seq![(0int, name.len() as int)]);
    }
    assert(name.subrange(0, name.len() as int) =~= name);
    assert(components(name) =~= seq![name]);
    assert(body_spans(root, 1) =~= Seq::empty());
    assert(spans(root) =~= seq![(0int, 1int)]);
    assert(root.subrange(0, 1) =~= root);
    assert(components(root) =~= seq![root]);
    assert(components(nothing) =~= Seq::empty());
    law_components_add_up(base, nothing);
    assert(base.push(SEPARATOR) + nothing =~= base.push(SEPARATOR));
    assert(components(base) + components(nothing) =~= components(base));
    law_components_add_up(base, dot);
    assert(spans(dot) =~= seq![(0int, 1int)]) by {
        assert(body_spans(dot, 1) =~= Seq::empty());
    }
    assert(components(dot).skip(1) =~= Seq::empty());
    assert(components(base) + components(dot).skip(1) =~= components(base));
    law_components_add_up(base, name);
    if name != dot {
        assert(!has_lead(name)) by {
            if has_lead(name) {
                if name.len() > 1 {
                    assert(name[1] != 0x2f);
                }
                assert(name =~= dot);
            }
        }
        assert(components(base) + seq![name] =~= components(base).push(name));
        let p = root + name;
        assert(name =~= p.subrange(1, p.len() as int));
        lemma_body_spans_behind(p, name, 1, 0);
        assert(has_lead(p));
        assert(spans(p) =~= seq![(0int, 1int), (1int, p.len() as int)]);
        assert(p.subrange(0, 1) =~= root);
        assert(components(p) =~= seq![root, name]);
    }
}

/// A path below a base is shown by its own text from the first component below it on. A path
/// that is not below it stays what it is.
pub proof fn law_relative_path(p: Seq<u8>, base: Seq<u8>)
    ensures
        components(base).is_prefix_of(components(p)) ==> {
            &&& components(relative_to(p, base)) == components(p).skip(
                components(base).len() as int,
            )
            &&& exists|a: int, b: int|
                0 <= a <= b <= p.len() && relative_to(p, base) == #[trigger] p.subrange(a, b)
        },
        !components(base).is_prefix_of(components(p)) ==> relative_to(p, base) == p,
{
    if components(base).is_prefix_of(components(p)) {
        let k = components(base).len() as int;
        lemma_tail_components(p, k);
        lemma_spans(p);
        if k < spans(p).len() {
            let (a, b) = (spans(p)[k].0, spans(p).last().1);
            if k < spans(p).len() - 1 {
                assert(spans(p)[k].1 <= spans(p)[spans(p).len() - 1].0);
            }
            assert(0 <= a <= b <= p.len());
            assert(relative_to(p, base) == p.subrange(a, b));
        } else {
            assert(relative_to(p, base) =~= p.subrange(0, 0));
        }
    }
}

/// The last component ends where the path does, unless that ends in a separator or in a
/// segment that is a lone dot.
proof fn lemma_last_span(p: Seq<u8>, from: int)
    requires
        0 <= from < p.len(),
        p.last() != SEPARATOR,
        p.last() == DOT ==> p.len() > 1 && p[p.len() - 2] != SEPARATOR,
        from > 0 ==> p[from - 1] == SEPARATOR,
    ensures
        body_spans(p, from).len() > 0,
        body_spans(p, from).last().1 == p.len(),
    decreases p.len() - from,
{
    lemma_segment_end(p, from);
    let end = segment_end(p, from);
    if end < p.len() {
        assert(end + 1 < p.len()) by {
            if end + 1 == p.len() {
                assert(p.last() == SEPARATOR);
            }
        }
        lemma_last_span(p, end + 1);
        let rest = body_spans(p, end + 1);
        assert(body_spans(p, from).last() == rest.last());
    } else {
        assert(!is_void_segment(p, from, end));
        assert(body_spans(p, end + 1) =~= Seq::empty());
        assert(body_spans(p, from).last() == (from, end));
    }
}

/// A path below a directory, taken relative to it, is what was put behind the directory and
/// a separator, letter by letter; separators and a lone dot at its end are left out.
pub proof fn law_relative_path_is_what_was_joined(base: Seq<u8>, rest: Seq<u8>)
    requires
        is_absolute(base),
        rest.len() > 0,
        !has_lead(rest),
        rest.last() != 0x2f,
        rest.last() == 0x2e ==> rest.len() > 1 && rest[rest.len() - 2] != 0x2f,
    ensures
        relative_to(base.push(0x2f) + rest, base) == rest,
        base.last() == 0x2f ==> relative_to(base + rest, base) == rest,
        base.last() != 0x2f ==> relative_to(base.push(0x2f) + rest.push(0x2f), base) == rest,
        base.last() != 0x2f ==> relative_to(
            base.push(0x2f) + (rest.push(0x2f) + seq![0x2eu8]),
            base,
        ) == rest,
{
    let nothing = Seq::<u8>::empty();
    let slash = rest.push(SEPARATOR);
    let dot = slash + seq![DOT];
    lemma_last_span(rest, 0);
    lemma_body_spans(rest, 0);
    lemma_spans(rest);
    assert(tail_text(rest, 0) =~= rest);
    lemma_body_spans_apart(rest, nothing, 0);
    assert(slash + nothing =~= slash);
    assert(body_spans(slash, 0) =~= body_spans(rest, 0));
    assert(seq![DOT].len() == 1);
    assert(body_spans(seq![DOT], 0) =~= Seq::empty()) by {
        assert(segment_end(seq![DOT], 1) == 1);
        assert(segment_end(seq![DOT], 0) == 1);
        assert(body_spans(seq![DOT], 2) =~= Seq::empty());
    }
    lemma_body_spans_apart(rest, seq![DOT], 0);
    assert(body_spans(dot, 0) =~= body_spans(rest, 0));
    assert(slash[0] == rest[0] && dot[0] == rest[0]);
    if rest.len() > 1 {
        assert(slash[1] == rest[1] && dot[1] == rest[1]);
    }
    assert(!has_lead(slash) && !has_lead(dot));
    assert(tail_text(slash, 0) =~= rest);
    assert(tail_text(dot, 0) =~= rest);
    law_joined_path_is_relative_again(base, rest);
    law_joined_path_is_relative_again(base, slash);
    law_joined_path_is_relative_again(base, dot);
    if base.last() == SEPARATOR {
        lemma_relative_behind_separators(base, rest);
    }
}

/// A second separator behind a directory makes no difference.
proof fn lemma_relative_behind_separators(base: Seq<u8>, rest: Seq<u8>)
    requires
        is_absolute(base),
        base.last() == SEPARATOR,
        rest.len() > 0,
        !has_lead(rest),
        tail_text(rest, 0) == rest,
    ensures
        relative_to(base.push(SEPARATOR) + rest, base) == rest,
{
    let p = base.push(SEPARATOR) + rest;
    let m = base.len() + 1;
    let k = components(base).len() as int;
    let body = body_spans(rest, 0);
    law_components_add_up(base, rest);
    lemma_body_spans_apart(base, rest, 1);
    lemma_body_spans(rest, 0);
    lemma_spans(rest);
    assert(p[0] == base[0]);
    assert(spans(p) =~= spans(base) + shifted(body, -m));
    assert(components(base) =~= components(p).subrange(0, k));
    assert(spans(p)[k] == (body[0].0 + m, body[0].1 + m));
    assert(spans(p).last() == (body.last().0 + m, body.last().1 + m));
    assert(rest.subrange(body[0].0, body.last().1) == rest);
    assert(is_body_span(rest, body[body.len() - 1]));
    assert(body.last().1 == rest.len() && body[0].0 == 0);
    assert(tail_text(p, k) =~= rest);
}

/// A directory stands before what is in it.
pub proof fn law_directory_before_its_files(p: Seq<u8>, q: Seq<u8>)
    requires
        components(p).is_prefix_of(components(q)),
        components(p).len() < components(q).len(),
    ensures
        path_before(p, q),
{
    let (a, b) = (components(p), components(q));
    assert forall|j: int| 0 <= j < a.len() implies a[j] == b[j] by {
        assert(b.subrange(0, a.len() as int)[j] == b[j]);
    }
    assert(crate::order::parts_at(a, b, component_order(), a.len() as int));
}

/// Two paths stand in the order of the first components in which they differ: the root, a
/// leading dot and the parent before names, in this order, and names by the first byte in
/// which they differ, a name before those that it starts.
pub proof fn law_paths_stand_by_their_components(p: Seq<u8>, q: Seq<u8>, i: int, k: int)
    requires
        0 <= i < components(p).len(),
        i < components(q).len(),
        forall|j: int| 0 <= j < i ==> components(p)[j] == components(q)[j],
        components(p)[i] != components(q)[i],
    ensures
        ({
            let (c, d) = (components(p)[i], components(q)[i]);
            let (root, dot, parent) = (seq![0x2fu8], seq![0x2eu8], seq![0x2eu8, 0x2eu8]);
            &&& c == root ==> path_before(p, q)
            &&& c == dot && d != root ==> path_before(p, q)
            &&& c == parent && d != root && d != dot ==> path_before(p, q)
            &&& c != root && c != dot && c != parent && d != root && d != dot && d != parent && 0
                <= k <= c.len() && k < d.len() && (forall|j: int| 0 <= j < k ==> c[j] == d[j]) && (k
                == c.len() || c[k] < d[k]) ==> path_before(p, q)
        }),
{
    let (a, b) = (components(p), components(q));
    let (c, d) = (a[i], b[i]);
    let before = component_order();
    if 0 <= k <= c.len() && k < d.len() && (forall|j: int| 0 <= j < k ==> c[j] == d[j]) && (k
        == c.len() || c[k] < d[k]) {
        assert(crate::order::parts_at(c, d, crate::order::byte_order(), k));
    }
    if before(c, d) {
        assert(crate::order::parts_at(a, b, before, i));
    }
}

/// The mathematical form of component bounds.
pub open spec fn as_spans(bounds: Seq<(usize, usize)>) -> Seq<(int, int)> {
    bounds.map_values(|s: (usize, usize)| (s.0 as int, s.1 as int))
}

/// The bounds of the components of `p`.
pub fn component_bounds(p: &[u8]) -> (bounds: Vec<(usize, usize)>)
    ensures
        as_spans(bounds@) == spans(p@),
{
    let mut bounds: Vec<(usize, usize)> = Vec::new();
    let mut from: usize = 0;
    let n: usize = p.len();
    if n > 0 && (p[0] == SEPARATOR || (p[0] == DOT && (n == 1 || p[1] == SEPARATOR))) {
        bounds.push((0, 1));
        from = 1;
    }
    assert(as_spans(bounds@) + body_spans(p@, from as int) =~= spans(p@));
    while from < n
        invariant
            n == p@.len(),
            as_spans(bounds@) + body_spans(p@, from as int) == spans(p@),
        decreases n - from,
    {
        let ghost done = as_spans(bounds@);
        let ghost start = from as int;
        let mut end: usize = from;
        while end < n && p[end] != SEPARATOR
            invariant
                n == p@.len(),
                from <= end <= n,
                segment_end(p@, from as int) == segment_end(p@, end as int),
            decreases n - end,
        {
            end += 1;
        }
        if !(end == from || (end - from == 1 && p[from] == DOT)) {
            bounds.push((from, end));
            assert(as_spans(bounds@) =~= done.push((start, end as int)));
            assert(done + body_spans(p@, start) =~= as_spans(bounds@) + body_spans(p@, end + 1));
        }
        if end == n {
            assert(body_spans(p@, end + 1) =~= body_spans(p@, n as int));
            from = n;
        } else {
            from = end + 1;
        }
    }
    assert(as_spans(bounds@) =~= spans(p@));
    bounds
}

/// The text of the component of `p` with the given bounds.
fn component_at<'a>(p: &'a [u8], bounds: &Vec<(usize, usize)>, i: usize) -> (text: &'a [u8])
    requires
        as_spans(bounds@) == spans(p@),
        i < bounds@.len(),
    ensures
        text@ == components(p@)[i as int],
{
    proof {
        lemma_spans(p@);
        assert(as_spans(bounds@)[i as int] == spans(p@)[i as int]);
    }
    slice_subrange(p, bounds[i].0, bounds[i].1)
}

/// Whether the components of `base` lead those of `p`.
fn leads(
    base: &[u8],
    base_bounds: &Vec<(usize, usize)>,
    p: &[u8],
    bounds: &Vec<(usize, usize)>,
) -> (r: bool)
    requires
        as_spans(base_bounds@) == spans(base@),
        as_spans(bounds@) == spans(p@),
    ensures
        r == components(base@).is_prefix_of(components(p@)),
{
    assert(as_spans(base_bounds@).len() == base_bounds@.len());
    assert(as_spans(bounds@).len() == bounds@.len());
    if base_bounds.len() > bounds.len() {
        return false;
    }
    let mut i: usize = 0;
    while i < base_bounds.len()
        invariant
            i <= base_bounds@.len() <= bounds@.len(),
            as_spans(base_bounds@) == spans(base@),
            as_spans(bounds@) == spans(p@),
            base_bounds@.len() == components(base@).len(),
            bounds@.len() == components(p@).len(),
            forall|j: int| 0 <= j < i ==> components(base@)[j] == components(p@)[j],
        decreases base_bounds@.len() - i,
    {
        if !same_bytes(component_at(base, base_bounds, i), component_at(p, bounds, i)) {
            assert(components(base@)[i as int] != components(p@)[i as int]);
            proof {
                if components(base@).is_prefix_of(components(p@)) {
                    assert(components(base@) == components(p@).subrange(
                        0,
                        components(base@).len() as int,
                    ));
                    assert(components(p@).subrange(0, components(base@).len() as int)[i as int]
                        == components(p@)[i as int]);
                }
            }
            return false;
        }
        i += 1;
    }
    assert(components(base@) =~= components(p@).subrange(0, components(base@).len() as int));
    true
}

/// What is left of `p` below `base`; `None` where `p` does not lie below it.
pub fn strip_prefix(p: &[u8], base: &[u8]) -> (rest: Option<Vec<u8>>)
    ensures
        match rest {
            Some(rest) => stripped(p@, base@) == Some(rest@),
            None => stripped(p@, base@) is None,
        },
{
    let bounds: Vec<(usize, usize)> = component_bounds(p);
    let base_bounds: Vec<(usize, usize)> = component_bounds(base);
    assert(as_spans(base_bounds@).len() == base_bounds@.len());
    assert(as_spans(bounds@).len() == bounds@.len());
    if !leads(base, &base_bounds, p, &bounds) {
        return None;
    }
    let k: usize = base_bounds.len();
    if k >= bounds.len() {
        let rest: Vec<u8> = Vec::new();
        assert(rest@ =~= tail_text(p@, k as int));
        return Some(rest);
    }
    let last: usize = bounds.len() - 1;
    proof {
        lemma_spans(p@);
        assert(as_spans(bounds@)[k as int] == spans(p@)[k as int]);
        assert(as_spans(bounds@)[last as int] == spans(p@)[last as int]);
        if k < last {
            assert(spans(p@)[k as int].1 <= spans(p@)[last as int].0);
        }
    }
    let text: &[u8] = slice_subrange(p, bounds[k].0, bounds[last].1);
    let rest: Vec<u8> = vstd::slice::slice_to_vec(text);
    Some(rest)
}

/// `p` relative to `base`, or `p` itself where it does not lie below `base`.
pub fn relative(p: &[u8], base: &[u8]) -> (rest: Vec<u8>)
    ensures
        rest@ == relative_to(p@, base@),
{
    match strip_prefix(p, base) {
        Some(rest) => rest,
        None => vstd::slice::slice_to_vec(p),
    }
}

/// The first component of `p`, or `None` where it has none.
pub fn first_component(p: &[u8]) -> (first: Option<Vec<u8>>)
    ensures
        match first {
            Some(text) => components(p@).len() > 0 && text@ == components(p@)[0],
            None => components(p@).len() == 0,
        },
{
    let bounds: Vec<(usize, usize)> = component_bounds(p);
    assert(as_spans(bounds@).len() == bounds@.len());
    if bounds.len() == 0 {
        None
    } else {
        Some(vstd::slice::slice_to_vec(component_at(p, &bounds, 0)))
    }
}

/// Whether `p` and `q` name the same file.
pub fn is_same_path(p: &[u8], q: &[u8]) -> (same: bool)
    ensures
        same == same_path(p@, q@),
{
    let p_bounds: Vec<(usize, usize)> = component_bounds(p);
    let q_bounds: Vec<(usize, usize)> = component_bounds(q);
    assert(as_spans(p_bounds@).len() == p_bounds@.len());
    assert(as_spans(q_bounds@).len() == q_bounds@.len());
    let same: bool = p_bounds.len() == q_bounds.len() && leads(p, &p_bounds, q, &q_bounds);
    proof {
        let (a, b) = (components(p@), components(q@));
        if same {
            assert(b.subrange(0, b.len() as int) =~= b);
        } else if a == b {
            assert(a =~= b.subrange(0, a.len() as int));
        }
    }
    same
}

/// The rank of a component among the kinds of components.
fn rank_of(c: &[u8]) -> (rank: u8)
    ensures
        rank == component_rank(c@),
{
    if c.len() == 1 && c[0] == SEPARATOR {
        assert(c@ =~= seq![SEPARATOR]);
        0
    } else if c.len() == 1 && c[0] == DOT {
        assert(c@ =~= seq![DOT]);
        assert(c@[0] != seq![SEPARATOR][0]);
        1
    } else if c.len() == 2 && c[0] == DOT && c[1] == DOT {
        assert(c@ =~= seq![DOT, DOT]);
        assert(c@.len() != seq![SEPARATOR].len());
        assert(c@.len() != seq![DOT].len());
        2
    } else {
        assert(c@ != seq![SEPARATOR]) by {
            if c@ == seq![SEPARATOR] {
                assert(c@.len() == 1 && c@[0] == SEPARATOR);
            }
        }
        assert(c@ != seq![DOT]) by {
            if c@ == seq![DOT] {
                assert(c@.len() == 1 && c@[0] == DOT);
            }
        }
        assert(c@ != seq![DOT, DOT]) by {
            if c@ == seq![DOT, DOT] {
                assert(c@.len() == 2 && c@[0] == DOT && c@[1] == DOT);
            }
        }
        3
    }
}

/// Whether the component `c` is before the component `d`.
fn is_component_before(c: &[u8], d: &[u8]) -> (before: bool)
    ensures
        before == component_order()(c@, d@),
{
    let c_rank: u8 = rank_of(c);
    let d_rank: u8 = rank_of(d);
    c_rank < d_rank || (c_rank == d_rank && bytes_before(c, d))
}

/// Whether `p` is before `q` in the order of paths.
pub fn is_path_before(p: &[u8], q: &[u8]) -> (before: bool)
    ensures
        before == path_before(p@, q@),
{
    let p_bounds: Vec<(usize, usize)> = component_bounds(p);
    let q_bounds: Vec<(usize, usize)> = component_bounds(q);
    let ghost (a, b) = (components(p@), components(q@));
    assert(as_spans(p_bounds@).len() == p_bounds@.len());
    assert(as_spans(q_bounds@).len() == q_bounds@.len());
    let mut i: usize = 0;
    while i < p_bounds.len() && i < q_bounds.len() && same_bytes(
        component_at(p, &p_bounds, i),
        component_at(q, &q_bounds, i),
    )
        invariant
            as_spans(p_bounds@) == spans(p@),
            as_spans(q_bounds@) == spans(q@),
            a == components(p@),
            b == components(q@),
            a.len() == p_bounds@.len(),
            b.len() == q_bounds@.len(),
            i <= a.len(),
            i <= b.len(),
            forall|j: int| 0 <= j < i ==> a[j] == b[j],
        decreases a.len() - i,
    {
        i += 1;
    }
    let before: bool = i < q_bounds.len() && (i == p_bounds.len() || is_component_before(
        component_at(p, &p_bounds, i),
        component_at(q, &q_bounds, i),
    ));
    proof {
        if before {
            assert(crate::order::parts_at(a, b, component_order(), i as int));
        } else if path_before(p@, q@) {
            let k = choose|k: int| crate::order::parts_at(a, b, component_order(), k);
            lemma_component_order();
            if k < i {
                assert(!component_order()(a[k], a[k]));
            }
            assert(k <= i);
            assert(false);
        }
    }
    before
}

} // verus!
