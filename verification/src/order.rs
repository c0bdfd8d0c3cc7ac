//! Putting things in order: shape points by their sequence number, and stops
//! by their identifier with none twice.

use crate::ident::{
    id_before, id_less, lemma_id_before_asymmetric, lemma_id_before_irreflexive,
    lemma_id_before_total, lemma_id_before_transitive,
};
use crate::transit::{RawStop, RawStopView, ShapePoint};
use vstd::prelude::*;

verus! {

/// The points that carry the sequence number `n`, in the order they stand in.
pub open spec fn with_sequence(s: Seq<ShapePoint>, n: u64) -> Seq<ShapePoint> {
    s.filter(|p: ShapePoint| p.sequence == n)
}

/// Whether the points stand in the order of their sequence numbers.
pub open spec fn in_sequence(s: Seq<ShapePoint>) -> bool {
    forall|i: int, j: int| 0 <= i < j < s.len() ==> s[i].sequence <= s[j].sequence
}

/// Whether `points` holds the points of `from` in the order of their
/// sequence numbers, points with the same number in the order they had.
pub open spec fn is_ordering_of(points: Seq<ShapePoint>, from: Seq<ShapePoint>) -> bool {
    &&& in_sequence(points)
    &&& forall|n: u64| #[trigger] with_sequence(points, n) == with_sequence(from, n)
}

/// Where no point carries the number `n`, none is found with it.
proof fn lemma_none_with_sequence(s: Seq<ShapePoint>, n: u64)
    requires
        forall|i: int| 0 <= i < s.len() ==> s[i].sequence != n,
    ensures
        with_sequence(s, n) == Seq::<ShapePoint>::empty(),
{
    let pred = |p: ShapePoint| p.sequence == n;
    let f = s.filter(pred);
    if f.len() > 0 {
        s.lemma_filter_pred(pred, 0);
        assert(f.contains(f[0]));
        s.lemma_filter_contains_rev(pred, f[0]);
    }
    assert(f =~= Seq::<ShapePoint>::empty());
}

/// Puts one more point into an ordered shape, behind the points that carry
/// the same sequence number.
proof fn lemma_insert_keeps_ordering(
    points: Seq<ShapePoint>,
    from: Seq<ShapePoint>,
    x: ShapePoint,
    at: int,
)
    requires
        is_ordering_of(points, from),
        0 <= at <= points.len(),
        forall|i: int| 0 <= i < at ==> points[i].sequence <= x.sequence,
        forall|i: int| at <= i < points.len() ==> points[i].sequence > x.sequence,
    ensures
        is_ordering_of(points.insert(at, x), from.push(x)),
{
    let after = points.insert(at, x);
    let head = points.subrange(0, at);
    let tail = points.subrange(at, points.len() as int);
    assert(after =~= head.push(x) + tail);
    assert(points =~= head + tail);
    assert forall|i: int, j: int| 0 <= i < j < after.len() implies after[i].sequence
        <= after[j].sequence by {
        if j < at {
            assert(after[i] == points[i] && after[j] == points[j]);
        } else if j == at {
            assert(after[i] == points[i]);
        } else if i < at {
            assert(after[i] == points[i] && after[j] == points[j - 1]);
        } else if i == at {
            assert(after[j] == points[j - 1]);
        } else {
            assert(after[i] == points[i - 1] && after[j] == points[j - 1]);
        }
    }
    assert forall|n: u64| #[trigger] with_sequence(after, n) == with_sequence(from.push(x), n) by {
        let pred = |p: ShapePoint| p.sequence == n;
        Seq::filter_distributes_over_add(head.push(x), tail, pred);
        Seq::filter_distributes_over_add(head, tail, pred);
        head.lemma_filter_push(x, pred);
        from.lemma_filter_push(x, pred);
        assert(with_sequence(points, n) == with_sequence(from, n));
        if x.sequence == n {
            assert forall|i: int| 0 <= i < tail.len() implies tail[i].sequence != n by {
                assert(tail[i] == points[at + i]);
            }
            lemma_none_with_sequence(tail, n);
            assert(head.filter(pred).push(x) + Seq::<ShapePoint>::empty() =~= (head.filter(pred)
                + Seq::<ShapePoint>::empty()).push(x));
        }
    }
}

/// Orders the points of a shape by their sequence numbers. Points with the
/// same number keep the order in which they came.
pub fn order_shape(points: Vec<ShapePoint>) -> (r: Vec<ShapePoint>)
    ensures
        is_ordering_of(r@, points@),
{
    let mut out: Vec<ShapePoint> = Vec::new();
    let mut i: usize = 0;
    proof {
        assert(points@.take(0) =~= Seq::<ShapePoint>::empty());
        assert forall|n: u64| #[trigger]
            with_sequence(out@, n) == with_sequence(points@.take(0), n) by {}
    }
    while i < points.len()
        invariant
            0 <= i <= points.len(),
            out.len() == i,
            is_ordering_of(out@, points@.take(i as int)),
        decreases points.len() - i,
    {
        let x = points[i];
        let mut at: usize = out.len();
        while at > 0 && out[at - 1].sequence > x.sequence
            invariant
                0 <= at <= out.len(),
                in_sequence(out@),
                forall|k: int| at <= k < out.len() ==> out[k].sequence > x.sequence,
            decreases at,
        {
            at -= 1;
        }
        proof {
            assert forall|k: int| 0 <= k < at implies out[k].sequence <= x.sequence by {
                assert(out[k].sequence <= out[at - 1].sequence);
            }
            lemma_insert_keeps_ordering(out@, points@.take(i as int), x, at as int);
            assert(points@.take(i + 1) =~= points@.take(i as int).push(x));
        }
        out.insert(at, x);
        i += 1;
    }
    assert(points@.take(i as int) =~= points@);
    out
}

/// Whether the stops stand in the order of their identifiers, each identifier
/// before the next.
pub open spec fn ids_ascending(s: Seq<RawStopView>) -> bool {
    forall|i: int, j: int| 0 <= i < j < s.len() ==> id_before(s[i].id, s[j].id)
}

/// Whether one of the stops carries the identifier.
pub open spec fn has_id(s: Seq<RawStopView>, id: Seq<char>) -> bool {
    exists|k: int| 0 <= k < s.len() && s[k].id == id
}

/// Stops in the order of their identifiers carry no identifier twice.
pub proof fn lemma_ascending_ids_differ(s: Seq<RawStopView>, i: int, j: int)
    requires
        ids_ascending(s),
        0 <= i < s.len(),
        0 <= j < s.len(),
        i != j,
    ensures
        s[i].id != s[j].id,
{
    if i < j {
        assert(id_before(s[i].id, s[j].id));
        lemma_id_before_irreflexive(s[i].id);
    } else {
        assert(id_before(s[j].id, s[i].id));
        lemma_id_before_irreflexive(s[j].id);
    }
}

/// Puts a stop into a list that is ordered by identifier, at its place in
/// that order. A list that holds the identifier already stays as it is.
pub fn insert_stop(stops: &mut Vec<RawStop>, stop: RawStop)
    requires
        ids_ascending(old(stops).deep_view()),
    ensures
        ids_ascending(final(stops).deep_view()),
        has_id(old(stops).deep_view(), stop@.id) ==> final(stops).deep_view() == old(
            stops,
        ).deep_view(),
        !has_id(old(stops).deep_view(), stop@.id) ==> exists|at: int|
            0 <= at <= old(stops).len() && final(stops).deep_view() == #[trigger] old(
                stops,
            ).deep_view().insert(at, stop@),
{
    let ghost before = stops.deep_view();
    let mut at: usize = 0;
    while at < stops.len() && id_less(stops[at].id.as_str(), stop.id.as_str())
        invariant
            0 <= at <= stops.len(),
            before == stops.deep_view(),
            forall|k: int| 0 <= k < at ==> id_before(before[k].id, stop@.id),
        decreases stops.len() - at,
    {
        assert(before[at as int] == stops[at as int]@);
        at += 1;
    }
    if at < stops.len() {
        assert(before[at as int] == stops[at as int]@);
        if stops[at].id == stop.id {
            assert(has_id(before, stop@.id));
            return ;
        }
    }
    proof {
        if at < stops.len() {
            lemma_id_before_total(before[at as int].id, stop@.id);
        }
        assert forall|k: int| at <= k < before.len() implies id_before(
            stop@.id,
            #[trigger] before[k].id,
        ) by {
            if k > at {
                assert(id_before(before[at as int].id, before[k].id));
                lemma_id_before_transitive(stop@.id, before[at as int].id, before[k].id);
            }
        }
        assert forall|k: int| 0 <= k < before.len() implies before[k].id != stop@.id by {
            lemma_id_before_irreflexive(stop@.id);
        }
        let after = before.insert(at as int, stop@);
        assert forall|i: int, j: int| 0 <= i < j < after.len() implies id_before(
            after[i].id,
            after[j].id,
        ) by {
            if j < at {
                assert(after[i] == before[i] && after[j] == before[j]);
            } else if j == at {
                assert(after[i] == before[i]);
            } else if i < at {
                assert(after[i] == before[i] && after[j] == before[j - 1]);
                lemma_id_before_transitive(before[i].id, stop@.id, before[j - 1].id);
            } else if i == at {
                assert(after[j] == before[j - 1]);
            } else {
                assert(after[i] == before[i - 1] && after[j] == before[j - 1]);
            }
        }
    }
    stops.insert(at, stop);
    proof {
        assert(stops.deep_view() =~= before.insert(at as int, stop@));
    }
}

/// A sequence number that a point of `a` carries is carried by a point of `b`
/// where both hold the same points under every number.
proof fn lemma_shared_sequence(a: Seq<ShapePoint>, b: Seq<ShapePoint>, i: int) -> (j: int)
    requires
        0 <= i < a.len(),
        forall|n: u64| #[trigger] with_sequence(a, n) == with_sequence(b, n),
    ensures
        0 <= j < b.len(),
        b[j].sequence == a[i].sequence,
{
    let n = a[i].sequence;
    let pred = |p: ShapePoint| p.sequence == n;
    a.lemma_filter_contains(pred, i);
    assert(with_sequence(a, n) == with_sequence(b, n));
    let f = b.filter(pred);
    let w = choose|w: int| 0 <= w < f.len() && f[w] == a[i];
    b.lemma_filter_pred(pred, w);
    assert(f.contains(f[w]));
    b.lemma_filter_contains_rev(pred, f[w]);
    choose|j: int| 0 <= j < b.len() && b[j] == f[w]
}

/// The points of a shape have one ordering only: what comes out does not
/// depend on how the points were put in order.
pub proof fn lemma_ordering_unique(a: Seq<ShapePoint>, b: Seq<ShapePoint>)
    requires
        in_sequence(a),
        in_sequence(b),
        forall|n: u64| #[trigger] with_sequence(a, n) == with_sequence(b, n),
    ensures
        a == b,
    decreases a.len(),
{
    if a.len() == 0 {
        if b.len() > 0 {
            let j = lemma_shared_sequence(b, a, 0);
        }
        assert(a =~= b);
    } else {
        let x = a.last();
        let jb = lemma_shared_sequence(a, b, a.len() - 1);
        let y = b.last();
        let ja = lemma_shared_sequence(b, a, b.len() - 1);
        assert(x.sequence == y.sequence) by {
            assert(b[jb].sequence <= y.sequence);
            assert(a[ja].sequence <= x.sequence);
        }
        let m = x.sequence;
        let a0 = a.drop_last();
        let b0 = b.drop_last();
        assert(a =~= a0.push(x));
        assert(b =~= b0.push(y));
        assert forall|n: u64| #[trigger] with_sequence(a0, n) == with_sequence(b0, n) by {
            let pred = |p: ShapePoint| p.sequence == n;
            a0.lemma_filter_push(x, pred);
            b0.lemma_filter_push(y, pred);
            assert(with_sequence(a, n) == with_sequence(b, n));
            if n == m {
                let fa = a0.filter(pred).push(x);
                let fb = b0.filter(pred).push(y);
                assert(fa == fb);
                assert(fa.drop_last() =~= a0.filter(pred));
                assert(fb.drop_last() =~= b0.filter(pred));
            }
        }
        assert(x == y) by {
            let pred = |p: ShapePoint| p.sequence == m;
            a0.lemma_filter_push(x, pred);
            b0.lemma_filter_push(y, pred);
            assert(with_sequence(a, m) == with_sequence(b, m));
            let fa = a0.filter(pred).push(x);
            let fb = b0.filter(pred).push(y);
            assert(fa.last() == x);
            assert(fb.last() == y);
        }
        assert(in_sequence(a0)) by {
            assert forall|i: int, j: int| 0 <= i < j < a0.len() implies a0[i].sequence
                <= a0[j].sequence by {
                assert(a0[i] == a[i] && a0[j] == a[j]);
            }
        }
        assert(in_sequence(b0)) by {
            assert forall|i: int, j: int| 0 <= i < j < b0.len() implies b0[i].sequence
                <= b0[j].sequence by {
                assert(b0[i] == b[i] && b0[j] == b[j]);
            }
        }
        lemma_ordering_unique(a0, b0);
    }
}

/// Whether a stop stands in a list.
pub open spec fn found_in(x: RawStopView, b: Seq<RawStopView>) -> bool {
    exists|j: int| 0 <= j < b.len() && b[j] == x
}

/// Whether every stop of `a` stands in `b` too.
pub open spec fn all_found_in(a: Seq<RawStopView>, b: Seq<RawStopView>) -> bool {
    forall|i: int| 0 <= i < a.len() ==> found_in(#[trigger] a[i], b)
}

/// A list in the order of its identifiers stays so without its last stop.
proof fn lemma_ascending_rest(a: Seq<RawStopView>)
    requires
        ids_ascending(a),
        a.len() > 0,
    ensures
        ids_ascending(a.drop_last()),
{
    let a0 = a.drop_last();
    assert forall|i: int, j: int| 0 <= i < j < a0.len() implies id_before(a0[i].id, a0[j].id) by {
        assert(a0[i] == a[i] && a0[j] == a[j]);
    }
}

/// Where two ordered lists end with the same stop, the stops before it in
/// one that stand in the other stand before it there too.
proof fn lemma_found_in_rest(a: Seq<RawStopView>, b: Seq<RawStopView>)
    requires
        ids_ascending(a),
        a.len() > 0,
        b.len() > 0,
        a.last() == b.last(),
        all_found_in(a, b),
    ensures
        all_found_in(a.drop_last(), b.drop_last()),
{
    let a0 = a.drop_last();
    let b0 = b.drop_last();
    assert forall|i: int| 0 <= i < a0.len() implies found_in(#[trigger] a0[i], b0) by {
        assert(a0[i] == a[i]);
        assert(found_in(a[i], b));
        let j = choose|j: int| 0 <= j < b.len() && b[j] == a[i];
        assert(id_before(a[i].id, a[a.len() - 1].id));
        lemma_id_before_irreflexive(a[i].id);
        assert(j < b.len() - 1);
        assert(b0[j] == b[j]);
    }
}

/// Two lists in the order of their identifiers that hold the same stops are
/// the same list.
pub proof fn lemma_ascending_unique(a: Seq<RawStopView>, b: Seq<RawStopView>)
    requires
        ids_ascending(a),
        ids_ascending(b),
        all_found_in(a, b),
        all_found_in(b, a),
    ensures
        a == b,
    decreases a.len(),
{
    if a.len() == 0 {
        if b.len() > 0 {
            assert(found_in(b[0], a));
        }
        assert(a =~= b);
    } else {
        let x = a.last();
        assert(found_in(a[a.len() - 1], b));
        let m = choose|m: int| 0 <= m < b.len() && b[m] == x;
        let y = b.last();
        assert(found_in(b[b.len() - 1], a));
        let k = choose|k: int| 0 <= k < a.len() && a[k] == y;
        assert(x == y) by {
            if m < b.len() - 1 && k < a.len() - 1 {
                assert(id_before(b[m].id, b[b.len() - 1].id));
                assert(id_before(a[k].id, a[a.len() - 1].id));
                lemma_id_before_asymmetric(x.id, y.id);
            }
        }
        lemma_ascending_rest(a);
        lemma_ascending_rest(b);
        lemma_found_in_rest(a, b);
        lemma_found_in_rest(b, a);
        lemma_ascending_unique(a.drop_last(), b.drop_last());
        assert(a =~= a.drop_last().push(x));
        assert(b =~= b.drop_last().push(y));
    }
}

} // verus!
