//! The road network as the matcher sees it: edges with a kind and a line, and
//! the measure of a point against such a line.

use crate::geometry::{
    dist, dist2, distance, distance_squared, foot, lemma_foot_of_point_on_segment,
    nearest_on_segment, on_segment, Point,
};
use vstd::prelude::*;

verus! {

/// What an edge of the road network is for.
#[derive(Clone, Copy, Debug, PartialEq, Eq)]
pub enum EdgeKind {
    Driving,
    Bus,
    Parking,
    Biking,
    Walking,
}

/// One edge of the road network.
#[derive(Clone, Debug, PartialEq, Eq)]
pub struct Edge {
    pub id: String,
    pub kind: EdgeKind,
    /// The line of the edge, from its start to its end.
    pub geometry: Vec<Point>,
}

/// What an [`Edge`] holds, with its identifier as a sequence of characters.
pub struct EdgeView {
    pub id: Seq<char>,
    pub kind: EdgeKind,
    pub geometry: Seq<Point>,
}

impl View for Edge {
    type V = EdgeView;

    open spec fn view(&self) -> EdgeView {
        EdgeView { id: self.id@, kind: self.kind, geometry: self.geometry@ }
    }
}

impl DeepView for Edge {
    type V = EdgeView;

    open spec fn deep_view(&self) -> EdgeView {
        self@
    }
}

/// How a point lies to a line: the square of its distance to the nearest
/// point of the line, and how far along the line that point lies.
#[derive(Clone, Copy, Debug, PartialEq, Eq)]
pub struct Measure {
    pub distance2: u128,
    pub offset: u64,
}

/// Transit runs on driving lanes and on bus lanes.
pub open spec fn eligible(kind: EdgeKind) -> bool {
    kind == EdgeKind::Driving || kind == EdgeKind::Bus
}

/// The number of pieces of a line: its segments, or the one point of a line
/// that has no more.
pub open spec fn pieces(g: Seq<Point>) -> int {
    if g.len() >= 2 {
        g.len() - 1
    } else {
        g.len() as int
    }
}

/// Where piece `k` of a line ends.
pub open spec fn piece_end(g: Seq<Point>, k: int) -> Point {
    if k + 1 < g.len() {
        g[k + 1]
    } else {
        g[k]
    }
}

/// The point of piece `k` that is nearest to `p`.
pub open spec fn piece_foot(p: Point, g: Seq<Point>, k: int) -> Point {
    foot(p, g[k], piece_end(g, k))
}

/// The square of the distance from `p` to piece `k`.
pub open spec fn piece_dist2(p: Point, g: Seq<Point>, k: int) -> int {
    dist2(p, piece_foot(p, g, k))
}

/// The length of a line up to its point `k`, each segment's length rounded
/// down to whole units.
pub open spec fn path_length(g: Seq<Point>, k: int) -> int
    decreases k,
{
    if k <= 0 {
        0
    } else {
        path_length(g, k - 1) + dist(g[k - 1], g[k])
    }
}

/// Whether piece `k` is the nearest to `p`: none is nearer, and those before
/// it are farther.
pub open spec fn is_nearest_piece(p: Point, g: Seq<Point>, k: int) -> bool {
    &&& 0 <= k < pieces(g)
    &&& forall|j: int| 0 <= j < pieces(g) ==> piece_dist2(p, g, k) <= #[trigger] piece_dist2(p, g, j)
    &&& forall|j: int| 0 <= j < k ==> piece_dist2(p, g, k) < #[trigger] piece_dist2(p, g, j)
}

/// A length as the machine holds it: pinned to the largest number where it
/// is beyond it.
pub open spec fn pinned(n: int) -> u64 {
    if n > u64::MAX {
        u64::MAX
    } else {
        n as u64
    }
}

/// The measure of `p` against a line, taken at piece `k`.
pub open spec fn measure_at(p: Point, g: Seq<Point>, k: int) -> Measure {
    Measure {
        distance2: piece_dist2(p, g, k) as u128,
        offset: pinned(path_length(g, k) + dist(g[k], piece_foot(p, g, k))),
    }
}

/// The measure of `p` against a line; none against a line without a point.
pub open spec fn measured(p: Point, g: Seq<Point>) -> Option<Measure> {
    if exists|k: int| is_nearest_piece(p, g, k) {
        Some(measure_at(p, g, choose|k: int| is_nearest_piece(p, g, k)))
    } else {
        None
    }
}

/// A line has one nearest piece at most.
pub proof fn lemma_nearest_piece_unique(p: Point, g: Seq<Point>, k1: int, k2: int)
    requires
        is_nearest_piece(p, g, k1),
        is_nearest_piece(p, g, k2),
    ensures
        k1 == k2,
{
    if k1 < k2 {
        assert(piece_dist2(p, g, k2) < piece_dist2(p, g, k1));
        assert(piece_dist2(p, g, k1) <= piece_dist2(p, g, k2));
    } else if k2 < k1 {
        assert(piece_dist2(p, g, k1) < piece_dist2(p, g, k2));
        assert(piece_dist2(p, g, k2) <= piece_dist2(p, g, k1));
    }
}

/// Whether an edge of this kind carries transit.
pub fn is_eligible(kind: EdgeKind) -> (r: bool)
    ensures
        r == eligible(kind),
{
    match kind {
        EdgeKind::Driving => true,
        EdgeKind::Bus => true,
        _ => false,
    }
}

/// Adds two lengths, pinned to the largest number.
fn add_pinned(a: u64, b: u64) -> (r: u64)
    ensures
        r == pinned(a + b),
{
    if a > u64::MAX - b {
        u64::MAX
    } else {
        a + b
    }
}

/// Measures a point against a line: finds the nearest piece, the first of
/// them where several are equally near, and the place of the nearest point
/// along the line.
pub fn measure(p: Point, geometry: &Vec<Point>) -> (r: Option<Measure>)
    ensures
        r == measured(p, geometry@),
        r is None <==> geometry.len() == 0,
{
    let ghost g = geometry@;
    if geometry.len() == 0 {
        assert forall|k: int| !is_nearest_piece(p, g, k) by {}
        return None;
    }
    let n: usize = if geometry.len() >= 2 {
        geometry.len() - 1
    } else {
        1
    };
    let mut best: Measure = Measure { distance2: 0, offset: 0 };
    let ghost mut at: int = 0;
    let mut run: u64 = 0;
    let mut k: usize = 0;
    while k < n
        invariant
            0 <= k <= n,
            g == geometry@,
            n == pieces(g),
            n >= 1,
            k < geometry.len() ==> run == pinned(path_length(g, k as int)),
            k < geometry.len() ==> path_length(g, k as int) >= 0,
            k > 0 ==> 0 <= at < k && best == measure_at(p, g, at),
            k > 0 ==> best.distance2 == piece_dist2(p, g, at),
            k > 0 ==> forall|j: int|
                0 <= j < k ==> piece_dist2(p, g, at) <= #[trigger] piece_dist2(p, g, j),
            k > 0 ==> forall|j: int|
                0 <= j < at ==> piece_dist2(p, g, at) < #[trigger] piece_dist2(p, g, j),
        decreases n - k,
    {
        let a = geometry[k];
        let b = if k + 1 < geometry.len() {
            geometry[k + 1]
        } else {
            geometry[k]
        };
        let f = nearest_on_segment(p, a, b);
        let d2 = distance_squared(p, f);
        assert(d2 == piece_dist2(p, g, k as int));
        if k == 0 || d2 < best.distance2 {
            let here = add_pinned(run, distance(a, f));
            best = Measure { distance2: d2, offset: here };
            proof {
                at = k as int;
            }
        }
        if k + 1 < geometry.len() {
            assert(path_length(g, k + 1) == path_length(g, k as int) + dist(g[k as int], g[k + 1]));
            run = add_pinned(run, distance(a, b));
        }
        k += 1;
    }
    proof {
        assert(is_nearest_piece(p, g, at));
        let w = choose|w: int| is_nearest_piece(p, g, w);
        lemma_nearest_piece_unique(p, g, w, at);
    }
    Some(best)
}

/// A point that lies on a segment of a line has the distance zero to it.
pub proof fn lemma_point_on_line(p: Point, g: Seq<Point>, k: int)
    requires
        0 <= k,
        k + 1 < g.len(),
        on_segment(p, g[k], g[k + 1]),
    ensures
        measured(p, g) is Some,
        measured(p, g)->0.distance2 == 0,
{
    lemma_foot_of_point_on_segment(p, g[k], g[k + 1]);
    assert(piece_dist2(p, g, k) == 0);
    lemma_has_nearest_piece(p, g, pieces(g));
    let w = choose|w: int| is_nearest_piece(p, g, w);
    assert(piece_dist2(p, g, w) <= piece_dist2(p, g, k));
    lemma_dist2_nonnegative(p, piece_foot(p, g, w));
}

/// The square of a distance is not negative.
pub proof fn lemma_dist2_nonnegative(a: Point, b: Point)
    ensures
        dist2(a, b) >= 0,
{
    assert((a.x - b.x) * (a.x - b.x) >= 0) by (nonlinear_arith);
    assert((a.y - b.y) * (a.y - b.y) >= 0) by (nonlinear_arith);
}

/// Among the first `n` pieces of a line one is nearest, the first of them
/// where several are equally near.
proof fn lemma_first_nearest(p: Point, g: Seq<Point>, n: int) -> (k: int)
    requires
        1 <= n <= pieces(g),
    ensures
        0 <= k < n,
        forall|j: int| 0 <= j < n ==> piece_dist2(p, g, k) <= #[trigger] piece_dist2(p, g, j),
        forall|j: int| 0 <= j < k ==> piece_dist2(p, g, k) < #[trigger] piece_dist2(p, g, j),
    decreases n,
{
    if n == 1 {
        0
    } else {
        let before = lemma_first_nearest(p, g, n - 1);
        if piece_dist2(p, g, n - 1) < piece_dist2(p, g, before) {
            n - 1
        } else {
            before
        }
    }
}

/// A line with a point has a nearest piece.
pub proof fn lemma_has_nearest_piece(p: Point, g: Seq<Point>, n: int)
    requires
        n == pieces(g),
        g.len() > 0,
    ensures
        exists|k: int| is_nearest_piece(p, g, k),
{
    let k = lemma_first_nearest(p, g, n);
    assert(is_nearest_piece(p, g, k));
}

} // verus!
