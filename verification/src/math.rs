use vstd::prelude::*;

verus! {

/// A point of the plane.
#[derive(PartialEq, Debug, Clone, Copy)]
pub struct Point2<T> {
    pub x: T,
    pub y: T,
}

/// An axis-aligned rectangle, given by its extreme coordinates, all of them
/// included. `bottom` is the smallest `y` and `top` the largest.
#[derive(PartialEq, Debug, Clone, Copy)]
pub struct RectBounds<T> {
    pub top: T,
    pub bottom: T,
    pub right: T,
    pub left: T,
}

/// A triangle of the plane.
#[derive(Clone, Copy, Debug)]
pub struct Triangle<T> {
    pub p0: Point2<T>,
    pub p1: Point2<T>,
    pub p2: Point2<T>,
}

/// A coordinate: a value that stands for a whole number and is ordered as
/// that number is.
pub trait Coordinate: Copy {
    /// The number that the coordinate stands for.
    spec fn value(self) -> int;

    /// Whether `self` comes before `other`.
    fn below(self, other: Self) -> (yes: bool)
        ensures
            yes == (self.value() < other.value()),
    ;
}

impl Coordinate for i32 {
    open spec fn value(self) -> int {
        self as int
    }

    fn below(self, other: i32) -> (yes: bool) {
        self < other
    }
}

impl Coordinate for u32 {
    open spec fn value(self) -> int {
        self as int
    }

    fn below(self, other: u32) -> (yes: bool) {
        self < other
    }
}

/// The lesser of two coordinates; the first where they are equal.
pub open spec fn lower<T: Coordinate>(a: T, b: T) -> T {
    if b.value() < a.value() {
        b
    } else {
        a
    }
}

/// The greater of two coordinates; the first where they are equal.
pub open spec fn upper<T: Coordinate>(a: T, b: T) -> T {
    if a.value() < b.value() {
        b
    } else {
        a
    }
}

/// `bounds` is the smallest rectangle that holds every point of `points`:
/// it holds them all, and each of its four sides touches one of them.
pub open spec fn is_bounds_of<T: Coordinate>(points: Seq<Point2<T>>, bounds: RectBounds<T>) -> bool {
    &&& forall|i: int|
        0 <= i < points.len() ==> {
            &&& bounds.left.value() <= (#[trigger] points[i]).x.value() <= bounds.right.value()
            &&& bounds.bottom.value() <= points[i].y.value() <= bounds.top.value()
        }
    &&& exists|i: int| 0 <= i < points.len() && (#[trigger] points[i]).x == bounds.left
    &&& exists|i: int| 0 <= i < points.len() && (#[trigger] points[i]).x == bounds.right
    &&& exists|i: int| 0 <= i < points.len() && (#[trigger] points[i]).y == bounds.bottom
    &&& exists|i: int| 0 <= i < points.len() && (#[trigger] points[i]).y == bounds.top
}

/// The three corners of a triangle, in order.
pub open spec fn corners<T>(triangle: Triangle<T>) -> Seq<Point2<T>> {
    seq![triangle.p0, triangle.p1, triangle.p2]
}

fn smaller<T: Coordinate>(a: T, b: T) -> (m: T)
    ensures
        m == lower(a, b),
{
    if b.below(a) {
        b
    } else {
        a
    }
}

fn larger<T: Coordinate>(a: T, b: T) -> (m: T)
    ensures
        m == upper(a, b),
{
    if a.below(b) {
        b
    } else {
        a
    }
}

impl<T: Coordinate> RectBounds<T> {
    /// The two rectangles have no point in common along some axis.
    pub open spec fn disjoint(self, other: RectBounds<T>) -> bool {
        ||| self.right.value() < other.left.value()
        ||| self.left.value() > other.right.value()
        ||| self.top.value() < other.bottom.value()
        ||| self.bottom.value() > other.top.value()
    }

    /// The rectangle common to both.
    pub open spec fn intersection(self, other: RectBounds<T>) -> RectBounds<T> {
        RectBounds {
            top: lower(self.top, other.top),
            bottom: upper(self.bottom, other.bottom),
            right: lower(self.right, other.right),
            left: upper(self.left, other.left),
        }
    }

    /// The smallest rectangle that holds all of `points`; `None` where there
    /// are no points.
    pub fn bounds_of(points: &Vec<Point2<T>>) -> (bounds: Option<RectBounds<T>>)
        ensures
            points@.len() == 0 <==> bounds is None,
            bounds matches Some(b) ==> is_bounds_of(points@, b),
    {
        if points.len() == 0 {
            return None;
        }
        let first: Point2<T> = points[0];
        let mut found = RectBounds { top: first.y, bottom: first.y, right: first.x, left: first.x };
        let mut i: usize = 1;
        assert(points@.take(1)[0] == first);
        while i < points.len()
            invariant
                1 <= i <= points@.len(),
                is_bounds_of(points@.take(i as int), found),
            decreases points@.len() - i,
        {
            let p: Point2<T> = points[i];
            let ghost seen = points@.take(i as int);
            let ghost next = points@.take(i + 1);
            let ghost before = found;
            proof {
                let l = choose|k: int| 0 <= k < seen.len() && (#[trigger] seen[k]).x == before.left;
                let r = choose|k: int| 0 <= k < seen.len() && (#[trigger] seen[k]).x == before.right;
                let b = choose|k: int|
                    0 <= k < seen.len() && (#[trigger] seen[k]).y == before.bottom;
                let t = choose|k: int| 0 <= k < seen.len() && (#[trigger] seen[k]).y == before.top;
                assert(next[l] == seen[l] && next[r] == seen[r] && next[b] == seen[b] && next[t]
                    == seen[t]);
                assert(next[i as int] == p);
                assert forall|k: int| 0 <= k < seen.len() implies #[trigger] next[k] == seen[k] by {}
            }
            found =
            RectBounds {
                top: larger(found.top, p.y),
                bottom: smaller(found.bottom, p.y),
                right: larger(found.right, p.x),
                left: smaller(found.left, p.x),
            };
            i = i + 1;
        }
        assert(points@.take(i as int) =~= points@);
        Some(found)
    }

    /// The part of `self` that lies inside `bounds`; `None` where they have
    /// nothing in common.
    pub fn overlap(&self, bounds: RectBounds<T>) -> (common: Option<RectBounds<T>>)
        ensures
            common == (if self.disjoint(bounds) {
                None
            } else {
                Some(self.intersection(bounds))
            }),
    {
        if self.right.below(bounds.left) || bounds.right.below(self.left) || self.top.below(
            bounds.bottom,
        ) || bounds.top.below(self.bottom) {
            return None;
        }
        let mut overlap: RectBounds<T> = *self;
        if overlap.left.below(bounds.left) {
            overlap.left = bounds.left;
        }
        if bounds.right.below(overlap.right) {
            overlap.right = bounds.right;
        }
        if overlap.bottom.below(bounds.bottom) {
            overlap.bottom = bounds.bottom;
        }
        if bounds.top.below(overlap.top) {
            overlap.top = bounds.top;
        }
        Some(overlap)
    }

    /// The smallest rectangle that holds the three corners of `triangle`.
    pub fn bounds_of_triangle(triangle: Triangle<T>) -> (bounds: RectBounds<T>)
        ensures
            is_bounds_of(corners(triangle), bounds),
            bounds == triangle.bounds(),
    {
        let bounds = RectBounds {
            top: larger(larger(triangle.p0.y, triangle.p1.y), triangle.p2.y),
            bottom: smaller(smaller(triangle.p0.y, triangle.p1.y), triangle.p2.y),
            right: larger(larger(triangle.p0.x, triangle.p1.x), triangle.p2.x),
            left: smaller(smaller(triangle.p0.x, triangle.p1.x), triangle.p2.x),
        };
        proof {
            let c = corners(triangle);
            assert(c[0] == triangle.p0 && c[1] == triangle.p1 && c[2] == triangle.p2);
        }
        bounds
    }
}

impl<T: Coordinate> Triangle<T> {
    /// The smallest rectangle that holds the three corners.
    pub open spec fn bounds(self) -> RectBounds<T> {
        RectBounds {
            top: upper(upper(self.p0.y, self.p1.y), self.p2.y),
            bottom: lower(lower(self.p0.y, self.p1.y), self.p2.y),
            right: upper(upper(self.p0.x, self.p1.x), self.p2.x),
            left: lower(lower(self.p0.x, self.p1.x), self.p2.x),
        }
    }
}

impl<T: Copy> Triangle<T> {
    /// The triangle whose corners are the three points of `points`, in order;
    /// `None` unless there are exactly three.
    pub fn from_slice(points: &[Point2<T>]) -> (triangle: Option<Triangle<T>>)
        ensures
            triangle == (if points@.len() == 3 {
                Some(Triangle { p0: points@[0], p1: points@[1], p2: points@[2] })
            } else {
                None
            }),
    {
        if points.len() != 3 {
            None
        } else {
            Some(Triangle { p0: points[0], p1: points[1], p2: points[2] })
        }
    }
}

/// The fan of triangles `(p0, p[i+1], p[i+2])` that covers a convex polygon.
pub open spec fn fan<T>(points: Seq<T>) -> Seq<(T, T, T)> {
    if points.len() < 3 {
        Seq::empty()
    } else {
        Seq::new((points.len() - 2) as nat, |i: int| (points[0], points[i + 1], points[i + 2]))
    }
}

/// Splits a convex polygon into the triangles that share its first vertex.
/// A polygon of `n >= 3` vertices gives `n - 2` triangles; fewer vertices give
/// none.
pub fn convex_triangulation<T>(points: &Vec<T>) -> (tris: Vec<(T, T, T)>) where T: Copy
    ensures
        tris@ == fan(points@),
{
    if points.len() < 3 {
        return Vec::new();
    }
    let mut tris: Vec<(T, T, T)> = Vec::new();
    let mut i: usize = 2;
    while i < points.len()
        invariant
            2 <= i <= points@.len(),
            tris@.len() == i - 2,
            forall|k: int| 0 <= k < i - 2 ==> tris@[k] == (points@[0], points@[k + 1], points@[k + 2]),
        decreases points@.len() - i,
    {
        tris.push((points[0], points[i - 1], points[i]));
        i = i + 1;
    }
    assert(tris@ =~= fan(points@));
    tris
}

/// The vertex that comes before vertex `i` on a closed polygon of `n`
/// vertices.
pub open spec fn before(i: int, n: int) -> int {
    if i == 0 {
        n - 1
    } else {
        i - 1
    }
}

/// The edge of a closed polygon that ends in vertex `i`, as its two ends in
/// the direction of the walk.
pub open spec fn edge<P>(points: Seq<P>, i: int) -> (P, P) {
    (points[before(i, points.len() as int)], points[i])
}

/// The edge that ends in vertex `i` crosses the boundary: its two ends are
/// classified differently.
pub open spec fn crosses(flags: Seq<bool>, i: int) -> bool {
    flags[i] != flags[before(i, flags.len() as int)]
}

/// What walking the edge that ends in vertex `i` adds to a clipped polygon.
///
/// `flags[k]` says whether vertex `k` is kept, and `cuts[i]` is the point
/// where the edge from the vertex before `i` to vertex `i` meets the boundary.
/// An edge between two kept vertices gives its end; an edge that leaves gives
/// the cut; an edge that comes back gives the cut and then its end; an edge
/// between two dropped vertices gives nothing.
pub open spec fn edge_output<P>(points: Seq<P>, flags: Seq<bool>, cuts: Seq<P>, i: int) -> Seq<P> {
    let cut = if crosses(flags, i) {
        seq![cuts[i]]
    } else {
        Seq::empty()
    };
    if flags[i] {
        cut.push(points[i])
    } else {
        cut
    }
}

/// The output of the edges that end in the vertices `0 .. upto`, in order.
pub open spec fn clip_walk<P>(points: Seq<P>, flags: Seq<bool>, cuts: Seq<P>, upto: int) -> Seq<P>
    decreases upto,
{
    if upto <= 0 {
        Seq::empty()
    } else {
        clip_walk(points, flags, cuts, upto - 1) + edge_output(points, flags, cuts, upto - 1)
    }
}

/// The polygon `points` clipped, given which vertices are kept and where
/// the crossing edges are cut.
pub open spec fn clipped_polygon<P>(points: Seq<P>, flags: Seq<bool>, cuts: Seq<P>) -> Seq<P> {
    clip_walk(points, flags, cuts, points.len() as int)
}

/// Every answer that `inside` can give for `p` is yes.
pub open spec fn surely_inside<P, I: Fn(P) -> bool>(inside: I, p: P) -> bool {
    forall|b: bool| inside.ensures((p,), b) ==> b
}

/// Every answer that `inside` can give for `p` is no.
pub open spec fn surely_outside<P, I: Fn(P) -> bool>(inside: I, p: P) -> bool {
    forall|b: bool| inside.ensures((p,), b) ==> !b
}

/// `flags` holds an answer of `inside` for each vertex.
pub open spec fn classified<P, I: Fn(P) -> bool>(inside: I, points: Seq<P>, flags: Seq<bool>) -> bool {
    &&& flags.len() == points.len()
    &&& forall|i: int| 0 <= i < points.len() ==> inside.ensures((points[i],), #[trigger] flags[i])
}

/// `cuts` holds, for each edge whose two ends are classified differently, a
/// result of `cross` on those ends, taken in the direction of the walk.
pub open spec fn crossed<P, X: Fn(P, P) -> P>(
    cross: X,
    points: Seq<P>,
    flags: Seq<bool>,
    cuts: Seq<P>,
) -> bool {
    &&& cuts.len() == points.len()
    &&& flags.len() == points.len()
    &&& forall|i: int|
        0 <= i < points.len() && crosses(flags, i) ==> cross.ensures(
            edge(points, i),
            #[trigger] cuts[i],
        )
}

/// `out` is `points` clipped against the half-space that `inside` decides,
/// with the crossings that `cross` computes.
pub open spec fn clipped<P, I: Fn(P) -> bool, X: Fn(P, P) -> P>(
    inside: I,
    cross: X,
    points: Seq<P>,
    out: Seq<P>,
) -> bool {
    exists|flags: Seq<bool>, cuts: Seq<P>|
        {
            &&& classified(inside, points, flags)
            &&& crossed(cross, points, flags, cuts)
            &&& out == #[trigger] clipped_polygon(points, flags, cuts)
        }
}

/// The walk over the first `upto` edges reads no cut of a later edge.
pub proof fn lemma_walk_reads_prefix<P>(
    points: Seq<P>,
    flags: Seq<bool>,
    cuts: Seq<P>,
    other: Seq<P>,
    upto: int,
)
    requires
        forall|k: int| 0 <= k < upto ==> cuts[k] == other[k],
    ensures
        clip_walk(points, flags, cuts, upto) == clip_walk(points, flags, other, upto),
    decreases upto,
{
    if upto > 0 {
        lemma_walk_reads_prefix(points, flags, cuts, other, upto - 1);
    }
}

/// A polygon whose vertices are all kept is returned as it is: the same
/// vertices in the same order.
pub proof fn lemma_clip_keeps_inside<P>(points: Seq<P>, flags: Seq<bool>, cuts: Seq<P>)
    requires
        flags.len() == points.len(),
        forall|i: int| 0 <= i < points.len() ==> flags[i],
    ensures
        clipped_polygon(points, flags, cuts) == points,
{
    lemma_walk_all_inside(points, flags, cuts, points.len() as int);
    assert(points.take(points.len() as int) =~= points);
}

proof fn lemma_walk_all_inside<P>(points: Seq<P>, flags: Seq<bool>, cuts: Seq<P>, upto: int)
    requires
        flags.len() == points.len(),
        forall|i: int| 0 <= i < points.len() ==> flags[i],
        0 <= upto <= points.len(),
    ensures
        clip_walk(points, flags, cuts, upto) == points.take(upto),
    decreases upto,
{
    if upto > 0 {
        lemma_walk_all_inside(points, flags, cuts, upto - 1);
        assert(flags[upto - 1]);
        assert(flags[before(upto - 1, points.len() as int)]);
        assert(points.take(upto - 1) + seq![points[upto - 1]] =~= points.take(upto));
    } else {
        assert(points.take(0) =~= Seq::<P>::empty());
    }
}

/// A polygon none of whose vertices is kept is clipped to nothing.
pub proof fn lemma_clip_removes_outside<P>(points: Seq<P>, flags: Seq<bool>, cuts: Seq<P>)
    requires
        flags.len() == points.len(),
        forall|i: int| 0 <= i < points.len() ==> !flags[i],
    ensures
        clipped_polygon(points, flags, cuts).len() == 0,
{
    lemma_walk_all_outside(points, flags, cuts, points.len() as int);
}

proof fn lemma_walk_all_outside<P>(points: Seq<P>, flags: Seq<bool>, cuts: Seq<P>, upto: int)
    requires
        flags.len() == points.len(),
        forall|i: int| 0 <= i < points.len() ==> !flags[i],
        0 <= upto <= points.len(),
    ensures
        clip_walk(points, flags, cuts, upto) == Seq::<P>::empty(),
    decreases upto,
{
    if upto > 0 {
        lemma_walk_all_outside(points, flags, cuts, upto - 1);
        assert(!flags[upto - 1]);
        assert(!flags[before(upto - 1, points.len() as int)]);
        assert(Seq::<P>::empty() + Seq::<P>::empty() =~= Seq::<P>::empty());
    }
}

/// `v` is vertex `i` of `points`, which is kept, or the cut of the edge that
/// ends in vertex `i`, where that edge crosses the boundary.
pub open spec fn comes_from<P>(points: Seq<P>, flags: Seq<bool>, cuts: Seq<P>, v: P, i: int) -> bool {
    &&& 0 <= i < points.len()
    &&& ((v == points[i] && flags[i]) || (v == cuts[i] && crosses(flags, i)))
}

/// Every vertex of a clipped polygon is a kept vertex of the polygon it was
/// cut from, or the cut of an edge that crosses the boundary.
pub proof fn lemma_clip_members<P>(points: Seq<P>, flags: Seq<bool>, cuts: Seq<P>, j: int)
    requires
        flags.len() == points.len(),
        cuts.len() == points.len(),
        0 <= j < clipped_polygon(points, flags, cuts).len(),
    ensures
        exists|i: int|
            #[trigger] comes_from(points, flags, cuts, clipped_polygon(points, flags, cuts)[j], i),
{
    lemma_walk_members(points, flags, cuts, points.len() as int, j);
}

proof fn lemma_walk_members<P>(points: Seq<P>, flags: Seq<bool>, cuts: Seq<P>, upto: int, j: int)
    requires
        flags.len() == points.len(),
        cuts.len() == points.len(),
        0 <= upto <= points.len(),
        0 <= j < clip_walk(points, flags, cuts, upto).len(),
    ensures
        exists|i: int|
            #[trigger] comes_from(points, flags, cuts, clip_walk(points, flags, cuts, upto)[j], i),
    decreases upto,
{
    if upto > 0 {
        let head = clip_walk(points, flags, cuts, upto - 1);
        let last = edge_output(points, flags, cuts, upto - 1);
        if j < head.len() {
            lemma_walk_members(points, flags, cuts, upto - 1, j);
            assert((head + last)[j] == head[j]);
        } else {
            assert((head + last)[j] == last[j - head.len()]);
            assert(comes_from(points, flags, cuts, last[j - head.len()], upto - 1));
        }
    }
}

/// The edge that ends in vertex `i` leaves the kept side.
pub open spec fn leaves(flags: Seq<bool>, i: int) -> bool {
    0 <= i < flags.len() && !flags[i] && crosses(flags, i)
}

/// The edge that ends in vertex `i` comes back to the kept side.
pub open spec fn comes_back(flags: Seq<bool>, i: int) -> bool {
    0 <= i < flags.len() && flags[i] && crosses(flags, i)
}

/// The edge from `u` to `v` is one that clipping makes of the edge that ends
/// in vertex `i` and, where it runs along the boundary, the edge that ends in
/// vertex `j`: the edge itself between two kept vertices; its part up to the
/// cut where it leaves; its part from the cut on where it comes back; or the
/// stretch of the boundary from the cut of edge `i`, which leaves, to the cut
/// of edge `j`, which comes back.
pub open spec fn edge_made_of<P>(
    points: Seq<P>,
    flags: Seq<bool>,
    cuts: Seq<P>,
    u: P,
    v: P,
    i: int,
    j: int,
) -> bool {
    let from = points[before(i, points.len() as int)];
    &&& 0 <= i < points.len()
    &&& 0 <= j < points.len()
    &&& {
        ||| (j == i && flags[i] && !crosses(flags, i) && u == from && v == points[i])
        ||| (j == i && leaves(flags, i) && u == from && v == cuts[i])
        ||| (j == i && comes_back(flags, i) && u == cuts[i] && v == points[i])
        ||| (leaves(flags, i) && comes_back(flags, j) && u == cuts[i] && v == cuts[j])
    }
}

/// The edge from `u` to `v` is an edge of the polygon between two kept
/// vertices, the kept part of an edge that crosses the boundary, or a
/// stretch of the boundary between two cuts.
pub open spec fn clip_edge<P>(points: Seq<P>, flags: Seq<bool>, cuts: Seq<P>, u: P, v: P) -> bool {
    exists|i: int, j: int| #[trigger] edge_made_of(points, flags, cuts, u, v, i, j)
}

/// `v` is the cut of an edge among the first `upto` that leaves.
spec fn leaving_cut<P>(flags: Seq<bool>, cuts: Seq<P>, v: P, upto: int, i: int) -> bool {
    i < upto && leaves(flags, i) && v == cuts[i]
}

/// `v` is the cut of an edge among the first `upto` that comes back.
spec fn returning_cut<P>(flags: Seq<bool>, cuts: Seq<P>, v: P, upto: int, j: int) -> bool {
    j < upto && comes_back(flags, j) && v == cuts[j]
}

/// How the output of the first `upto` edges ends: with vertex `upto - 1`
/// where that is kept, else with the cut of an edge that leaves.
spec fn walk_ends<P>(points: Seq<P>, flags: Seq<bool>, cuts: Seq<P>, upto: int) -> bool {
    let walk = clip_walk(points, flags, cuts, upto);
    if flags[upto - 1] {
        walk.last() == points[upto - 1]
    } else {
        exists|i: int| #[trigger] leaving_cut(flags, cuts, walk.last(), upto, i)
    }
}

/// How the output of the first `upto` edges begins: where the last vertex of
/// the polygon is kept, with what the first edge gives; else with the cut of
/// an edge that comes back.
spec fn walk_begins<P>(points: Seq<P>, flags: Seq<bool>, cuts: Seq<P>, upto: int) -> bool {
    let walk = clip_walk(points, flags, cuts, upto);
    if flags[points.len() - 1] {
        walk[0] == if flags[0] {
            points[0]
        } else {
            cuts[0]
        }
    } else {
        exists|j: int| #[trigger] returning_cut(flags, cuts, walk[0], upto, j)
    }
}

proof fn lemma_walk_edges<P>(points: Seq<P>, flags: Seq<bool>, cuts: Seq<P>, upto: int)
    requires
        flags.len() == points.len(),
        cuts.len() == points.len(),
        0 <= upto <= points.len(),
    ensures
        forall|m: int|
            1 <= m < clip_walk(points, flags, cuts, upto).len() ==> clip_edge(
                points,
                flags,
                cuts,
                clip_walk(points, flags, cuts, upto)[m - 1],
                #[trigger] clip_walk(points, flags, cuts, upto)[m],
            ),
        clip_walk(points, flags, cuts, upto).len() > 0 ==> walk_ends(points, flags, cuts, upto)
            && walk_begins(points, flags, cuts, upto),
        clip_walk(points, flags, cuts, upto).len() == 0 && upto >= 1 ==> !flags[points.len() - 1]
            && !flags[upto - 1],
    decreases upto,
{
    if upto > 0 {
        let n = points.len() as int;
        let k = upto - 1;
        lemma_walk_edges(points, flags, cuts, k);
        let head = clip_walk(points, flags, cuts, k);
        let tail = edge_output(points, flags, cuts, k);
        let walk = clip_walk(points, flags, cuts, upto);
        assert(walk == head + tail);
        let back = before(k, n);
        assert(k >= 1 ==> back == k - 1);
        assert(k == 0 ==> back == n - 1);
        // What the output ended with before this edge.
        if head.len() > 0 {
            assert(k >= 1);
            assert(walk_ends(points, flags, cuts, k));
            assert(walk_begins(points, flags, cuts, k));
        }
        if tail.len() > 0 && head.len() > 0 {
            // The edge from the end of the output so far to what this edge
            // gives first.
            let u = head.last();
            let v = tail[0];
            if flags[back] {
                assert(u == points[back]);
                assert(edge_made_of(points, flags, cuts, u, v, k, k));
            } else {
                let i = choose|i: int| #[trigger] leaving_cut(flags, cuts, u, k, i);
                assert(comes_back(flags, k));
                assert(edge_made_of(points, flags, cuts, u, v, i, k));
            }
            assert(clip_edge(points, flags, cuts, u, v));
        }
        if tail.len() == 2 {
            assert(edge_made_of(points, flags, cuts, tail[0], tail[1], k, k));
            assert(clip_edge(points, flags, cuts, tail[0], tail[1]));
        }
        assert forall|m: int| 1 <= m < walk.len() implies clip_edge(
            points,
            flags,
            cuts,
            walk[m - 1],
            #[trigger] walk[m],
        ) by {
            if m < head.len() {
                assert(walk[m] == head[m] && walk[m - 1] == head[m - 1]);
            } else if m == head.len() {
                assert(walk[m] == tail[0] && walk[m - 1] == head.last());
            } else {
                assert(walk[m] == tail[1] && walk[m - 1] == tail[0]);
            }
        }
        if walk.len() > 0 {
            // How the output ends now.
            if flags[k] {
                assert(walk.last() == points[k]);
            } else if tail.len() > 0 {
                assert(walk.last() == cuts[k]);
                assert(leaving_cut(flags, cuts, walk.last(), upto, k));
            } else {
                assert(walk == head);
                assert(!flags[back]);
                let i = choose|i: int| #[trigger] leaving_cut(flags, cuts, head.last(), k, i);
                assert(leaving_cut(flags, cuts, walk.last(), upto, i));
            }
            assert(walk_ends(points, flags, cuts, upto));
            // How it begins.
            if head.len() > 0 {
                assert(walk[0] == head[0]);
                if !flags[n - 1] {
                    let j = choose|j: int| #[trigger] returning_cut(flags, cuts, head[0], k, j);
                    assert(returning_cut(flags, cuts, walk[0], upto, j));
                }
            } else {
                assert(walk[0] == tail[0]);
                if k >= 1 {
                    assert(!flags[n - 1] && !flags[back]);
                }
                if !flags[n - 1] {
                    assert(returning_cut(flags, cuts, walk[0], upto, k));
                }
            }
            assert(walk_begins(points, flags, cuts, upto));
        }
    }
}

/// Every edge of a clipped polygon, the one from its last vertex to its
/// first among them, is an edge of the polygon it was cut from between two
/// kept vertices, the kept part of an edge that crosses the boundary, or a
/// stretch of the boundary from the cut of an edge that leaves to the cut
/// of an edge that comes back.
pub proof fn lemma_clip_edges<P>(points: Seq<P>, flags: Seq<bool>, cuts: Seq<P>, m: int)
    requires
        flags.len() == points.len(),
        cuts.len() == points.len(),
        0 <= m < clipped_polygon(points, flags, cuts).len(),
    ensures
        clip_edge(
            points,
            flags,
            cuts,
            clipped_polygon(points, flags, cuts)[before(
                m,
                clipped_polygon(points, flags, cuts).len() as int,
            )],
            clipped_polygon(points, flags, cuts)[m],
        ),
{
    let n = points.len() as int;
    let out = clipped_polygon(points, flags, cuts);
    lemma_walk_edges(points, flags, cuts, n);
    if m == 0 {
        let u = out.last();
        let v = out[0];
        assert(walk_ends(points, flags, cuts, n));
        assert(walk_begins(points, flags, cuts, n));
        if flags[n - 1] {
            assert(edge_made_of(points, flags, cuts, u, v, 0, 0));
        } else {
            let i = choose|i: int| #[trigger] leaving_cut(flags, cuts, u, n, i);
            let j = choose|j: int| #[trigger] returning_cut(flags, cuts, v, n, j);
            assert(edge_made_of(points, flags, cuts, u, v, i, j));
        }
    }
}

/// The point `q` lies to the left of, or on, the line from `u` to `v`, as
/// `left` sees it.
pub open spec fn turns_left<P>(left: spec_fn(P, P, P) -> bool, u: P, v: P, q: P) -> bool {
    left(u, v, q)
}

/// The polygon is convex as `left` sees it: every vertex lies to the left
/// of, or on, the line through every edge.
pub open spec fn convex<P>(polygon: Seq<P>, left: spec_fn(P, P, P) -> bool) -> bool {
    forall|m: int, r: int|
        0 <= m < polygon.len() && 0 <= r < polygon.len() ==> #[trigger] turns_left(
            left,
            polygon[before(m, polygon.len() as int)],
            polygon[m],
            polygon[r],
        )
}

/// A cut lies between the ends of its edge: whatever line has both ends to
/// its left has the cut to its left.
pub open spec fn cuts_lie_between<P>(
    points: Seq<P>,
    flags: Seq<bool>,
    cuts: Seq<P>,
    left: spec_fn(P, P, P) -> bool,
) -> bool {
    forall|k: int, u: P, v: P|
        0 <= k < points.len() && crosses(flags, k) && turns_left(
            left,
            u,
            v,
            points[before(k, points.len() as int)],
        ) && turns_left(left, u, v, points[k]) ==> #[trigger] turns_left(left, u, v, cuts[k])
}

/// The two parts into which a cut divides its edge run as the edge does:
/// what lies to the left of the edge lies to the left of both.
pub open spec fn parts_run_as_edges<P>(
    points: Seq<P>,
    flags: Seq<bool>,
    cuts: Seq<P>,
    left: spec_fn(P, P, P) -> bool,
) -> bool {
    forall|k: int, q: P|
        0 <= k < points.len() && crosses(flags, k) && #[trigger] turns_left(
            left,
            points[before(k, points.len() as int)],
            points[k],
            q,
        ) ==> turns_left(left, points[before(k, points.len() as int)], cuts[k], q) && turns_left(
            left,
            cuts[k],
            points[k],
            q,
        )
}

/// The boundary has the kept side to its left: every kept vertex and every
/// cut lies to the left of, or on, the line from the cut of an edge that
/// leaves to the cut of an edge that comes back.
pub open spec fn boundary_keeps_left<P>(
    points: Seq<P>,
    flags: Seq<bool>,
    cuts: Seq<P>,
    left: spec_fn(P, P, P) -> bool,
) -> bool {
    forall|i: int, j: int, k: int, q: P|
        leaves(flags, i) && comes_back(flags, j) && #[trigger] comes_from(points, flags, cuts, q, k)
            ==> #[trigger] turns_left(left, cuts[i], cuts[j], q)
}

/// Clipping a convex polygon leaves a convex polygon, in a geometry where
/// cuts lie between the ends of their edges, the parts of a cut edge run as
/// the edge does, and the boundary has the kept side to its left.
pub proof fn lemma_clip_keeps_convex<P>(
    points: Seq<P>,
    flags: Seq<bool>,
    cuts: Seq<P>,
    left: spec_fn(P, P, P) -> bool,
)
    requires
        flags.len() == points.len(),
        cuts.len() == points.len(),
        convex(points, left),
        cuts_lie_between(points, flags, cuts, left),
        parts_run_as_edges(points, flags, cuts, left),
        boundary_keeps_left(points, flags, cuts, left),
    ensures
        convex(clipped_polygon(points, flags, cuts), left),
{
    let n = points.len() as int;
    let out = clipped_polygon(points, flags, cuts);
    assert forall|m: int, r: int| 0 <= m < out.len() && 0 <= r < out.len() implies #[trigger] turns_left(
        left,
        out[before(m, out.len() as int)],
        out[m],
        out[r],
    ) by {
        let u = out[before(m, out.len() as int)];
        let v = out[m];
        let q = out[r];
        lemma_clip_edges(points, flags, cuts, m);
        lemma_clip_members(points, flags, cuts, r);
        let (i, j) = choose|i: int, j: int| #[trigger] edge_made_of(points, flags, cuts, u, v, i, j);
        let k = choose|k: int| #[trigger] comes_from(points, flags, cuts, q, k);
        if leaves(flags, i) && comes_back(flags, j) && u == cuts[i] && v == cuts[j] {
            assert(turns_left(left, cuts[i], cuts[j], q));
        } else {
            // The edge is the edge that ends in vertex `i`, or a part of it;
            // the vertex lies to the left of the whole edge.
            let from = points[before(i, n)];
            let to = points[i];
            assert(turns_left(left, from, to, points[k]));
            assert(turns_left(left, from, to, points[before(k, n)]));
            if q != points[k] {
                assert(turns_left(left, from, to, cuts[k]));
            }
            assert(turns_left(left, from, to, q));
        }
    }
}

/// Asks `inside` about every vertex, once.
fn classify<P: Copy, I: Fn(P) -> bool>(points: &Vec<P>, inside: &I) -> (flags: Vec<bool>)
    requires
        forall|i: int| 0 <= i < points@.len() ==> inside.requires((#[trigger] points@[i],)),
    ensures
        classified(*inside, points@, flags@),
{
    let mut flags: Vec<bool> = Vec::new();
    let mut i: usize = 0;
    while i < points.len()
        invariant
            i <= points@.len(),
            flags@.len() == i,
            forall|k: int| 0 <= k < points@.len() ==> inside.requires((#[trigger] points@[k],)),
            forall|k: int| 0 <= k < i ==> inside.ensures((points@[k],), #[trigger] flags@[k]),
        decreases points@.len() - i,
    {
        let kept: bool = inside(points[i]);
        flags.push(kept);
        i = i + 1;
    }
    flags
}

/// Clips a closed polygon against one half-space.
///
/// `inside` says whether a vertex lies in the half-space, and `cross` gives
/// the point where the edge from its first argument to its second meets the
/// boundary. The walk starts with the edge from the last vertex to the first.
/// Each vertex is classified once, and `cross` is called only on edges whose
/// ends are classified differently.
pub fn clip<P: Copy, I: Fn(P) -> bool, X: Fn(P, P) -> P>(
    points: &Vec<P>,
    inside: &I,
    cross: &X,
) -> (out: Vec<P>)
    requires
        forall|i: int| 0 <= i < points@.len() ==> inside.requires((#[trigger] points@[i],)),
        forall|i: int| 0 <= i < points@.len() ==> cross.requires(#[trigger] edge(points@, i)),
    ensures
        clipped(*inside, *cross, points@, out@),
        (forall|i: int| 0 <= i < points@.len() ==> surely_inside(*inside, #[trigger] points@[i]))
            ==> out@ == points@,
        (forall|i: int| 0 <= i < points@.len() ==> surely_outside(*inside, #[trigger] points@[i]))
            ==> out@.len() == 0,
{
    let n: usize = points.len();
    let flags: Vec<bool> = classify(points, inside);
    let mut out: Vec<P> = Vec::new();
    let ghost mut cuts: Seq<P> = Seq::new(n as nat, |k: int| points@[0]);
    let mut i: usize = 0;
    while i < n
        invariant
            n == points@.len(),
            i <= n,
            flags@.len() == n,
            cuts.len() == n,
            out@ == clip_walk(points@, flags@, cuts, i as int),
            forall|k: int|
                0 <= k < i && crosses(flags@, k) ==> cross.ensures(
                    edge(points@, k),
                    #[trigger] cuts[k],
                ),
            forall|k: int| 0 <= k < n ==> cross.requires(#[trigger] edge(points@, k)),
        decreases n - i,
    {
        let previous: usize = if i == 0 {
            n - 1
        } else {
            i - 1
        };
        let point: P = points[i];
        let ghost old_cuts = cuts;
        let ghost old_out = out@;
        assert(edge(points@, i as int) == (points@[previous as int], point));
        if flags[i] != flags[previous] {
            let cut: P = cross(points[previous], point);
            out.push(cut);
            proof {
                cuts = cuts.update(i as int, cut);
            }
        }
        if flags[i] {
            out.push(point);
        }
        proof {
            lemma_walk_reads_prefix(points@, flags@, old_cuts, cuts, i as int);
            let emitted = edge_output(points@, flags@, cuts, i as int);
            assert(out@ =~= old_out + emitted);
            assert(clip_walk(points@, flags@, cuts, i + 1) == clip_walk(
                points@,
                flags@,
                cuts,
                i as int,
            ) + emitted);
        }
        i = i + 1;
    }
    proof {
        assert(out@ == clipped_polygon(points@, flags@, cuts));
        assert(classified(*inside, points@, flags@));
        assert(crossed(*cross, points@, flags@, cuts));
        if forall|k: int| 0 <= k < points@.len() ==> surely_inside(*inside, #[trigger] points@[k]) {
            assert forall|k: int| 0 <= k < points@.len() implies flags@[k] by {
                assert(surely_inside(*inside, points@[k]));
                assert(inside.ensures((points@[k],), flags@[k]));
            }
            lemma_clip_keeps_inside(points@, flags@, cuts);
        }
        if forall|k: int| 0 <= k < points@.len() ==> surely_outside(*inside, #[trigger] points@[k]) {
            assert forall|k: int| 0 <= k < points@.len() implies !flags@[k] by {
                assert(surely_outside(*inside, points@[k]));
                assert(inside.ensures((points@[k],), flags@[k]));
            }
            lemma_clip_removes_outside(points@, flags@, cuts);
        }
    }
    out
}

/// The number of planes that bound the view volume.
pub const FRUSTUM_PLANES: usize = 6;

/// Every answer that `inside` can give for `p` and the plane `plane` is yes.
pub open spec fn surely_inside_plane<P, I: Fn(usize, P) -> bool>(inside: I, plane: usize, p: P) -> bool {
    forall|b: bool| inside.ensures((plane, p), b) ==> b
}

/// Every answer that `inside` can give for `p` and the plane `plane` is no.
pub open spec fn surely_outside_plane<P, I: Fn(usize, P) -> bool>(inside: I, plane: usize, p: P) -> bool {
    forall|b: bool| inside.ensures((plane, p), b) ==> !b
}

/// `out` is `points` clipped against the plane `plane`: some classification
/// of the vertices by `inside` and some cuts by `cross`, both asked about
/// that plane, give `out`.
pub open spec fn clipped_by_plane<P, I: Fn(usize, P) -> bool, X: Fn(usize, P, P) -> P>(
    inside: I,
    cross: X,
    plane: usize,
    points: Seq<P>,
    out: Seq<P>,
) -> bool {
    exists|flags: Seq<bool>, cuts: Seq<P>|
        {
            &&& flags.len() == points.len()
            &&& cuts.len() == points.len()
            &&& forall|i: int|
                0 <= i < points.len() ==> inside.ensures((plane, points[i]), #[trigger] flags[i])
            &&& forall|i: int|
                0 <= i < points.len() && crosses(flags, i) ==> cross.ensures(
                    (plane, edge(points, i).0, edge(points, i).1),
                    #[trigger] cuts[i],
                )
            &&& out == #[trigger] clipped_polygon(points, flags, cuts)
        }
}

/// `stages` are the polygons that clipping `points` against the planes
/// `0 .. planes` goes through, the polygon itself first.
pub open spec fn clip_stages<P, I: Fn(usize, P) -> bool, X: Fn(usize, P, P) -> P>(
    inside: I,
    cross: X,
    points: Seq<P>,
    stages: Seq<Seq<P>>,
    planes: int,
) -> bool {
    &&& stages.len() == planes + 1
    &&& stages[0] == points
    &&& forall|k: int|
        0 <= k < planes ==> clipped_by_plane(inside, cross, k as usize, stages[k], #[trigger] stages[k + 1])
}

/// `out` is `points` clipped against all the planes of the view volume, in
/// the order of their numbers.
pub open spec fn clipped_in_box<P, I: Fn(usize, P) -> bool, X: Fn(usize, P, P) -> P>(
    inside: I,
    cross: X,
    points: Seq<P>,
    out: Seq<P>,
) -> bool {
    exists|stages: Seq<Seq<P>>|
        #[trigger] clip_stages(inside, cross, points, stages, FRUSTUM_PLANES as int)
            && stages[FRUSTUM_PLANES as int] == out
}

/// `p` lies in the region `region`.
pub open spec fn lies_in<P>(region: spec_fn(P) -> bool, p: P) -> bool {
    region(p)
}

/// Every point of `points` lies in `region`.
pub open spec fn all_lie_in<P>(region: spec_fn(P) -> bool, points: Seq<P>) -> bool {
    forall|i: int| 0 <= i < points.len() ==> lies_in(region, #[trigger] points[i])
}

/// `region` lies outside the plane `plane`, and no cut that is made before
/// that plane is reached leads out of it: every point of `region` is surely
/// outside `plane`, and cutting an edge between two points of `region` at an
/// earlier plane gives a point of `region`. Nothing is asked of cuts where
/// `plane` is the first plane.
pub open spec fn stays_outside<P, I: Fn(usize, P) -> bool, X: Fn(usize, P, P) -> P>(
    inside: I,
    cross: X,
    plane: usize,
    region: spec_fn(P) -> bool,
) -> bool {
    &&& forall|p: P| #[trigger] lies_in(region, p) ==> surely_outside_plane(inside, plane, p)
    &&& forall|at: usize, a: P, b: P, cut: P|
        at < plane && lies_in(region, a) && lies_in(region, b) && #[trigger] cross.ensures(
            (at, a, b),
            cut,
        ) ==> lies_in(region, cut)
}

/// The points that are surely outside the plane `plane`.
pub open spec fn outside_of<P, I: Fn(usize, P) -> bool>(inside: I, plane: usize) -> spec_fn(
    P,
) -> bool {
    |p: P| surely_outside_plane(inside, plane, p)
}

/// The distance of `p` from the plane `plane`, as `distance` measures it;
/// not negative on the kept side.
pub open spec fn distance_from<P>(distance: spec_fn(usize, P) -> int, plane: usize, p: P) -> int {
    distance(plane, p)
}

/// The points at a negative distance from the plane `plane`.
pub open spec fn beyond<P>(distance: spec_fn(usize, P) -> int, plane: usize) -> spec_fn(P) -> bool {
    |p: P| distance_from(distance, plane, p) < 0
}

/// Whatever `inside` answers is the sign of the distance.
pub open spec fn sides_by_distance<P, I: Fn(usize, P) -> bool>(
    inside: I,
    distance: spec_fn(usize, P) -> int,
) -> bool {
    forall|plane: usize, p: P, kept: bool|
        #[trigger] inside.ensures((plane, p), kept) ==> kept == (distance_from(distance, plane, p)
            >= 0)
}

/// `cut` is a blend of two points at the distances `from` and `to`: some
/// positive multiple of it is the sum of multiples of the two, neither
/// negative and not both zero.
pub open spec fn blend_of(from: int, to: int, cut: int) -> bool {
    exists|share_from: int, share_to: int, scale: int|
        #![trigger share_from * from, share_to * to, scale * cut]
        share_from >= 0 && share_to >= 0 && share_from + share_to > 0 && scale > 0 && scale * cut
            == share_from * from + share_to * to
}

/// The distance of every cut from every plane is a blend of the distances
/// of the two ends of its edge, as it is where the cut is a blend of the two
/// ends and the distances are linear.
pub open spec fn cuts_blend_distances<P, X: Fn(usize, P, P) -> P>(
    cross: X,
    distance: spec_fn(usize, P) -> int,
) -> bool {
    forall|at: usize, a: P, b: P, cut: P|
        #[trigger] cross.ensures((at, a, b), cut) ==> forall|plane: usize|
            blend_of(
                distance_from(distance, plane, a),
                distance_from(distance, plane, b),
                #[trigger] distance_from(distance, plane, cut),
            )
}

/// A blend of two negative distances is negative.
proof fn lemma_blend_is_negative(from: int, to: int, cut: int)
    requires
        from < 0,
        to < 0,
        blend_of(from, to, cut),
    ensures
        cut < 0,
{
    let (share_from, share_to, scale) = choose|share_from: int, share_to: int, scale: int|
        #![trigger share_from * from, share_to * to, scale * cut]
        share_from >= 0 && share_to >= 0 && share_from + share_to > 0 && scale > 0 && scale * cut
            == share_from * from + share_to * to;
    assert(share_from * from + share_to * to < 0) by (nonlinear_arith)
        requires
            from < 0,
            to < 0,
            share_from >= 0,
            share_to >= 0,
            share_from + share_to > 0,
    ;
    assert(cut < 0) by (nonlinear_arith)
        requires
            scale > 0,
            scale * cut < 0,
    ;
}

/// Where the sides are the signs of distances and cuts blend the distances
/// of the ends of their edges, the points at a negative distance from a
/// plane stay outside it. With this, `clip_in_box` clips every polygon whose
/// vertices are at a negative distance from one of the planes to nothing.
pub proof fn lemma_blends_stay_outside<P, I: Fn(usize, P) -> bool, X: Fn(usize, P, P) -> P>(
    inside: I,
    cross: X,
    distance: spec_fn(usize, P) -> int,
    plane: usize,
)
    requires
        sides_by_distance(inside, distance),
        cuts_blend_distances(cross, distance),
    ensures
        stays_outside(inside, cross, plane, beyond(distance, plane)),
{
    let region = beyond(distance, plane);
    assert forall|at: usize, a: P, b: P, cut: P|
        at < plane && lies_in(region, a) && lies_in(region, b) && #[trigger] cross.ensures(
            (at, a, b),
            cut,
        ) implies lies_in(region, cut) by {
        let from = distance_from(distance, plane, a);
        let to = distance_from(distance, plane, b);
        let at_cut = distance_from(distance, plane, cut);
        assert(blend_of(from, to, at_cut));
        lemma_blend_is_negative(from, to, at_cut);
    }
}

/// Clips a closed polygon against the plane `plane`, as `clip` does, with
/// `inside` and `cross` asked about that plane.
pub fn clip_against<P: Copy, I: Fn(usize, P) -> bool, X: Fn(usize, P, P) -> P>(
    points: &Vec<P>,
    plane: usize,
    inside: &I,
    cross: &X,
) -> (out: Vec<P>)
    requires
        forall|i: int| 0 <= i < points@.len() ==> inside.requires((plane, #[trigger] points@[i])),
        forall|i: int|
            0 <= i < points@.len() ==> cross.requires(
                (plane, (#[trigger] edge(points@, i)).0, edge(points@, i).1),
            ),
    ensures
        clipped_by_plane(*inside, *cross, plane, points@, out@),
        (forall|i: int|
            0 <= i < points@.len() ==> surely_inside_plane(*inside, plane, #[trigger] points@[i]))
            ==> out@ == points@,
        (forall|i: int|
            0 <= i < points@.len() ==> surely_outside_plane(*inside, plane, #[trigger] points@[i]))
            ==> out@.len() == 0,
        forall|other: usize, region: spec_fn(P) -> bool|
            #![trigger stays_outside(*inside, *cross, other, region)]
            plane < other && stays_outside(*inside, *cross, other, region) && all_lie_in(
                region,
                points@,
            ) ==> all_lie_in(region, out@),
{
    let in_plane = |p: P| -> (kept: bool)
        requires
            inside.requires((plane, p)),
        ensures
            inside.ensures((plane, p), kept),
        { inside(plane, p) };
    let cross_plane = |a: P, b: P| -> (cut: P)
        requires
            cross.requires((plane, a, b)),
        ensures
            cross.ensures((plane, a, b), cut),
        { cross(plane, a, b) };
    let out: Vec<P> = clip(points, &in_plane, &cross_plane);
    proof {
        let (flags, cuts) = choose|flags: Seq<bool>, cuts: Seq<P>|
            {
                &&& classified(in_plane, points@, flags)
                &&& crossed(cross_plane, points@, flags, cuts)
                &&& out@ == #[trigger] clipped_polygon(points@, flags, cuts)
            };
        assert(clipped_by_plane(*inside, *cross, plane, points@, out@)) by {
            assert(out@ == clipped_polygon(points@, flags, cuts));
        }
        assert forall|i: int|
            0 <= i < points@.len() && surely_inside_plane(
                *inside,
                plane,
                #[trigger] points@[i],
            ) implies surely_inside(in_plane, points@[i]) by {}
        assert forall|i: int|
            0 <= i < points@.len() && surely_outside_plane(
                *inside,
                plane,
                #[trigger] points@[i],
            ) implies surely_outside(in_plane, points@[i]) by {}
        assert forall|other: usize, region: spec_fn(P) -> bool|
            #![trigger stays_outside(*inside, *cross, other, region)]
            plane < other && stays_outside(*inside, *cross, other, region) && all_lie_in(
                region,
                points@,
            ) implies all_lie_in(region, out@) by {
            assert forall|j: int| 0 <= j < out@.len() implies lies_in(region, #[trigger] out@[j]) by {
                lemma_clip_members(points@, flags, cuts, j);
                let i = choose|i: int| #[trigger] comes_from(points@, flags, cuts, out@[j], i);
                if out@[j] != points@[i] {
                    let a = points@[before(i, points@.len() as int)];
                    let b = points@[i];
                    assert(cross.ensures((plane, a, b), cuts[i]));
                    assert(lies_in(region, a));
                    assert(lies_in(region, b));
                }
            }
        }
    }
    out
}

/// Clips a closed polygon against the planes `0 .. FRUSTUM_PLANES`, one
/// after the other.
///
/// `inside(k, p)` says whether `p` lies on the kept side of plane `k`, and
/// `cross(k, a, b)` gives the point where the edge from `a` to `b` meets
/// plane `k`.
///
/// A polygon inside all the planes comes back unchanged. A polygon outside
/// the first plane is clipped to nothing. One outside a later plane is
/// clipped to nothing provided that it lies in a region outside that plane
/// which the cuts made before the plane is reached do not lead out of.
pub fn clip_in_box<P: Copy, I: Fn(usize, P) -> bool, X: Fn(usize, P, P) -> P>(
    points: &Vec<P>,
    inside: &I,
    cross: &X,
) -> (out: Vec<P>)
    requires
        forall|plane: usize, p: P| plane < FRUSTUM_PLANES ==> inside.requires((plane, p)),
        forall|plane: usize, a: P, b: P| plane < FRUSTUM_PLANES ==> cross.requires((plane, a, b)),
    ensures
        clipped_in_box(*inside, *cross, points@, out@),
        (forall|plane: usize, i: int|
            plane < FRUSTUM_PLANES && 0 <= i < points@.len() ==> #[trigger] surely_inside_plane(
                *inside,
                plane,
                points@[i],
            )) ==> out@ == points@,
        (forall|i: int|
            0 <= i < points@.len() ==> surely_outside_plane(*inside, 0, #[trigger] points@[i]))
            ==> out@.len() == 0,
        forall|plane: usize, region: spec_fn(P) -> bool|
            #![trigger stays_outside(*inside, *cross, plane, region)]
            plane < FRUSTUM_PLANES && stays_outside(*inside, *cross, plane, region) && all_lie_in(
                region,
                points@,
            ) ==> out@.len() == 0,
{
    let mut current: Vec<P> = clip_against(points, 0, inside, cross);
    let ghost mut stages: Seq<Seq<P>> = seq![points@, current@];
    let mut plane: usize = 1;
    while plane < FRUSTUM_PLANES
        invariant
            1 <= plane <= FRUSTUM_PLANES,
            forall|k: usize, p: P| k < FRUSTUM_PLANES ==> inside.requires((k, p)),
            forall|k: usize, a: P, b: P| k < FRUSTUM_PLANES ==> cross.requires((k, a, b)),
            clip_stages(*inside, *cross, points@, stages, plane as int),
            stages[plane as int] == current@,
            (forall|k: usize, i: int|
                k < FRUSTUM_PLANES && 0 <= i < points@.len() ==> #[trigger] surely_inside_plane(
                    *inside,
                    k,
                    points@[i],
                )) ==> current@ == points@,
            forall|k: usize, region: spec_fn(P) -> bool|
                #![trigger stays_outside(*inside, *cross, k, region)]
                k < FRUSTUM_PLANES && stays_outside(*inside, *cross, k, region) && all_lie_in(
                    region,
                    points@,
                ) ==> if k < plane {
                    current@.len() == 0
                } else {
                    all_lie_in(region, current@)
                },
        decreases FRUSTUM_PLANES - plane,
    {
        let ghost previous = current@;
        let ghost old_stages = stages;
        let next: Vec<P> = clip_against(&current, plane, inside, cross);
        proof {
            stages = stages.push(next@);
            assert forall|k: int| 0 <= k < plane + 1 implies clipped_by_plane(
                *inside,
                *cross,
                k as usize,
                stages[k],
                #[trigger] stages[k + 1],
            ) by {
                if k < plane {
                    assert(stages[k] == old_stages[k]);
                    assert(stages[k + 1] == old_stages[k + 1]);
                }
            }
            assert forall|k: usize, region: spec_fn(P) -> bool|
                #![trigger stays_outside(*inside, *cross, k, region)]
                k < FRUSTUM_PLANES && stays_outside(*inside, *cross, k, region) && all_lie_in(
                    region,
                    points@,
                ) implies if k < plane + 1 {
                next@.len() == 0
            } else {
                all_lie_in(region, next@)
            } by {
                if k == plane {
                    assert forall|i: int| 0 <= i < previous.len() implies surely_outside_plane(
                        *inside,
                        plane,
                        #[trigger] previous[i],
                    ) by {
                        assert(lies_in(region, previous[i]));
                    }
                }
            }
        }
        current = next;
        plane = plane + 1;
    }
    proof {
        assert(clip_stages(*inside, *cross, points@, stages, FRUSTUM_PLANES as int));
        let first = outside_of(*inside, 0);
        assert(stays_outside(*inside, *cross, 0, first));
        if forall|i: int|
            0 <= i < points@.len() ==> surely_outside_plane(*inside, 0, #[trigger] points@[i]) {
            assert forall|i: int| 0 <= i < points@.len() implies lies_in(
                first,
                #[trigger] points@[i],
            ) by {
                assert(surely_outside_plane(*inside, 0, points@[i]));
            }
            assert(all_lie_in(first, points@));
        }
    }
    current
}

/// Clips a triangle against the view volume and splits what is left into
/// triangles.
///
/// A triangle that lies inside all the planes comes back alone and
/// unchanged. A triangle that lies outside the first plane gives no
/// triangle. One that lies outside a later plane gives none provided that
/// it lies in a region outside that plane which the cuts made before the
/// plane is reached do not lead out of.
pub fn clip_triangle<P: Copy, I: Fn(usize, P) -> bool, X: Fn(usize, P, P) -> P>(
    v0: P,
    v1: P,
    v2: P,
    inside: &I,
    cross: &X,
) -> (triangles: Vec<(P, P, P)>)
    requires
        forall|plane: usize, p: P| plane < FRUSTUM_PLANES ==> inside.requires((plane, p)),
        forall|plane: usize, a: P, b: P| plane < FRUSTUM_PLANES ==> cross.requires((plane, a, b)),
    ensures
        exists|polygon: Seq<P>|
            clipped_in_box(*inside, *cross, seq![v0, v1, v2], polygon) && triangles@
                == #[trigger] fan(polygon),
        (forall|plane: usize|
            plane < FRUSTUM_PLANES ==> #[trigger] surely_inside_plane(*inside, plane, v0)
                && surely_inside_plane(*inside, plane, v1) && surely_inside_plane(
                *inside,
                plane,
                v2,
            )) ==> triangles@ == seq![(v0, v1, v2)],
        surely_outside_plane(*inside, 0, v0) && surely_outside_plane(*inside, 0, v1)
            && surely_outside_plane(*inside, 0, v2) ==> triangles@.len() == 0,
        forall|plane: usize, region: spec_fn(P) -> bool|
            #![trigger stays_outside(*inside, *cross, plane, region)]
            plane < FRUSTUM_PLANES && stays_outside(*inside, *cross, plane, region) && lies_in(
                region,
                v0,
            ) && lies_in(region, v1) && lies_in(region, v2) ==> triangles@.len() == 0,
{
    let mut corners: Vec<P> = Vec::new();
    corners.push(v0);
    corners.push(v1);
    corners.push(v2);
    assert(corners@ =~= seq![v0, v1, v2]);
    let polygon: Vec<P> = clip_in_box(&corners, inside, cross);
    let triangles: Vec<(P, P, P)> = convex_triangulation(&polygon);
    proof {
        assert(clipped_in_box(*inside, *cross, seq![v0, v1, v2], polygon@));
        if forall|plane: usize|
            plane < FRUSTUM_PLANES ==> #[trigger] surely_inside_plane(*inside, plane, v0)
                && surely_inside_plane(*inside, plane, v1) && surely_inside_plane(
                *inside,
                plane,
                v2,
            ) {
            assert forall|plane: usize, i: int|
                plane < FRUSTUM_PLANES && 0 <= i < corners@.len() implies #[trigger] surely_inside_plane(
                *inside,
                plane,
                corners@[i],
            ) by {
                assert(surely_inside_plane(*inside, plane, v0));
            }
            assert(triangles@ =~= seq![(v0, v1, v2)]);
        }
        assert forall|plane: usize, region: spec_fn(P) -> bool|
            #![trigger stays_outside(*inside, *cross, plane, region)]
            plane < FRUSTUM_PLANES && stays_outside(*inside, *cross, plane, region) && lies_in(
                region,
                v0,
            ) && lies_in(region, v1) && lies_in(region, v2) implies triangles@.len() == 0 by {
            assert(all_lie_in(region, corners@));
        }
    }
    triangles
}

} // verus!
