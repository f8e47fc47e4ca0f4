//! The topological mesh-adjacency structure: triangles and edges keyed as
//! unordered point sets, a point index and an edge index mapping each to the
//! triangles touching it, and smoothed per-point normals at flatten time.

use vstd::prelude::*;

verus! {

use crate::geometry::{Point, Vec3i, norm_fixed_spec, normalize_fixed, tdiv, tdiv_i64, NORMAL_FP};
use crate::vertex::{vertex_from, Vertex};

/// More triangles than any volume in range could produce; keeps normal sums
/// inside `i64`.
pub const MAX_TRIANGLES: usize = 0x1000_0000;

/// Lexicographic order on grid points, by `x`, then `y`, then `z`.
pub open spec fn point_le(a: Point, b: Point) -> bool {
    if a.x != b.x {
        a.x < b.x
    } else if a.y != b.y {
        a.y < b.y
    } else {
        a.z <= b.z
    }
}

/// The three points arranged in lexicographic order.
pub open spec fn sort3(a: Point, b: Point, c: Point) -> (Point, Point, Point) {
    if point_le(a, b) {
        if point_le(b, c) {
            (a, b, c)
        } else if point_le(a, c) {
            (a, c, b)
        } else {
            (c, a, b)
        }
    } else {
        if point_le(a, c) {
            (b, a, c)
        } else if point_le(b, c) {
            (b, c, a)
        } else {
            (c, b, a)
        }
    }
}

/// The two points arranged in lexicographic order.
pub open spec fn sort2(a: Point, b: Point) -> (Point, Point) {
    if point_le(a, b) {
        (a, b)
    } else {
        (b, a)
    }
}

fn le(a: &Point, b: &Point) -> (r: bool)
    ensures
        r == point_le(*a, *b),
{
    if a.x != b.x {
        a.x < b.x
    } else if a.y != b.y {
        a.y < b.y
    } else {
        a.z <= b.z
    }
}

/// An unordered triple of grid points: two triangles with the same three
/// points, in any order, are equal.
#[derive(Clone, Copy, Debug)]
pub struct Triangle {
    pub points: [Point; 3],
}

/// Triangle equality: the same three points, ignoring order.
pub open spec fn tri_eq(a: Triangle, b: Triangle) -> bool {
    sort3(a.points[0], a.points[1], a.points[2]) == sort3(b.points[0], b.points[1], b.points[2])
}

/// All three corner points lie inside the coordinate range the integer
/// geometry accepts.
pub open spec fn tri_in_range(t: Triangle) -> bool {
    t.points[0].in_range() && t.points[1].in_range() && t.points[2].in_range()
}

/// The triangle's own face normal: the normalized cross product
/// `(p1 - p0) x (p2 - p0)`, in fixed point.
pub open spec fn face_normal_spec(t: Triangle) -> Vec3i {
    norm_fixed_spec(
        t.points[1].spec_sub(t.points[0]).spec_cross(t.points[2].spec_sub(t.points[0])),
    )
}

impl Triangle {
    /// A triangle from exactly 3 points, kept in the order given.
    pub fn new(points: &[Point]) -> (t: Triangle)
        requires
            points@.len() == 3,
        ensures
            t.points@ == points@,
    {
        let t = Triangle { points: [points[0], points[1], points[2]] };
        proof {
            assert(t.points@ =~= points@);
        }
        t
    }

    /// The face normal in fixed point.
    pub fn get_normal(&self) -> (n: Vec3i)
        requires
            tri_in_range(*self),
        ensures
            n == face_normal_spec(*self),
            n.bounded(NORMAL_FP as int),
    {
        let d1 = self.points[1].sub(&self.points[0]);
        let d2 = self.points[2].sub(&self.points[0]);
        let c = d1.cross(&d2);
        proof {
            crate::geometry::lemma_cross_bounded(d1, d2, crate::geometry::MAX_DIM as int);
        }
        normalize_fixed(&c)
    }
}

impl PartialEq for Triangle {
    fn eq(&self, other: &Triangle) -> (r: bool) {
        let s = sort3_exec(&self.points[0], &self.points[1], &self.points[2]);
        let o = sort3_exec(&other.points[0], &other.points[1], &other.points[2]);
        s.0 == o.0 && s.1 == o.1 && s.2 == o.2
    }
}

impl vstd::std_specs::cmp::PartialEqSpecImpl for Triangle {
    open spec fn obeys_eq_spec() -> bool {
        true
    }

    open spec fn eq_spec(&self, other: &Triangle) -> bool {
        tri_eq(*self, *other)
    }
}

fn sort3_exec(a: &Point, b: &Point, c: &Point) -> (r: (Point, Point, Point))
    ensures
        r == sort3(*a, *b, *c),
{
    if le(a, b) {
        if le(b, c) {
            (*a, *b, *c)
        } else if le(a, c) {
            (*a, *c, *b)
        } else {
            (*c, *a, *b)
        }
    } else {
        if le(a, c) {
            (*b, *a, *c)
        } else if le(b, c) {
            (*b, *c, *a)
        } else {
            (*c, *b, *a)
        }
    }
}

/// An unordered pair of grid points: the same two points in either order
/// make the same edge.
#[derive(Clone, Copy, Debug)]
pub struct Edge {
    pub points: [Point; 2],
}

/// Edge equality: the same two points, ignoring order.
pub open spec fn edge_eq(a: Edge, b: Edge) -> bool {
    sort2(a.points[0], a.points[1]) == sort2(b.points[0], b.points[1])
}

impl Edge {
    /// An edge from its two endpoints, kept in the order given.
    pub fn new(start: &Point, end: &Point) -> (e: Edge)
        ensures
            e.points[0] == *start,
            e.points[1] == *end,
    {
        Edge { points: [*start, *end] }
    }
}

impl PartialEq for Edge {
    fn eq(&self, other: &Edge) -> (r: bool) {
        let s = sort2_exec(&self.points[0], &self.points[1]);
        let o = sort2_exec(&other.points[0], &other.points[1]);
        s.0 == o.0 && s.1 == o.1
    }
}

impl vstd::std_specs::cmp::PartialEqSpecImpl for Edge {
    open spec fn obeys_eq_spec() -> bool {
        true
    }

    open spec fn eq_spec(&self, other: &Edge) -> bool {
        edge_eq(*self, *other)
    }
}

fn sort2_exec(a: &Point, b: &Point) -> (r: (Point, Point))
    ensures
        r == sort2(*a, *b),
{
    if le(a, b) {
        (*a, *b)
    } else {
        (*b, *a)
    }
}

/// A triangle touches a point when the point is one of its corners.
pub open spec fn touches(t: Triangle, p: Point) -> bool {
    t.points@.contains(p)
}

/// The three edges of a triangle, each an unordered corner pair.
pub open spec fn tri_edges(t: Triangle) -> (Edge, Edge, Edge) {
    (
        Edge { points: [t.points[0], t.points[1]] },
        Edge { points: [t.points[0], t.points[2]] },
        Edge { points: [t.points[1], t.points[2]] },
    )
}

/// A triangle has an edge when the edge equals one of its three corner pairs.
pub open spec fn tri_has_edge(t: Triangle, e: Edge) -> bool {
    edge_eq(tri_edges(t).0, e) || edge_eq(tri_edges(t).1, e) || edge_eq(tri_edges(t).2, e)
}

/// The filter predicate "touches the point `p`".
pub open spec fn touch_pred(p: Point) -> spec_fn(Triangle) -> bool {
    |x: Triangle| touches(x, p)
}

/// The filter predicate "has the edge `e`".
pub open spec fn edge_pred(e: Edge) -> spec_fn(Triangle) -> bool {
    |x: Triangle| tri_has_edge(x, e)
}

/// One row of the point index: a point and the triangles touching it, in
/// insertion order.
pub struct PointEntry {
    pub key: Point,
    pub list: Vec<Triangle>,
}

/// One row of the edge index: an edge and the triangles touching it, in
/// insertion order.
pub struct EdgeEntry {
    pub key: Edge,
    pub list: Vec<Triangle>,
}

/// The point index has a row keyed by `p`.
pub open spec fn seq_has_point_key(pn: Seq<PointEntry>, p: Point) -> bool {
    exists|k: int| 0 <= k < pn.len() && (#[trigger] pn[k]).key == p
}

/// The edge index has a row keyed by an edge equal to `e`.
pub open spec fn seq_has_edge_key(en: Seq<EdgeEntry>, e: Edge) -> bool {
    exists|k: int| 0 <= k < en.len() && edge_eq((#[trigger] en[k]).key, e)
}

/// Some member of `done` equals the edge `e` as an unordered pair.
pub open spec fn done_has_edge(done: Set<Edge>, e: Edge) -> bool {
    exists|d: Edge| done.contains(d) && edge_eq(d, e)
}

/// The point-index rows reflect the triangle list `tris`, except that rows
/// whose key is in `done` already include the incoming triangle `t`.
pub open spec fn point_rows_match(
    pn: Seq<PointEntry>, tris: Seq<Triangle>, t: Triangle, done: Set<Point>) -> bool {
    forall|k: int|
        0 <= k < pn.len() ==> (#[trigger] pn[k]).list@ == (
            if done.contains(pn[k].key) {
                tris.push(t).filter(touch_pred(pn[k].key))
            } else {
                tris.filter(touch_pred(pn[k].key))
            }
        )
}

/// The edge-index rows reflect the triangle list `tris`, except that rows
/// whose key is (up to unordered-pair equality) in `done` already include the
/// incoming triangle `t`.
pub open spec fn edge_rows_match(
    en: Seq<EdgeEntry>, tris: Seq<Triangle>, t: Triangle, done: Set<Edge>) -> bool {
    forall|k: int|
        0 <= k < en.len() ==> (#[trigger] en[k]).list@ == (
            if done_has_edge(done, en[k].key) {
                tris.push(t).filter(edge_pred(en[k].key))
            } else {
                tris.filter(edge_pred(en[k].key))
            }
        )
}

/// The point-index keys are pairwise distinct.
pub open spec fn point_keys_distinct(pn: Seq<PointEntry>) -> bool {
    forall|k: int, l: int| 0 <= k < l < pn.len() ==> pn[k].key != pn[l].key
}

/// The edge-index keys are pairwise distinct as unordered pairs.
pub open spec fn edge_keys_distinct(en: Seq<EdgeEntry>) -> bool {
    forall|k: int, l: int| 0 <= k < l < en.len() ==> !edge_eq(en[k].key, en[l].key)
}

/// The mesh-adjacency structure: the set of distinct triangles, a point
/// index, and an edge index. Built incrementally; entries are never removed.
pub struct Mesh {
    pub point_neighbors: Vec<PointEntry>,
    pub edge_neighbors: Vec<EdgeEntry>,
    pub triangles: Vec<Triangle>,
}

impl Mesh {
    /// Some stored triangle equals `t` as an unordered point set.
    pub open spec fn has_triangle(self, t: Triangle) -> bool {
        exists|i: int| 0 <= i < self.triangles@.len() && tri_eq(#[trigger] self.triangles@[i], t)
    }

    /// The point index has a row for `p`.
    pub open spec fn has_point_key(self, p: Point) -> bool {
        seq_has_point_key(self.point_neighbors@, p)
    }

    /// The edge index has a row for `e` (up to unordered-pair equality).
    pub open spec fn has_edge_key(self, e: Edge) -> bool {
        seq_has_edge_key(self.edge_neighbors@, e)
    }

    /// Internal consistency: triangles are distinct and in coordinate range;
    /// each index row holds exactly the stored triangles touching its key, in
    /// insertion order; keys are distinct; and every corner and every edge of
    /// every stored triangle has a row.
    pub open spec fn wf(self) -> bool {
        &&& forall|i: int|
            0 <= i < self.triangles@.len() ==> tri_in_range(#[trigger] self.triangles@[i])
        &&& forall|i: int, j: int|
            0 <= i < j < self.triangles@.len()
                ==> !tri_eq(self.triangles@[i], self.triangles@[j])
        &&& self.triangles@.len() <= MAX_TRIANGLES
        &&& forall|k: int|
            0 <= k < self.point_neighbors@.len()
                ==> (#[trigger] self.point_neighbors@[k]).list@ == self.triangles@.filter(
                    touch_pred(self.point_neighbors@[k].key))
        &&& point_keys_distinct(self.point_neighbors@)
        &&& forall|k: int|
            0 <= k < self.edge_neighbors@.len()
                ==> (#[trigger] self.edge_neighbors@[k]).list@ == self.triangles@.filter(
                    edge_pred(self.edge_neighbors@[k].key))
        &&& edge_keys_distinct(self.edge_neighbors@)
        &&& forall|i: int|
            0 <= i < self.triangles@.len() ==> {
                let t = #[trigger] self.triangles@[i];
                self.has_point_key(t.points[0])
                    && self.has_point_key(t.points[1])
                    && self.has_point_key(t.points[2])
                    && self.has_edge_key(tri_edges(t).0)
                    && self.has_edge_key(tri_edges(t).1)
                    && self.has_edge_key(tri_edges(t).2)
            }
    }

    /// An empty mesh.
    pub fn new() -> (m: Mesh)
        ensures
            m.wf(),
            m.triangles@.len() == 0,
            m.point_neighbors@.len() == 0,
            m.edge_neighbors@.len() == 0,
    {
        Mesh { point_neighbors: Vec::new(), edge_neighbors: Vec::new(), triangles: Vec::new() }
    }

    /// Whether an equal (as an unordered point set) triangle is stored.
    pub fn contains_triangle(&self, t: &Triangle) -> (r: bool)
        ensures
            r == self.has_triangle(*t),
    {
        let mut i: usize = 0;
        while i < self.triangles.len()
            invariant
                i <= self.triangles@.len(),
                forall|j: int| 0 <= j < i ==> !tri_eq(#[trigger] self.triangles@[j], *t),
            decreases self.triangles@.len() - i,
        {
            if self.triangles[i] == *t {
                return true;
            }
            i = i + 1;
        }
        false
    }

    /// The row index of a point already in the point index.
    fn find_point_entry(&self, p: &Point) -> (r: Option<usize>)
        ensures
            match r {
                Some(k) => k < self.point_neighbors@.len()
                    && self.point_neighbors@[k as int].key == *p,
                None => !self.has_point_key(*p),
            },
    {
        let mut i: usize = 0;
        while i < self.point_neighbors.len()
            invariant
                i <= self.point_neighbors@.len(),
                forall|j: int|
                    0 <= j < i ==> (#[trigger] self.point_neighbors@[j]).key != *p,
            decreases self.point_neighbors@.len() - i,
        {
            if self.point_neighbors[i].key == *p {
                return Some(i);
            }
            i = i + 1;
        }
        None
    }

    /// The row index of an edge already in the edge index, up to
    /// unordered-pair equality.
    fn find_edge_entry(&self, e: &Edge) -> (r: Option<usize>)
        ensures
            match r {
                Some(k) => k < self.edge_neighbors@.len()
                    && edge_eq(self.edge_neighbors@[k as int].key, *e),
                None => !self.has_edge_key(*e),
            },
    {
        let mut i: usize = 0;
        while i < self.edge_neighbors.len()
            invariant
                i <= self.edge_neighbors@.len(),
                forall|j: int|
                    0 <= j < i ==> !edge_eq((#[trigger] self.edge_neighbors@[j]).key, *e),
            decreases self.edge_neighbors@.len() - i,
        {
            if self.edge_neighbors[i].key == *e {
                return Some(i);
            }
            i = i + 1;
        }
        None
    }
}

/// Appending an element to a sequence extends its filtered subsequence by
/// that element exactly when the element passes the filter.
proof fn lemma_filter_push(s: Seq<Triangle>, pred: spec_fn(Triangle) -> bool, t: Triangle)
    ensures
        s.push(t).filter(pred) == if pred(t) {
            s.filter(pred).push(t)
        } else {
            s.filter(pred)
        },
{
    reveal(Seq::filter);
    assert(s.push(t).drop_last() =~= s);
    assert(s.push(t).last() == t);
}

/// Every element of a filtered sequence comes from the sequence.
proof fn lemma_filter_subset(s: Seq<Triangle>, pred: spec_fn(Triangle) -> bool)
    ensures
        forall|i: int|
            0 <= i < s.filter(pred).len() ==> s.contains(#[trigger] s.filter(pred)[i]),
    decreases s.len(),
{
    reveal(Seq::filter);
    if s.len() == 0 {
    } else {
        lemma_filter_subset(s.drop_last(), pred);
        assert forall|i: int|
            0 <= i < s.filter(pred).len() implies s.contains(#[trigger] s.filter(pred)[i]) by {
            let x = s.filter(pred)[i];
            if i < s.drop_last().filter(pred).len() {
                assert(s.drop_last().contains(x));
                let j = choose|j: int| 0 <= j < s.drop_last().len() && s.drop_last()[j] == x;
                assert(s[j] == x);
            } else {
                assert(x == s.last());
                assert(s[s.len() - 1] == x);
            }
        }
    }
}

/// A sequence none of whose elements passes the filter filters to empty.
proof fn lemma_filter_empty(s: Seq<Triangle>, pred: spec_fn(Triangle) -> bool)
    requires
        forall|i: int| 0 <= i < s.len() ==> !pred(#[trigger] s[i]),
    ensures
        s.filter(pred) == Seq::<Triangle>::empty(),
    decreases s.len(),
{
    reveal(Seq::filter);
    if s.len() == 0 {
        assert(s.filter(pred) =~= Seq::<Triangle>::empty());
    } else {
        assert(forall|i: int|
            0 <= i < s.drop_last().len() ==> !pred(#[trigger] s.drop_last()[i]));
        lemma_filter_empty(s.drop_last(), pred);
        assert(!pred(s.last()));
        assert(s.filter(pred) =~= Seq::<Triangle>::empty());
    }
}

impl Mesh {
    /// Insert the triangle given by exactly 3 corner points: index it under
    /// each distinct corner and each distinct edge, and add it to the
    /// distinct-triangle set. Re-adding an equal triangle (the same three
    /// points in any order) changes nothing.
    pub fn add_triangle(&mut self, points: &[Point])
        requires
            old(self).wf(),
            points@.len() == 3,
            points@[0].in_range(),
            points@[1].in_range(),
            points@[2].in_range(),
            old(self).triangles@.len() < MAX_TRIANGLES,
        ensures
            final(self).wf(),
            final(self).has_triangle(Triangle { points: [points@[0], points@[1], points@[2]] }),
            old(self).has_triangle(Triangle { points: [points@[0], points@[1], points@[2]] })
                ==> *final(self) == *old(self),
            !old(self).has_triangle(Triangle { points: [points@[0], points@[1], points@[2]] })
                ==> final(self).triangles@ == old(self).triangles@.push(
                    Triangle { points: [points@[0], points@[1], points@[2]] }),
    {
        let t = Triangle::new(points);
        proof {
            assert(t.points =~= [points@[0], points@[1], points@[2]]);
        }
        if self.contains_triangle(&t) {
            proof {
                assert(tri_eq(t, t));
            }
            return;
        }
        let ghost tris = self.triangles@;
        let p0 = points[0];
        let p1 = points[1];
        let p2 = points[2];
        proof {
            assert(t.points@ == points@);
            assert(touches(t, p0)) by {
                assert(t.points@[0] == p0);
            }
            assert(touches(t, p1)) by {
                assert(t.points@[1] == p1);
            }
            assert(touches(t, p2)) by {
                assert(t.points@[2] == p2);
            }
            assert(point_rows_match(self.point_neighbors@, tris, t, Set::empty())) by {
                assert forall|k: int|
                    0 <= k < self.point_neighbors@.len() implies
                        (#[trigger] self.point_neighbors@[k]).list@
                            == tris.filter(touch_pred(self.point_neighbors@[k].key)) by {}
            }
            lemma_point_filter_empty(*self, p0);
            lemma_point_filter_empty(*self, p1);
            lemma_point_filter_empty(*self, p2);
        }
        let ghost pn0 = self.point_neighbors@;
        add_point_row(&mut self.point_neighbors, &p0, &t, Ghost(tris), Ghost(Set::empty()));
        let ghost done1 = Set::empty().insert(p0);
        let ghost pn1 = self.point_neighbors@;
        if p1 != p0 {
            add_point_row(&mut self.point_neighbors, &p1, &t, Ghost(tris), Ghost(done1));
        }
        let ghost done2 = if p1 == p0 { done1 } else { done1.insert(p1) };
        let ghost pn2 = self.point_neighbors@;
        if p2 != p0 && p2 != p1 {
            add_point_row(&mut self.point_neighbors, &p2, &t, Ghost(tris), Ghost(done2));
        }
        let ghost done3 = if p2 == p0 || p2 == p1 { done2 } else { done2.insert(p2) };
        proof {
            assert(point_rows_match(self.point_neighbors@, tris, t, done3));
            assert(done3.contains(p0) && done3.contains(p1) && done3.contains(p2));
            assert(seq_has_point_key(self.point_neighbors@, p0));
            assert(seq_has_point_key(self.point_neighbors@, p1));
            assert(seq_has_point_key(self.point_neighbors@, p2));
            assert forall|q: Point|
                seq_has_point_key(pn0, q) implies
                    seq_has_point_key(self.point_neighbors@, q) by {}
            assert forall|k: int|
                0 <= k < self.point_neighbors@.len() implies
                    (#[trigger] self.point_neighbors@[k]).list@
                        == tris.push(t).filter(touch_pred(self.point_neighbors@[k].key)) by {
                let key = self.point_neighbors@[k].key;
                if !done3.contains(key) {
                    assert(key != p0 && key != p1 && key != p2);
                    assert(!touches(t, key)) by {
                        if touches(t, key) {
                            let c = choose|c: int|
                                0 <= c < t.points@.len() && t.points@[c] == key;
                            assert(c == 0 || c == 1 || c == 2);
                        }
                    }
                    lemma_filter_push(tris, touch_pred(key), t);
                    assert(!touch_pred(key)(t));
                }
            }
        }
        // edges
        let e01 = Edge::new(&p0, &p1);
        let e02 = Edge::new(&p0, &p2);
        let e12 = Edge::new(&p1, &p2);
        proof {
            assert(tri_edges(t).0 == e01) by {
                assert(tri_edges(t).0.points =~= e01.points);
            }
            assert(tri_edges(t).1 == e02) by {
                assert(tri_edges(t).1.points =~= e02.points);
            }
            assert(tri_edges(t).2 == e12) by {
                assert(tri_edges(t).2.points =~= e12.points);
            }
            assert(tri_has_edge(t, e01) && tri_has_edge(t, e02) && tri_has_edge(t, e12));
            assert(edge_rows_match(self.edge_neighbors@, tris, t, Set::empty())) by {
                assert forall|k: int|
                    0 <= k < self.edge_neighbors@.len() implies
                        !done_has_edge(Set::empty(), (#[trigger] self.edge_neighbors@[k]).key)
                        by {}
            }
            assert(self.edge_neighbors@ == old(self).edge_neighbors@);
            lemma_edge_filter_empty(*old(self), e01);
            lemma_edge_filter_empty(*old(self), e02);
            lemma_edge_filter_empty(*old(self), e12);
        }
        let ghost en0 = self.edge_neighbors@;
        add_edge_row(&mut self.edge_neighbors, &e01, &t, Ghost(tris), Ghost(Set::empty()));
        let ghost edone1 = Set::empty().insert(e01);
        if e02 != e01 {
            add_edge_row(&mut self.edge_neighbors, &e02, &t, Ghost(tris), Ghost(edone1));
        }
        let ghost edone2 = if edge_eq(e02, e01) { edone1 } else { edone1.insert(e02) };
        if e12 != e01 && e12 != e02 {
            add_edge_row(&mut self.edge_neighbors, &e12, &t, Ghost(tris), Ghost(edone2));
        }
        let ghost edone3 = if edge_eq(e12, e01) || edge_eq(e12, e02) {
            edone2
        } else {
            edone2.insert(e12)
        };
        proof {
            assert(edge_rows_match(self.edge_neighbors@, tris, t, edone3));
            assert(done_has_edge(edone3, e01) && done_has_edge(edone3, e02)
                && done_has_edge(edone3, e12));
            assert(seq_has_edge_key(self.edge_neighbors@, e01));
            assert(seq_has_edge_key(self.edge_neighbors@, e02));
            assert(seq_has_edge_key(self.edge_neighbors@, e12));
            assert forall|q: Edge|
                seq_has_edge_key(en0, q) implies
                    seq_has_edge_key(self.edge_neighbors@, q) by {}
            assert forall|k: int|
                0 <= k < self.edge_neighbors@.len() implies
                    (#[trigger] self.edge_neighbors@[k]).list@
                        == tris.push(t).filter(edge_pred(self.edge_neighbors@[k].key)) by {
                let key = self.edge_neighbors@[k].key;
                if !done_has_edge(edone3, key) {
                    assert(!edge_eq(e01, key) && !edge_eq(e02, key) && !edge_eq(e12, key))
                        by {
                        assert(edone3.contains(e01));
                        assert(edge_eq(e02, key) && edone3.contains(e02)
                            ==> done_has_edge(edone3, key));
                        if edge_eq(e02, key) {
                            if edge_eq(e02, e01) {
                                assert(edge_eq(e01, key));
                            } else {
                                assert(edone3.contains(e02));
                            }
                        }
                        if edge_eq(e12, key) {
                            if edge_eq(e12, e01) {
                                assert(edge_eq(e01, key));
                            } else if edge_eq(e12, e02) {
                                assert(edge_eq(e02, key));
                            } else {
                                assert(edone3.contains(e12));
                            }
                        }
                    }
                    assert(!tri_has_edge(t, key));
                    lemma_filter_push(tris, edge_pred(key), t);
                    assert(!edge_pred(key)(t));
                }
            }
        }
        let ghost pn_final = self.point_neighbors@;
        let ghost en_final = self.edge_neighbors@;
        self.triangles.push(t);
        proof {
            assert(self.triangles@ == tris.push(t));
            assert(self.triangles@.last() == t);
            assert(self.has_triangle(t)) by {
                assert(tri_eq(self.triangles@[self.triangles@.len() - 1], t));
            }
            assert forall|i: int|
                0 <= i < self.triangles@.len() implies
                    tri_in_range(#[trigger] self.triangles@[i]) by {
                if i < tris.len() {
                    assert(self.triangles@[i] == tris[i]);
                } else {
                    assert(self.triangles@[i] == t);
                }
            }
            assert forall|i: int, j: int|
                0 <= i < j < self.triangles@.len() implies
                    !tri_eq(self.triangles@[i], self.triangles@[j]) by {
                if j < tris.len() {
                } else {
                    assert(self.triangles@[j] == t);
                    assert(!old(self).has_triangle(t));
                }
            }
            assert forall|i: int|
                0 <= i < self.triangles@.len() implies {
                    let tt = #[trigger] self.triangles@[i];
                    self.has_point_key(tt.points[0])
                        && self.has_point_key(tt.points[1])
                        && self.has_point_key(tt.points[2])
                        && self.has_edge_key(tri_edges(tt).0)
                        && self.has_edge_key(tri_edges(tt).1)
                        && self.has_edge_key(tri_edges(tt).2)
                } by {
                let tt = self.triangles@[i];
                if i < tris.len() {
                    assert(tt == tris[i]);
                    assert(old(self).has_point_key(tt.points[0]));
                    assert(old(self).has_point_key(tt.points[1]));
                    assert(old(self).has_point_key(tt.points[2]));
                    assert(old(self).has_edge_key(tri_edges(tt).0));
                    assert(old(self).has_edge_key(tri_edges(tt).1));
                    assert(old(self).has_edge_key(tri_edges(tt).2));
                } else {
                    assert(tt == t);
                    assert(tt.points[0] == p0 && tt.points[1] == p1 && tt.points[2] == p2);
                }
            }
        }
    }
}

/// The componentwise sum of the face normals of a list of triangles.
pub open spec fn normal_sum(ts: Seq<Triangle>) -> Vec3i
    decreases ts.len(),
{
    if ts.len() == 0 {
        Vec3i { x: 0, y: 0, z: 0 }
    } else {
        normal_sum(ts.drop_last()).spec_add(face_normal_spec(ts.last()))
    }
}

/// The smoothed normal of a point adjacent to the triangles `ts`: the
/// average of their face normals, normalized. A single face's normal is
/// already a unit vector and is returned as it is; an empty list gets the
/// zero-vector fallback.
pub open spec fn smoothed_normal(ts: Seq<Triangle>) -> Vec3i {
    if ts.len() == 1 {
        face_normal_spec(ts[0])
    } else if ts.len() == 0 {
        norm_fixed_spec(Vec3i { x: 0, y: 0, z: 0 })
    } else {
        let s = normal_sum(ts);
        let k = ts.len() as int;
        norm_fixed_spec(
            Vec3i {
                x: tdiv(s.x as int, k) as i64,
                y: tdiv(s.y as int, k) as i64,
                z: tdiv(s.z as int, k) as i64,
            },
        )
    }
}

/// The smoothed normal of the point `p` in the mesh `m`: averaged over every
/// stored triangle touching `p`.
pub open spec fn point_normal_of(m: Mesh, p: Point) -> Vec3i {
    smoothed_normal(m.triangles@.filter(touch_pred(p)))
}

/// The texture coordinate of triangle-corner slot `c`.
pub open spec fn tex_for(c: int) -> (u8, u8) {
    if c == 0 {
        (0u8, 0u8)
    } else if c == 1 {
        (0u8, 1u8)
    } else {
        (1u8, 1u8)
    }
}

/// The `i`-th vertex of the flattened mesh: corner `i % 3` of triangle
/// `i / 3`, carrying that point's smoothed normal and the slot's texture
/// coordinate.
pub open spec fn mesh_vertex_at(m: Mesh, i: int) -> Vertex {
    let t = m.triangles@[i / 3];
    let c = i % 3;
    let p = if c == 0 {
        t.points[0]
    } else if c == 1 {
        t.points[1]
    } else {
        t.points[2]
    };
    vertex_from(p, point_normal_of(m, p), tex_for(c).0, tex_for(c).1)
}

/// The magnitude of a truncating quotient is at most the magnitude bound of
/// the dividend divided by the divisor.
proof fn lemma_tdiv_bound(a: int, k: int, b: int)
    requires
        0 < k,
        0 <= b,
        -(b * k) <= a <= b * k,
    ensures
        -b <= tdiv(a, k) <= b,
{
    if a >= 0 {
        vstd::arithmetic::div_mod::lemma_div_is_ordered(a, b * k, k);
        vstd::arithmetic::div_mod::lemma_div_multiples_vanish(b, k);
        vstd::arithmetic::div_mod::lemma_div_pos_is_pos(a, k);
        assert((b * k) / k == b) by {
            assert(b * k == k * b) by (nonlinear_arith);
        }
    } else {
        vstd::arithmetic::div_mod::lemma_div_is_ordered(-a, b * k, k);
        vstd::arithmetic::div_mod::lemma_div_multiples_vanish(b, k);
        vstd::arithmetic::div_mod::lemma_div_pos_is_pos(-a, k);
        assert((b * k) / k == b) by {
            assert(b * k == k * b) by (nonlinear_arith);
        }
    }
}

/// The componentwise sum of the face normals of `ts`.
#[verifier::loop_isolation(false)]
fn sum_face_normals(ts: &Vec<Triangle>) -> (s: Vec3i)
    requires
        forall|i: int| 0 <= i < ts@.len() ==> tri_in_range(#[trigger] ts@[i]),
        ts@.len() <= MAX_TRIANGLES,
    ensures
        s == normal_sum(ts@),
        s.bounded(NORMAL_FP * ts@.len()),
{
    let mut s = Vec3i { x: 0, y: 0, z: 0 };
    let mut i: usize = 0;
    while i < ts.len()
        invariant
            i <= ts@.len(),
            s == normal_sum(ts@.take(i as int)),
            s.bounded(NORMAL_FP * i),
        decreases ts@.len() - i,
    {
        let n = ts[i].get_normal();
        s = s.add(&n);
        proof {
            assert(ts@.take(i + 1).drop_last() =~= ts@.take(i as int));
            assert(ts@.take(i + 1).last() == ts@[i as int]);
        }
        i = i + 1;
    }
    proof {
        assert(ts@.take(ts@.len() as int) =~= ts@);
    }
    s
}

/// The smoothed normal of a point adjacent to exactly the triangles `ts`.
fn point_normal(ts: &Vec<Triangle>) -> (n: Vec3i)
    requires
        forall|i: int| 0 <= i < ts@.len() ==> tri_in_range(#[trigger] ts@[i]),
        ts@.len() <= MAX_TRIANGLES,
    ensures
        n == smoothed_normal(ts@),
        n.bounded(NORMAL_FP as int),
{
    if ts.len() == 1 {
        ts[0].get_normal()
    } else if ts.len() == 0 {
        normalize_fixed(&Vec3i { x: 0, y: 0, z: 0 })
    } else {
        let s = sum_face_normals(ts);
        let k: i64 = ts.len() as i64;
        proof {
            lemma_tdiv_bound(s.x as int, k as int, NORMAL_FP as int);
            lemma_tdiv_bound(s.y as int, k as int, NORMAL_FP as int);
            lemma_tdiv_bound(s.z as int, k as int, NORMAL_FP as int);
        }
        let avg = Vec3i { x: tdiv_i64(s.x, k), y: tdiv_i64(s.y, k), z: tdiv_i64(s.z, k) };
        normalize_fixed(&avg)
    }
}

impl Mesh {
    /// Flatten the mesh into a vertex stream: for every stored triangle, in
    /// insertion order, one vertex per corner, each corner carrying its
    /// point's smoothed normal and its slot's texture coordinate. No
    /// shared-vertex deduplication: three vertices per triangle.
    #[verifier::loop_isolation(false)]
    pub fn get_vertices(&self) -> (r: Vec<Vertex>)
        requires
            self.wf(),
        ensures
            r@.len() == 3 * self.triangles@.len(),
            forall|i: int| 0 <= i < r@.len() ==> r@[i] == mesh_vertex_at(*self, i),
    {
        let mut r: Vec<Vertex> = Vec::new();
        let mut ti: usize = 0;
        while ti < self.triangles.len()
            invariant
                ti <= self.triangles@.len(),
                r@.len() == 3 * ti,
                forall|i: int| 0 <= i < r@.len() ==> r@[i] == mesh_vertex_at(*self, i),
            decreases self.triangles@.len() - ti,
        {
            let t = self.triangles[ti];
            let n0 = self.corner_normal(&t.points[0]);
            let n1 = self.corner_normal(&t.points[1]);
            let n2 = self.corner_normal(&t.points[2]);
            r.push(Vertex::new(&t.points[0], &n0, 0, 0));
            r.push(Vertex::new(&t.points[1], &n1, 0, 1));
            r.push(Vertex::new(&t.points[2], &n2, 1, 1));
            proof {
                assert forall|i: int| 0 <= i < r@.len() implies r@[i] == mesh_vertex_at(*self, i)
                    by {
                    if i >= 3 * ti {
                        assert(i / 3 == ti && (i % 3 == 0 || i % 3 == 1 || i % 3 == 2));
                    }
                }
            }
            ti = ti + 1;
        }
        r
    }

    /// The smoothed normal of a corner point that has a row in the point
    /// index.
    #[verifier::loop_isolation(false)]
    fn corner_normal(&self, p: &Point) -> (n: Vec3i)
        requires
            self.wf(),
            self.has_point_key(*p),
        ensures
            n == point_normal_of(*self, *p),
            n.bounded(NORMAL_FP as int),
    {
        let mut k: usize = 0;
        let nlen = self.point_neighbors.len();
        while k < nlen
            invariant
                k <= nlen,
                forall|j: int| 0 <= j < k ==> (#[trigger] self.point_neighbors@[j]).key != *p,
            decreases nlen - k,
        {
            if self.point_neighbors[k].key == *p {
                let list = &self.point_neighbors[k].list;
                proof {
                    assert(list@ == self.triangles@.filter(touch_pred(*p)));
                    lemma_filter_subset(self.triangles@, touch_pred(*p));
                    assert forall|i: int|
                        0 <= i < list@.len() implies tri_in_range(#[trigger] list@[i]) by {
                        assert(self.triangles@.contains(list@[i]));
                        let j = choose|j: int|
                            0 <= j < self.triangles@.len() && self.triangles@[j] == list@[i];
                        assert(tri_in_range(self.triangles@[j]));
                    }
                    self.triangles@.lemma_filter_len(touch_pred(*p));
                }
                return point_normal(list);
            }
            k = k + 1;
        }
        // unreachable: the row exists by the precondition
        proof {
            assert(false);
        }
        Vec3i { x: 0, y: 0, z: 0 }
    }
}

/// A mesh holding exactly one triangle flattens to vertices that all carry
/// that triangle's own face normal: with no neighbors to average against,
/// each corner's smoothed normal is the face normal itself.
pub proof fn lemma_single_triangle_normals(m: Mesh)
    requires
        m.wf(),
        m.triangles@.len() == 1,
    ensures
        forall|i: int|
            0 <= i < 3 ==> (#[trigger] mesh_vertex_at(m, i)).normal
                == face_normal_spec(m.triangles@[0]),
{
    let t = m.triangles@[0];
    reveal(Seq::filter);
    assert forall|i: int|
        0 <= i < 3 implies (#[trigger] mesh_vertex_at(m, i)).normal
            == face_normal_spec(m.triangles@[0]) by {
        let c = i % 3;
        let p = if c == 0 {
            t.points[0]
        } else if c == 1 {
            t.points[1]
        } else {
            t.points[2]
        };
        assert(i / 3 == 0);
        assert(touches(t, p)) by {
            if c == 0 {
                assert(t.points@[0] == p);
            } else if c == 1 {
                assert(t.points@[1] == p);
            } else {
                assert(t.points@[2] == p);
            }
        }
        assert(m.triangles@.drop_last() =~= Seq::<Triangle>::empty());
        assert(m.triangles@.last() == t);
        assert(touch_pred(p)(t));
        assert(m.triangles@.filter(touch_pred(p)) =~= Seq::<Triangle>::empty().push(t));
        assert(m.triangles@.filter(touch_pred(p)).len() == 1);
        assert(m.triangles@.filter(touch_pred(p))[0] == t);
        assert(smoothed_normal(m.triangles@.filter(touch_pred(p))) == face_normal_spec(t));
    }
}

/// If the point index of a well-formed mesh has no row for `p`, no stored
/// triangle touches `p`.
proof fn lemma_point_filter_empty(m: Mesh, p: Point)
    requires
        m.wf(),
    ensures
        !seq_has_point_key(m.point_neighbors@, p)
            ==> m.triangles@.filter(touch_pred(p)) == Seq::<Triangle>::empty(),
{
    if !seq_has_point_key(m.point_neighbors@, p) {
        assert forall|j: int|
            0 <= j < m.triangles@.len() implies
                !(touch_pred(p)(#[trigger] m.triangles@[j])) by {
            if touches(m.triangles@[j], p) {
                let tt = m.triangles@[j];
                let c = choose|c: int| 0 <= c < tt.points@.len() && tt.points@[c] == p;
                assert(c == 0 || c == 1 || c == 2);
                assert(m.has_point_key(p));
            }
        }
        lemma_filter_empty(m.triangles@, touch_pred(p));
    }
}

/// If the edge index of a well-formed mesh has no row for `e`, no stored
/// triangle has the edge `e`.
proof fn lemma_edge_filter_empty(m: Mesh, e: Edge)
    requires
        m.wf(),
    ensures
        !seq_has_edge_key(m.edge_neighbors@, e)
            ==> m.triangles@.filter(edge_pred(e)) == Seq::<Triangle>::empty(),
{
    if !seq_has_edge_key(m.edge_neighbors@, e) {
        assert forall|j: int|
            0 <= j < m.triangles@.len() implies
                !(edge_pred(e)(#[trigger] m.triangles@[j])) by {
            if tri_has_edge(m.triangles@[j], e) {
                let tt = m.triangles@[j];
                assert(m.has_edge_key(tri_edges(tt).0)
                    && m.has_edge_key(tri_edges(tt).1)
                    && m.has_edge_key(tri_edges(tt).2));
                if edge_eq(tri_edges(tt).0, e) {
                    let k = choose|k: int|
                        0 <= k < m.edge_neighbors@.len()
                            && edge_eq((#[trigger] m.edge_neighbors@[k]).key, tri_edges(tt).0);
                    assert(edge_eq(m.edge_neighbors@[k].key, e));
                } else if edge_eq(tri_edges(tt).1, e) {
                    let k = choose|k: int|
                        0 <= k < m.edge_neighbors@.len()
                            && edge_eq((#[trigger] m.edge_neighbors@[k]).key, tri_edges(tt).1);
                    assert(edge_eq(m.edge_neighbors@[k].key, e));
                } else {
                    let k = choose|k: int|
                        0 <= k < m.edge_neighbors@.len()
                            && edge_eq((#[trigger] m.edge_neighbors@[k]).key, tri_edges(tt).2);
                    assert(edge_eq(m.edge_neighbors@[k].key, e));
                }
            }
        }
        lemma_filter_empty(m.triangles@, edge_pred(e));
    }
}

/// Push the incoming triangle `t` onto the point row for `p`, creating the
/// row when it is missing.
#[verifier::loop_isolation(false)]
fn add_point_row(
    pn: &mut Vec<PointEntry>,
    p: &Point,
    t: &Triangle,
    Ghost(tris): Ghost<Seq<Triangle>>,
    Ghost(done): Ghost<Set<Point>>,
)
    requires
        touches(*t, *p),
        !done.contains(*p),
        point_rows_match(old(pn)@, tris, *t, done),
        point_keys_distinct(old(pn)@),
        !seq_has_point_key(old(pn)@, *p) ==> tris.filter(touch_pred(*p))
            == Seq::<Triangle>::empty(),
    ensures
        point_rows_match(final(pn)@, tris, *t, done.insert(*p)),
        point_keys_distinct(final(pn)@),
        seq_has_point_key(final(pn)@, *p),
        forall|q: Point| seq_has_point_key(old(pn)@, q) ==> seq_has_point_key(final(pn)@, q),
{
    let mut i: usize = 0;
    let n = pn.len();
    while i < n
        invariant
            pn@ == old(pn)@,
            n == pn@.len(),
            i <= n,
            forall|j: int| 0 <= j < i ==> (#[trigger] pn@[j]).key != *p,
        decreases n - i,
    {
        if pn[i].key == *p {
            let mut list = pn[i].list.clone();
            proof {
                assert(list@ =~= pn@[i as int].list@);
            }
            list.push(*t);
            pn.set(i, PointEntry { key: *p, list });
            proof {
                lemma_filter_push(tris, touch_pred(*p), *t);
                assert(touch_pred(*p)(*t));
                assert forall|q: Point|
                    seq_has_point_key(old(pn)@, q)
                        implies seq_has_point_key(pn@, q) by {
                    let k = choose|k: int|
                        0 <= k < old(pn)@.len() && (#[trigger] old(pn)@[k]).key == q;
                    assert(pn@[k].key == q);
                }
                assert(seq_has_point_key(pn@, *p)) by {
                    assert(pn@[i as int].key == *p);
                }
            }
            return;
        }
        i = i + 1;
    }
    proof {
        assert(!seq_has_point_key(pn@, *p));
    }
    let mut list: Vec<Triangle> = Vec::new();
    list.push(*t);
    let ghost list_view = list@;
    let ghost pn_before = pn@;
    pn.push(PointEntry { key: *p, list });
    proof {
        lemma_filter_push(tris, touch_pred(*p), *t);
        assert(touch_pred(*p)(*t));
        assert(tris.push(*t).filter(touch_pred(*p)) =~= list_view);
        assert(seq_has_point_key(pn@, *p)) by {
            assert(pn@[pn@.len() - 1].key == *p);
        }
        assert forall|q: Point|
            seq_has_point_key(pn_before, q) implies seq_has_point_key(pn@, q) by {
            let k = choose|k: int|
                0 <= k < pn_before.len() && (#[trigger] pn_before[k]).key == q;
            assert(pn@[k].key == q);
        }
    }
}

/// Push the incoming triangle `t` onto the edge row for `e`, creating the
/// row when it is missing.
#[verifier::loop_isolation(false)]
fn add_edge_row(
    en: &mut Vec<EdgeEntry>,
    e: &Edge,
    t: &Triangle,
    Ghost(tris): Ghost<Seq<Triangle>>,
    Ghost(done): Ghost<Set<Edge>>,
)
    requires
        tri_has_edge(*t, *e),
        !done_has_edge(done, *e),
        edge_rows_match(old(en)@, tris, *t, done),
        edge_keys_distinct(old(en)@),
        !seq_has_edge_key(old(en)@, *e) ==> tris.filter(edge_pred(*e))
            == Seq::<Triangle>::empty(),
    ensures
        edge_rows_match(final(en)@, tris, *t, done.insert(*e)),
        edge_keys_distinct(final(en)@),
        seq_has_edge_key(final(en)@, *e),
        forall|q: Edge| seq_has_edge_key(old(en)@, q) ==> seq_has_edge_key(final(en)@, q),
{
    let mut i: usize = 0;
    let n = en.len();
    while i < n
        invariant
            en@ == old(en)@,
            n == en@.len(),
            i <= n,
            forall|j: int| 0 <= j < i ==> !edge_eq((#[trigger] en@[j]).key, *e),
        decreases n - i,
    {
        if en[i].key == *e {
            let ghost key = en@[i as int].key;
            let mut list = en[i].list.clone();
            proof {
                assert(list@ =~= en@[i as int].list@);
            }
            list.push(*t);
            let new_key = en[i].key;
            en.set(i, EdgeEntry { key: new_key, list });
            proof {
                lemma_filter_push(tris, edge_pred(key), *t);
                assert(edge_pred(key)(*t)) by {
                    assert(tri_has_edge(*t, key));
                }
                assert(done_has_edge(done.insert(*e), key)) by {
                    assert(done.insert(*e).contains(*e) && edge_eq(*e, key));
                }
                assert forall|k: int|
                    0 <= k < en@.len() && k != i implies
                        done_has_edge(done.insert(*e), (#[trigger] en@[k]).key)
                            == done_has_edge(done, en@[k].key) by {
                    if done_has_edge(done.insert(*e), en@[k].key) {
                        let d = choose|d: Edge|
                            done.insert(*e).contains(d) && edge_eq(d, en@[k].key);
                        if d == *e {
                            assert(edge_eq(key, en@[k].key));
                            if k < i {
                                assert(!edge_eq(en@[k].key, key));
                            } else {
                                assert(!edge_eq(key, en@[k].key));
                            }
                        } else {
                            assert(done.contains(d));
                        }
                    }
                }
                assert forall|q: Edge|
                    seq_has_edge_key(old(en)@, q) implies seq_has_edge_key(en@, q) by {
                    let k = choose|k: int|
                        0 <= k < old(en)@.len() && edge_eq((#[trigger] old(en)@[k]).key, q);
                    assert(edge_eq(en@[k].key, q));
                }
                assert(seq_has_edge_key(en@, *e)) by {
                    assert(edge_eq(en@[i as int].key, *e));
                }
            }
            return;
        }
        i = i + 1;
    }
    proof {
        assert(!seq_has_edge_key(en@, *e));
    }
    let mut list: Vec<Triangle> = Vec::new();
    list.push(*t);
    let ghost list_view = list@;
    let ghost en_before = en@;
    en.push(EdgeEntry { key: *e, list });
    proof {
        lemma_filter_push(tris, edge_pred(*e), *t);
        assert(edge_pred(*e)(*t));
        assert(tris.push(*t).filter(edge_pred(*e)) =~= list_view);
        assert(done_has_edge(done.insert(*e), *e)) by {
            assert(done.insert(*e).contains(*e) && edge_eq(*e, *e));
        }
        assert forall|k: int|
            0 <= k < en_before.len() implies
                done_has_edge(done.insert(*e), (#[trigger] en_before[k]).key)
                    == done_has_edge(done, en_before[k].key) by {
            if done_has_edge(done.insert(*e), en_before[k].key) {
                let d = choose|d: Edge|
                    done.insert(*e).contains(d) && edge_eq(d, en_before[k].key);
                if d == *e {
                    assert(!edge_eq(en_before[k].key, *e));
                    assert(!edge_eq(*e, en_before[k].key));
                } else {
                    assert(done.contains(d));
                }
            }
        }
        assert(seq_has_edge_key(en@, *e)) by {
            assert(edge_eq(en@[en@.len() - 1].key, *e));
        }
        assert forall|q: Edge|
            seq_has_edge_key(en_before, q) implies seq_has_edge_key(en@, q) by {
            let k = choose|k: int|
                0 <= k < en_before.len() && edge_eq((#[trigger] en_before[k]).key, q);
            assert(edge_eq(en@[k].key, q));
        }
    }
}

/// Triangle equality ignores the order of the corner points: rotating or
/// swapping them gives an equal triangle, and the two permutations below
/// generate all six.
pub proof fn lemma_triangle_eq_permutation(a: Point, b: Point, c: Point)
    ensures
        tri_eq(Triangle { points: [a, b, c] }, Triangle { points: [c, a, b] }),
        tri_eq(Triangle { points: [a, b, c] }, Triangle { points: [b, a, c] }),
{
}

/// Edge equality ignores the order of the two endpoints.
pub proof fn lemma_edge_eq_swap(a: Point, b: Point)
    ensures
        edge_eq(Edge { points: [a, b] }, Edge { points: [b, a] }),
{
}

} // verus!
