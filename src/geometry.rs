//! Intersection polygons, and crossings between polylines and polygons.

use crate::geom::{Pt2D, MAX_PLANAR_COORD};
use crate::initial::{
    lemma_incidence_consistent, road_geometry_ok, InitialMap, Intersection, Road,
    LANE_THICKNESS, MAX_LANES,
};
use crate::raw_data::{StableIntersectionID, StableRoadID};
use vstd::arithmetic::div_mod::{lemma_div_is_ordered, lemma_div_multiples_vanish};
use vstd::prelude::*;

verus! {

pub open spec fn cross(a: Pt2D, b: Pt2D) -> int {
    a.x * b.y - a.y * b.x
}

pub open spec fn shoelace_sum(p: Seq<Pt2D>, n: int) -> int
    decreases n,
{
    if n <= 0 {
        0
    } else {
        shoelace_sum(p, n - 1) + cross(p[n - 1], p[n % (p.len() as int)])
    }
}

/// Twice the signed area of a polygon, by the shoelace formula.
pub open spec fn twice_area(p: Seq<Pt2D>) -> int {
    shoelace_sum(p, p.len() as int)
}

pub open spec fn iabs(v: int) -> int {
    if v >= 0 {
        v
    } else {
        -v
    }
}

/// The direction from `e` towards `q`; east when the two coincide.
pub open spec fn direction(e: Pt2D, q: Pt2D) -> (int, int) {
    if e == q {
        (1, 0)
    } else {
        (q.x - e.x, q.y - e.y)
    }
}

/// The direction turned a quarter to the left, scaled so that its larger component has
/// the size of one lane.
pub open spec fn lane_normal(e: Pt2D, q: Pt2D) -> (int, int) {
    let (dx, dy) = direction(e, q);
    let m = if iabs(dx) >= iabs(dy) {
        iabs(dx)
    } else {
        iabs(dy)
    };
    let vx = iabs(dx) * LANE_THICKNESS / m;
    let vy = iabs(dy) * LANE_THICKNESS / m;
    (if dy > 0 {
        -vy
    } else {
        vy
    }, if dx >= 0 {
        vx
    } else {
        -vx
    })
}

pub open spec fn offset(e: Pt2D, u: (int, int), k: int) -> Pt2D {
    Pt2D { x: (e.x + u.0 * k) as i64, y: (e.y + u.1 * k) as i64 }
}

/// The end of the road's centerline at intersection `i`, and the point next to it.
pub open spec fn end_point(rd: Road, i: int) -> Pt2D {
    if rd.src_i.0 == i {
        rd.original_center_pts@[0]
    } else {
        rd.original_center_pts@.last()
    }
}

pub open spec fn next_point(rd: Road, i: int) -> Pt2D {
    if rd.src_i.0 == i {
        rd.original_center_pts@[1]
    } else {
        rd.original_center_pts@[rd.original_center_pts@.len() - 2]
    }
}

/// The lanes to the left and to the right of the road, looking into it from `i`; a
/// road without lanes counts one on its left.
pub open spec fn side_lanes(rd: Road, i: int) -> (int, int) {
    let f = rd.fwd_width / LANE_THICKNESS;
    let b = rd.back_width / LANE_THICKNESS;
    let (l, r) = if rd.src_i.0 == i {
        (b as int, f as int)
    } else {
        (f as int, b as int)
    };
    if l + r == 0 {
        (1, 0)
    } else {
        (l, r)
    }
}

/// The two corners where the road's sides meet intersection `i`: left, then right.
pub open spec fn corners(rd: Road, i: int) -> (Pt2D, Pt2D) {
    let e = end_point(rd, i);
    let u = lane_normal(e, next_point(rd, i));
    let (l, r) = side_lanes(rd, i);
    (offset(e, u, l), offset(e, u, -r))
}

/// The corners of the listed roads, road by road.
pub open spec fn corners_of(roads: Seq<Option<Road>>, list: Seq<StableRoadID>, i: int) -> Seq<
    Pt2D,
>
    decreases list.len(),
{
    if list.len() == 0 {
        Seq::empty()
    } else {
        let c = corners(roads[list.last().0 as int]->0, i);
        corners_of(roads, list.drop_last(), i).push(c.0).push(c.1)
    }
}

/// The polygon of an intersection: the corners of its roads, and for a dead end, a
/// rectangle that continues one lane past the road's end.
pub open spec fn polygon_of(roads: Seq<Option<Road>>, list: Seq<StableRoadID>, i: int) -> Seq<
    Pt2D,
> {
    let c = corners_of(roads, list, i);
    if list.len() == 1 {
        let rd = roads[list[0].0 as int]->0;
        let u = lane_normal(end_point(rd, i), next_point(rd, i));
        let w = (-u.1, u.0);
        c.push(offset(c[1], w, 1)).push(offset(c[0], w, 1))
    } else {
        c
    }
}

proof fn lemma_lane_normal(e: Pt2D, q: Pt2D)
    ensures
        ({
            let u = lane_normal(e, q);
            &&& -LANE_THICKNESS <= u.0 <= LANE_THICKNESS
            &&& -LANE_THICKNESS <= u.1 <= LANE_THICKNESS
            &&& u.0 * u.0 + u.1 * u.1 > 0
        }),
{
    let (dx, dy) = direction(e, q);
    let m = if iabs(dx) >= iabs(dy) {
        iabs(dx)
    } else {
        iabs(dy)
    };
    assert(m > 0);
    let t = LANE_THICKNESS as int;
    assert(iabs(dy) * t <= m * t) by (nonlinear_arith)
        requires
            iabs(dy) <= m,
            t > 0,
    ;
    assert(iabs(dx) * t <= m * t) by (nonlinear_arith)
        requires
            iabs(dx) <= m,
            t > 0,
    ;
    lemma_div_is_ordered(iabs(dy) * t, m * t, m);
    lemma_div_is_ordered(iabs(dx) * t, m * t, m);
    lemma_div_multiples_vanish(t, m);
    assert(0 <= iabs(dy) * t / m) by (nonlinear_arith)
        requires
            iabs(dy) >= 0,
            t > 0,
            m > 0,
    ;
    assert(0 <= iabs(dx) * t / m) by (nonlinear_arith)
        requires
            iabs(dx) >= 0,
            t > 0,
            m > 0,
    ;
    assert((m * t) / m == t);
    let vx = iabs(dx) * t / m;
    let vy = iabs(dy) * t / m;
    let u = lane_normal(e, q);
    if iabs(dx) == m {
        assert(vx == t);
        assert(u.1 == t || u.1 == -t);
    } else {
        assert(iabs(dy) == m);
        assert(vy == t);
        assert(u.0 == t || u.0 == -t);
    }
    assert(u.0 * u.0 + u.1 * u.1 > 0) by (nonlinear_arith)
        requires
            u.0 == t || u.0 == -t || u.1 == t || u.1 == -t,
            t > 0,
    ;
}

proof fn lemma_parallelogram(
    x0: int,
    y0: int,
    x1: int,
    y1: int,
    wx: int,
    wy: int,
)
    ensures
        (x0 * y1 - y0 * x1) + (x1 * (y1 + wy) - y1 * (x1 + wx)) + ((x1 + wx) * (y0 + wy) - (y1
            + wy) * (x0 + wx)) + ((x0 + wx) * y0 - (y0 + wy) * x0) == 2 * ((x1 - x0) * wy - (y1
            - y0) * wx),
{
    assert(x1 * (y1 + wy) == x1 * y1 + x1 * wy) by (nonlinear_arith);
    assert(y1 * (x1 + wx) == y1 * x1 + y1 * wx) by (nonlinear_arith);
    assert((x1 + wx) * (y0 + wy) == x1 * y0 + x1 * wy + wx * y0 + wx * wy) by (nonlinear_arith);
    assert((y1 + wy) * (x0 + wx) == y1 * x0 + y1 * wx + wy * x0 + wy * wx) by (nonlinear_arith);
    assert((x0 + wx) * y0 == x0 * y0 + wx * y0) by (nonlinear_arith);
    assert((y0 + wy) * x0 == y0 * x0 + wy * x0) by (nonlinear_arith);
    assert((x1 - x0) * wy == x1 * wy - x0 * wy) by (nonlinear_arith);
    assert((y1 - y0) * wx == y1 * wx - y0 * wx) by (nonlinear_arith);
    assert(x1 * y1 == y1 * x1 && x0 * y0 == y0 * x0 && x0 * y1 == y1 * x0 && y0 * x1 == x1 * y0
        && wx * wy == wy * wx && wx * y0 == y0 * wx && wy * x0 == x0 * wy) by (nonlinear_arith);
}

/// The dead-end polygon encloses a nonzero area.
proof fn lemma_dead_end_area(e: Pt2D, u: (int, int), l: int, r: int)
    requires
        u.0 * u.0 + u.1 * u.1 > 0,
        l >= 0,
        r >= 0,
        l + r > 0,
        -2 * MAX_PLANAR_COORD <= e.x <= 2 * MAX_PLANAR_COORD,
        -2 * MAX_PLANAR_COORD <= e.y <= 2 * MAX_PLANAR_COORD,
        -LANE_THICKNESS <= u.0 <= LANE_THICKNESS,
        -LANE_THICKNESS <= u.1 <= LANE_THICKNESS,
        l <= MAX_LANES,
        r <= MAX_LANES,
    ensures
        ({
            let c0 = offset(e, u, l);
            let c1 = offset(e, u, -r);
            let w = (-u.1, u.0);
            twice_area(seq![c0, c1, offset(c1, w, 1), offset(c0, w, 1)]) != 0
        }),
{
    let c0 = offset(e, u, l);
    let c1 = offset(e, u, -r);
    let w = (-u.1, u.0);
    let c2 = offset(c1, w, 1);
    let c3 = offset(c0, w, 1);
    let p = seq![c0, c1, c2, c3];
    assert(-250_000 <= u.0 * l <= 250_000 && -250_000 <= u.1 * l <= 250_000) by (nonlinear_arith)
        requires
            -250 <= u.0 <= 250,
            -250 <= u.1 <= 250,
            0 <= l <= 1000,
    ;
    assert(-250_000 <= u.0 * r <= 250_000 && -250_000 <= u.1 * r <= 250_000) by (nonlinear_arith)
        requires
            -250 <= u.0 <= 250,
            -250 <= u.1 <= 250,
            0 <= r <= 1000,
    ;
    assert(u.0 * (-r) == -(u.0 * r) && u.1 * (-r) == -(u.1 * r)) by (nonlinear_arith);
    assert(u.0 * 1 == u.0 && u.1 * 1 == u.1 && (-u.1) * 1 == -u.1);
    assert(c0.x == e.x + u.0 * l && c0.y == e.y + u.1 * l);
    assert(c1.x == e.x - u.0 * r && c1.y == e.y - u.1 * r);
    assert(c2.x == c1.x - u.1 && c2.y == c1.y + u.0);
    assert(c3.x == c0.x - u.1 && c3.y == c0.y + u.0);
    assert(p.len() == 4);
    assert(shoelace_sum(p, 0) == 0);
    assert(shoelace_sum(p, 1) == cross(c0, c1));
    assert(shoelace_sum(p, 2) == cross(c0, c1) + cross(c1, c2));
    assert(shoelace_sum(p, 3) == cross(c0, c1) + cross(c1, c2) + cross(c2, c3));
    assert(4int % 4 == 0);
    assert(shoelace_sum(p, 4) == cross(c0, c1) + cross(c1, c2) + cross(c2, c3) + cross(c3, c0));
    lemma_parallelogram(c0.x as int, c0.y as int, c1.x as int, c1.y as int, -u.1, u.0);
    let s = l + r;
    let n2 = u.0 * u.0 + u.1 * u.1;
    assert(c1.x - c0.x == -(u.0 * s) && c1.y - c0.y == -(u.1 * s)) by (nonlinear_arith)
        requires
            c0.x == e.x + u.0 * l,
            c0.y == e.y + u.1 * l,
            c1.x == e.x - u.0 * r,
            c1.y == e.y - u.1 * r,
            s == l + r,
    ;
    assert((-(u.0 * s)) * u.0 - (-(u.1 * s)) * (-u.1) == -(s * n2)) by (nonlinear_arith)
        requires
            n2 == u.0 * u.0 + u.1 * u.1,
    ;
    assert(s * n2 > 0) by (nonlinear_arith)
        requires
            s > 0,
            n2 > 0,
    ;
}

/// `p` lies on the segment from `a` to `b`.
pub open spec fn on_segment(p: Pt2D, a: Pt2D, b: Pt2D) -> bool {
    &&& orient(a, b, p) == 0
    &&& (a.x <= p.x <= b.x || b.x <= p.x <= a.x)
    &&& (a.y <= p.y <= b.y || b.y <= p.y <= a.y)
}

/// A road's centerline ends on the edge of the intersection polygon between its two
/// corners, so the polygon meets the road where it ends, and nothing needs trimming.
pub proof fn lemma_road_ends_on_polygon_edge(rd: Road, i: int)
    requires
        road_geometry_ok(rd),
        rd.src_i.0 == i || rd.dst_i.0 == i,
    ensures
        on_segment(end_point(rd, i), corners(rd, i).0, corners(rd, i).1),
{
    let e = end_point(rd, i);
    let u = lane_normal(e, next_point(rd, i));
    let (l, r) = side_lanes(rd, i);
    lemma_lane_normal(e, next_point(rd, i));
    let pts = rd.original_center_pts@;
    assert(0 <= pts[0].x <= MAX_PLANAR_COORD && 0 <= pts[pts.len() - 1].x <= MAX_PLANAR_COORD);
    assert(0 <= pts[0].y <= MAX_PLANAR_COORD && 0 <= pts[pts.len() - 1].y <= MAX_PLANAR_COORD);
    let f = rd.fwd_width / LANE_THICKNESS;
    let b = rd.back_width / LANE_THICKNESS;
    assert(f <= MAX_LANES && b <= MAX_LANES) by (nonlinear_arith)
        requires
            f == rd.fwd_width / 250,
            b == rd.back_width / 250,
            rd.fwd_width <= 250 * 1000,
            rd.back_width <= 250 * 1000,
    ;
    assert(0 <= l <= 1000 && 0 <= r <= 1000);
    assert(-250_000 <= u.0 * l <= 250_000 && -250_000 <= u.1 * l <= 250_000 && -250_000 <= u.0 * r
        <= 250_000 && -250_000 <= u.1 * r <= 250_000) by (nonlinear_arith)
        requires
            -250 <= u.0 <= 250,
            -250 <= u.1 <= 250,
            0 <= l <= 1000,
            0 <= r <= 1000,
    ;
    assert(u.0 * (-r) == -(u.0 * r) && u.1 * (-r) == -(u.1 * r)) by (nonlinear_arith);
    let c0 = corners(rd, i).0;
    let c1 = corners(rd, i).1;
    assert(c0.x == e.x + u.0 * l && c0.y == e.y + u.1 * l);
    assert(c1.x == e.x - u.0 * r && c1.y == e.y - u.1 * r);
    assert(orient(c0, c1, e) == 0) by (nonlinear_arith)
        requires
            c0.x == e.x + u.0 * l,
            c0.y == e.y + u.1 * l,
            c1.x == e.x - u.0 * r,
            c1.y == e.y - u.1 * r,
    ;
    assert((u.0 >= 0 ==> u.0 * l >= 0 && u.0 * r >= 0) && (u.0 <= 0 ==> u.0 * l <= 0 && u.0 * r <= 0))
        by (nonlinear_arith)
        requires
            l >= 0,
            r >= 0,
    ;
    assert((u.1 >= 0 ==> u.1 * l >= 0 && u.1 * r >= 0) && (u.1 <= 0 ==> u.1 * l <= 0 && u.1 * r <= 0))
        by (nonlinear_arith)
        requires
            l >= 0,
            r >= 0,
    ;
}

fn lane_normal_exec(e: Pt2D, q: Pt2D) -> (r: (i64, i64))
    requires
        0 <= e.x <= MAX_PLANAR_COORD,
        0 <= e.y <= MAX_PLANAR_COORD,
        0 <= q.x <= MAX_PLANAR_COORD,
        0 <= q.y <= MAX_PLANAR_COORD,
    ensures
        r.0 as int == lane_normal(e, q).0,
        r.1 as int == lane_normal(e, q).1,
{
    proof {
        lemma_lane_normal(e, q);
    }
    let (dx, dy): (i64, i64) = if e == q {
        (1, 0)
    } else {
        (q.x - e.x, q.y - e.y)
    };
    let ax: i64 = if dx >= 0 {
        dx
    } else {
        -dx
    };
    let ay: i64 = if dy >= 0 {
        dy
    } else {
        -dy
    };
    let m: i64 = if ax >= ay {
        ax
    } else {
        ay
    };
    let t = LANE_THICKNESS as i64;
    assert(ax * t <= MAX_PLANAR_COORD * 250 && ay * t <= MAX_PLANAR_COORD * 250) by (nonlinear_arith)
        requires
            0 <= ax <= MAX_PLANAR_COORD,
            0 <= ay <= MAX_PLANAR_COORD,
            t == 250,
    ;
    let vx = ax * t / m;
    let vy = ay * t / m;
    (if dy > 0 {
        -vy
    } else {
        vy
    }, if dx >= 0 {
        vx
    } else {
        -vx
    })
}

pub open spec fn pt_in_range(p: Pt2D) -> bool {
    0 <= p.x <= MAX_PLANAR_COORD && 0 <= p.y <= MAX_PLANAR_COORD
}

/// Within a margin of the projected area wide enough for the polygons drawn round it.
pub open spec fn pt_in_wide_range(p: Pt2D) -> bool {
    -1_000_000 <= p.x <= MAX_PLANAR_COORD + 1_000_000 && -1_000_000 <= p.y <= MAX_PLANAR_COORD
        + 1_000_000
}

/// The corners of road `rd` at intersection `i`, and its lane normal there.
fn road_corners(rd: &Road, i: StableIntersectionID) -> (r: (Pt2D, Pt2D, (i64, i64)))
    requires
        road_geometry_ok(*rd),
        rd.src_i == i || rd.dst_i == i,
    ensures
        (r.0, r.1) == corners(*rd, i.0 as int),
        r.2.0 as int == lane_normal(end_point(*rd, i.0 as int), next_point(*rd, i.0 as int)).0,
        r.2.1 as int == lane_normal(end_point(*rd, i.0 as int), next_point(*rd, i.0 as int)).1,
        pt_in_range(end_point(*rd, i.0 as int)),
        side_lanes(*rd, i.0 as int).0 <= MAX_LANES && side_lanes(*rd, i.0 as int).1 <= MAX_LANES,
        0 <= side_lanes(*rd, i.0 as int).0 && 0 <= side_lanes(*rd, i.0 as int).1,
        side_lanes(*rd, i.0 as int).0 + side_lanes(*rd, i.0 as int).1 > 0,
        -250_000 <= r.0.x <= MAX_PLANAR_COORD + 250_000,
        -250_000 <= r.0.y <= MAX_PLANAR_COORD + 250_000,
        -250_000 <= r.1.x <= MAX_PLANAR_COORD + 250_000,
        -250_000 <= r.1.y <= MAX_PLANAR_COORD + 250_000,
        -250 <= r.2.0 <= 250,
        -250 <= r.2.1 <= 250,
{
    let pts = &rd.original_center_pts;
    let n = pts.len();
    let (e, q) = if rd.src_i == i {
        (pts[0], pts[1])
    } else {
        (pts[n - 1], pts[n - 2])
    };
    assert(pt_in_range(pts@[0]) && pt_in_range(pts@[1]) && pt_in_range(pts@[n - 1]) && pt_in_range(
        pts@[n - 2],
    ));
    let u = lane_normal_exec(e, q);
    proof {
        lemma_lane_normal(e, q);
    }
    let f: u64 = rd.fwd_width / LANE_THICKNESS;
    let b: u64 = rd.back_width / LANE_THICKNESS;
    assert(f <= MAX_LANES && b <= MAX_LANES) by (nonlinear_arith)
        requires
            f == rd.fwd_width / 250,
            b == rd.back_width / 250,
            rd.fwd_width <= 250 * 1000,
            rd.back_width <= 250 * 1000,
    ;
    let (l0, r0): (u64, u64) = if rd.src_i == i {
        (b, f)
    } else {
        (f, b)
    };
    let (l, r): (i64, i64) = if l0 + r0 == 0 {
        (1, 0)
    } else {
        (l0 as i64, r0 as i64)
    };
    assert(-250_000 <= u.0 * l <= 250_000 && -250_000 <= u.1 * l <= 250_000 && -250_000 <= u.0 * r
        <= 250_000 && -250_000 <= u.1 * r <= 250_000) by (nonlinear_arith)
        requires
            -250 <= u.0 <= 250,
            -250 <= u.1 <= 250,
            0 <= l <= 1000,
            0 <= r <= 1000,
    ;
    assert(u.0 * (-r) == -(u.0 * r) && u.1 * (-r) == -(u.1 * r)) by (nonlinear_arith);
    let left = Pt2D { x: e.x + u.0 * l, y: e.y + u.1 * l };
    let right = Pt2D { x: e.x - u.0 * r, y: e.y - u.1 * r };
    (left, right, u)
}

impl InitialMap {
    /// The polygon of intersection `i`, from the corners of the roads that end there.
    /// A dead end gets a rectangle of nonzero area.
    pub fn intersection_polygon(&self, i: StableIntersectionID) -> (r: Vec<Pt2D>)
        requires
            self.wf(),
            i.0 < self.intersections@.len(),
            self.intersections@[i.0 as int] is Some,
        ensures
            r@ == polygon_of(self.roads@, self.intersections@[i.0 as int]->0.roads@, i.0 as int),
            self.intersections@[i.0 as int]->0.roads@.len() == 1 ==> r@.len() == 4 && twice_area(
                r@,
            ) != 0,
            forall|j: int| 0 <= j < r@.len() ==> pt_in_wide_range(#[trigger] r@[j]),
    {
        let list = &self.intersections[i.0].as_ref().unwrap().roads;
        proof {
            lemma_incidence_consistent(*self, i.0 as int);
        }
        let mut out: Vec<Pt2D> = Vec::new();
        let mut k: usize = 0;
        while k < list.len()
            invariant
                self.wf(),
                self.intersections@[i.0 as int] is Some,
                list@ == self.intersections@[i.0 as int]->0.roads@,
                forall|x: StableRoadID|
                    #[trigger] list@.contains(x) ==> (x.0 < self.roads@.len() && self.roads@[x.0 as int] is Some
                        && (self.roads@[x.0 as int]->0.src_i.0 == i.0 || self.roads@[x.0 as int]->0.dst_i.0 == i.0)),
                k <= list@.len(),
                out@ == corners_of(self.roads@, list@.take(k as int), i.0 as int),
                forall|j: int| 0 <= j < out@.len() ==> pt_in_wide_range(#[trigger] out@[j]),
            decreases list@.len() - k,
        {
            let x = list[k];
            assert(list@.contains(x));
            let rd = self.roads[x.0].as_ref().unwrap();
            let (left, right, _u) = road_corners(rd, i);
            assert(list@.take(k + 1).drop_last() =~= list@.take(k as int));
            out.push(left);
            out.push(right);
            k = k + 1;
        }
        assert(list@.take(k as int) =~= list@);
        if list.len() == 1 {
            let x = list[0];
            assert(list@.contains(x));
            let rd = self.roads[x.0].as_ref().unwrap();
            let (c0, c1, u) = road_corners(rd, i);
            let w0 = -u.1;
            let w1 = u.0;
            let ghost e = end_point(*rd, i.0 as int);
            let ghost sl = side_lanes(*rd, i.0 as int);
            proof {
                lemma_lane_normal(e, next_point(*rd, i.0 as int));
                lemma_dead_end_area(e, (u.0 as int, u.1 as int), sl.0, sl.1);
                assert(list@.drop_last() =~= Seq::<StableRoadID>::empty());
                assert(list@.last() == x);
                assert(corners_of(self.roads@, list@.drop_last(), i.0 as int) == Seq::<Pt2D>::empty());
                assert(out@ =~= seq![c0, c1]);
            }
            out.push(Pt2D { x: c1.x + w0, y: c1.y + w1 });
            out.push(Pt2D { x: c0.x + w0, y: c0.y + w1 });
            proof {
                assert(w0 * 1 == w0 && w1 * 1 == w1);
                assert(out@ =~= seq![c0, c1, offset(c1, (w0 as int, w1 as int), 1), offset(c0, (w0 as int, w1 as int), 1)]);
            }
        }
        out
    }
}

/// Sets intersection `i`'s polygon.
fn set_polygon(ints: &mut Vec<Option<Intersection>>, i: usize, polygon: Vec<Pt2D>)
    requires
        i < old(ints)@.len(),
    ensures
        final(ints)@.len() == old(ints)@.len(),
        forall|j: int| 0 <= j < old(ints)@.len() && j != i ==> final(ints)@[j] == old(ints)@[j],
        old(ints)@[i as int] is None ==> final(ints)@[i as int] is None,
        old(ints)@[i as int] matches Some(it) ==> final(ints)@[i as int] matches Some(nt) && nt.id
            == it.id && nt.roads == it.roads && nt.polygon@ == polygon@,
{
    let mut slot: Option<Intersection> = None;
    std::mem::swap(&mut ints[i], &mut slot);
    match slot {
        Some(mut it) => {
            it.polygon = polygon;
            ints.set(i, Some(it));
        },
        None => {},
    }
}

/// Every intersection's polygon lies in range.
pub open spec fn polygons_in_range(ints: Seq<Option<Intersection>>) -> bool {
    forall|i: int, j: int|
        0 <= i < ints.len() && (#[trigger] ints[i]) is Some && 0 <= j < ints[i]->0.polygon@.len()
            ==> pt_in_wide_range(#[trigger] ints[i]->0.polygon@[j])
}

impl InitialMap {
    /// Draws the polygon of every intersection (`intersection_polygon`). Each polygon
    /// depends on the roads alone, so the order does not matter.
    pub fn synthesize_polygons(&mut self)
        requires
            old(self).wf(),
        ensures
            final(self).wf(),
            final(self).roads == old(self).roads,
            final(self).name == old(self).name,
            final(self).bounds == old(self).bounds,
            final(self).focus_on == old(self).focus_on,
            final(self).intersections@.len() == old(self).intersections@.len(),
            polygons_in_range(final(self).intersections@),
            forall|i: int|
                0 <= i < old(self).intersections@.len() ==> ((#[trigger] final(self).intersections@[i]) is Some <==> old(self).intersections@[i] is Some) && (
                final(self).intersections@[i] is Some ==> final(self).intersections@[i]->0.roads
                    == old(self).intersections@[i]->0.roads && final(self).intersections@[i]->0.polygon@
                    == polygon_of(final(self).roads@, final(self).intersections@[i]->0.roads@, i)
                    && (final(self).intersections@[i]->0.roads@.len() == 1 ==> final(self).intersections@[i]->0.polygon@.len() == 4
                    && twice_area(final(self).intersections@[i]->0.polygon@) != 0)),
    {
        let ghost orig = *self;
        let mut i: usize = 0;
        while i < self.intersections.len()
            invariant
                self.wf(),
                i <= self.intersections@.len(),
                self.roads == orig.roads,
                self.name == orig.name,
                self.bounds == orig.bounds,
                self.focus_on == orig.focus_on,
                self.intersections@.len() == orig.intersections@.len(),
                forall|j: int|
                    0 <= j < orig.intersections@.len() ==> ((#[trigger] self.intersections@[j]) is Some
                        <==> orig.intersections@[j] is Some) && (self.intersections@[j] is Some
                        ==> self.intersections@[j]->0.id == orig.intersections@[j]->0.id
                        && self.intersections@[j]->0.roads == orig.intersections@[j]->0.roads),
                forall|j: int|
                    0 <= j < i && (#[trigger] self.intersections@[j]) is Some ==> self.intersections@[j]->0.polygon@
                        == polygon_of(self.roads@, self.intersections@[j]->0.roads@, j) && (self.intersections@[j]->0.roads@.len() == 1
                        ==> self.intersections@[j]->0.polygon@.len() == 4 && twice_area(self.intersections@[j]->0.polygon@) != 0) && forall|
                        k: int,
                    |
                        0 <= k < self.intersections@[j]->0.polygon@.len() ==> pt_in_wide_range(
                            #[trigger] self.intersections@[j]->0.polygon@[k],
                        ),
            decreases orig.intersections@.len() - i,
        {
            if self.intersections[i].is_some() {
                let poly = self.intersection_polygon(StableIntersectionID(i));
                set_polygon(&mut self.intersections, i, poly);
            }
            i = i + 1;
        }
    }
}

pub open spec fn orient(a: Pt2D, b: Pt2D, c: Pt2D) -> int {
    (b.x - a.x) * (c.y - a.y) - (b.y - a.y) * (c.x - a.x)
}

pub open spec fn opposite(s: int, t: int) -> bool {
    (s > 0 && t < 0) || (s < 0 && t > 0)
}

/// Segments `a0 a1` and `b0 b1` cross at a point inside both.
pub open spec fn segments_cross(a0: Pt2D, a1: Pt2D, b0: Pt2D, b1: Pt2D) -> bool {
    opposite(orient(a0, a1, b0), orient(a0, a1, b1)) && opposite(orient(b0, b1, a0), orient(b0, b1, a1))
}

/// Some segment of the polyline crosses some edge of the polygon (the last edge closes it).
pub open spec fn crosses_polygon(pl: Seq<Pt2D>, poly: Seq<Pt2D>) -> bool {
    exists|j: int, k: int|
        0 <= j < pl.len() - 1 && 0 <= k < poly.len() && #[trigger] segments_cross(
            pl[j],
            pl[j + 1],
            poly[k],
            poly[(k + 1) % (poly.len() as int)],
        )
}

fn orient_exec(a: Pt2D, b: Pt2D, c: Pt2D) -> (r: i128)
    requires
        pt_in_wide_range(a),
        pt_in_wide_range(b),
        pt_in_wide_range(c),
    ensures
        r == orient(a, b, c),
{
    let bx = b.x as i128 - a.x as i128;
    let by = b.y as i128 - a.y as i128;
    let cx = c.x as i128 - a.x as i128;
    let cy = c.y as i128 - a.y as i128;
    assert(-10_000_000_000_000_000_000_000 <= bx * cy <= 10_000_000_000_000_000_000_000)
        by (nonlinear_arith)
        requires
            -9_000_000_000 <= bx <= 9_000_000_000,
            -9_000_000_000 <= cy <= 9_000_000_000,
    ;
    assert(-10_000_000_000_000_000_000_000 <= by * cx <= 10_000_000_000_000_000_000_000)
        by (nonlinear_arith)
        requires
            -9_000_000_000 <= by <= 9_000_000_000,
            -9_000_000_000 <= cx <= 9_000_000_000,
    ;
    bx * cy - by * cx
}

fn segments_cross_exec(a0: Pt2D, a1: Pt2D, b0: Pt2D, b1: Pt2D) -> (r: bool)
    requires
        pt_in_wide_range(a0),
        pt_in_wide_range(a1),
        pt_in_wide_range(b0),
        pt_in_wide_range(b1),
    ensures
        r == segments_cross(a0, a1, b0, b1),
{
    let a = orient_exec(a0, a1, b0);
    let b = orient_exec(a0, a1, b1);
    let c = orient_exec(b0, b1, a0);
    let d = orient_exec(b0, b1, a1);
    ((a > 0 && b < 0) || (a < 0 && b > 0)) && ((c > 0 && d < 0) || (c < 0 && d > 0))
}

/// Whether some segment of the polyline crosses some edge of the polygon.
pub fn polyline_crosses_polygon(pl: &Vec<Pt2D>, poly: &Vec<Pt2D>) -> (r: bool)
    requires
        forall|j: int| 0 <= j < pl@.len() ==> pt_in_wide_range(#[trigger] pl@[j]),
        forall|j: int| 0 <= j < poly@.len() ==> pt_in_wide_range(#[trigger] poly@[j]),
    ensures
        r == crosses_polygon(pl@, poly@),
{
    let n = poly.len();
    if pl.len() < 2 {
        return false;
    }
    let last = pl.len() - 1;
    let mut j: usize = 0;
    while j < last
        invariant
            last == pl@.len() - 1,
            forall|j: int| 0 <= j < pl@.len() ==> pt_in_wide_range(#[trigger] pl@[j]),
            forall|j: int| 0 <= j < poly@.len() ==> pt_in_wide_range(#[trigger] poly@[j]),
            n == poly@.len(),
            j <= pl@.len(),
            forall|jj: int, k: int|
                0 <= jj < j && jj < pl@.len() - 1 && 0 <= k < n ==> !#[trigger] segments_cross(
                    pl@[jj],
                    pl@[jj + 1],
                    poly@[k],
                    poly@[(k + 1) % (n as int)],
                ),
        decreases pl@.len() - j,
    {
        let mut k: usize = 0;
        while k < n
            invariant
                forall|j: int| 0 <= j < pl@.len() ==> pt_in_wide_range(#[trigger] pl@[j]),
                forall|j: int| 0 <= j < poly@.len() ==> pt_in_wide_range(#[trigger] poly@[j]),
                n == poly@.len(),
                last == pl@.len() - 1,
                j < last,
                k <= n,
                forall|jj: int, kk: int|
                    0 <= jj < j && jj < pl@.len() - 1 && 0 <= kk < n ==> !#[trigger] segments_cross(
                        pl@[jj],
                        pl@[jj + 1],
                        poly@[kk],
                        poly@[(kk + 1) % (n as int)],
                    ),
                forall|kk: int|
                    0 <= kk < k ==> !#[trigger] segments_cross(
                        pl@[j as int],
                        pl@[j + 1],
                        poly@[kk],
                        poly@[(kk + 1) % (n as int)],
                    ),
            decreases n - k,
        {
            let k2: usize = if k + 1 == n {
                0
            } else {
                k + 1
            };
            if k + 1 == n {
                assert((n as int) % (n as int) == 0) by (nonlinear_arith)
                    requires
                        n > 0,
                ;
            } else {
                assert((k + 1) % (n as int) == k + 1) by (nonlinear_arith)
                    requires
                        0 <= k + 1 < n,
                ;
            }
            if segments_cross_exec(pl[j], pl[j + 1], poly[k], poly[k2]) {
                return true;
            }
            k = k + 1;
        }
        j = j + 1;
    }
    false
}

} // verus!
