//! The intersection/road graph: its tables, how it is built, and how it is walked.

use crate::geom::{Bounds, GPSBounds, Pt2D, MAX_PLANAR_COORD};
use crate::raw_data::{RawMap, StableIntersectionID, StableRoadID};
use crate::geom::LonLat;
use crate::anomaly::{suspicious, suspicious_finding};
use crate::geometry::{polygon_of, polygons_in_range, twice_area};
use crate::multipolygon::lemma_seq_contains_push;
use crate::merge::{taxicab_len, SHORT_ROAD_LENGTH};
use crate::raw_data;
use vstd::prelude::*;

verus! {

/// The width of one lane, in centimeters.
pub const LANE_THICKNESS: u64 = 250;

#[derive(Clone, Copy, Debug, PartialEq, Eq, Structural, Hash)]
pub enum LaneType {
    Driving,
    Parking,
    Sidewalk,
    Biking,
    Bus,
}

/// One lane of a road: its kind, and whether it runs against the road's points.
#[derive(Clone, Copy, Debug, PartialEq, Eq, Structural, Hash)]
pub struct LaneSpec {
    pub lane_type: LaneType,
    pub reverse_pts: bool,
}

/// A road of the graph.
#[derive(Debug)]
pub struct Road {
    pub id: StableRoadID,
    pub src_i: StableIntersectionID,
    pub dst_i: StableIntersectionID,
    pub original_center_pts: Vec<Pt2D>,
    pub trimmed_center_pts: Vec<Pt2D>,
    pub fwd_width: u64,
    pub back_width: u64,
    pub lane_specs: Vec<LaneSpec>,
}

/// An intersection of the graph, with the roads that end at it.
#[derive(Debug)]
pub struct Intersection {
    pub id: StableIntersectionID,
    pub polygon: Vec<Pt2D>,
    pub roads: Vec<StableRoadID>,
}

/// The road `r` of the table ends at intersection `i`.
pub open spec fn ends_at(roads: Seq<Option<Road>>, r: int, i: int) -> bool {
    0 <= r < roads.len() && roads[r] is Some && (roads[r]->0.src_i.0 == i || roads[r]->0.dst_i.0
        == i)
}

/// The roads among the first `n` of the table that end at `i`, by increasing ID.
pub open spec fn incident_upto(roads: Seq<Option<Road>>, i: int, n: int) -> Seq<StableRoadID>
    decreases n,
{
    if n <= 0 {
        Seq::empty()
    } else if ends_at(roads, n - 1, i) {
        incident_upto(roads, i, n - 1).push(StableRoadID((n - 1) as usize))
    } else {
        incident_upto(roads, i, n - 1)
    }
}

/// Every road that ends at `i`, by increasing ID.
pub open spec fn incident(roads: Seq<Option<Road>>, i: int) -> Seq<StableRoadID> {
    incident_upto(roads, i, roads.len() as int)
}

/// Sets `ints[i]`'s road list to `roads` plus `r`.
fn push_incident(ints: &mut Vec<Option<Intersection>>, i: usize, r: StableRoadID)
    requires
        i < old(ints)@.len(),
    ensures
        final(ints)@.len() == old(ints)@.len(),
        forall|j: int| 0 <= j < old(ints)@.len() && j != i ==> final(ints)@[j] == old(ints)@[j],
        old(ints)@[i as int] is None ==> final(ints)@[i as int] is None,
        old(ints)@[i as int] matches Some(it) ==> final(ints)@[i as int] matches Some(nt) && nt.id
            == it.id && nt.polygon == it.polygon && nt.roads@ == it.roads@.push(r),
{
    let mut slot: Option<Intersection> = None;
    std::mem::swap(&mut ints[i], &mut slot);
    match slot {
        Some(mut it) => {
            it.roads.push(r);
            ints.set(i, Some(it));
        },
        None => {},
    }
}

/// Sets `ints[i]`'s road list to the empty list.
fn clear_incident(ints: &mut Vec<Option<Intersection>>, i: usize)
    requires
        i < old(ints)@.len(),
    ensures
        final(ints)@.len() == old(ints)@.len(),
        forall|j: int| 0 <= j < old(ints)@.len() && j != i ==> final(ints)@[j] == old(ints)@[j],
        old(ints)@[i as int] is None ==> final(ints)@[i as int] is None,
        old(ints)@[i as int] matches Some(it) ==> final(ints)@[i as int] matches Some(nt) && nt.id
            == it.id && nt.polygon == it.polygon && nt.roads@ == Seq::<StableRoadID>::empty(),
{
    let mut slot: Option<Intersection> = None;
    std::mem::swap(&mut ints[i], &mut slot);
    match slot {
        Some(mut it) => {
            it.roads = Vec::new();
            ints.set(i, Some(it));
        },
        None => {},
    }
}

/// Every road of the table joins two distinct intersections of `ints`.
pub open spec fn endpoints_in(roads: Seq<Option<Road>>, n_ints: int) -> bool {
    forall|r: int|
        0 <= r < roads.len() && (#[trigger] roads[r]) is Some ==> roads[r]->0.src_i.0 < n_ints
            && roads[r]->0.dst_i.0 < n_ints && roads[r]->0.src_i != roads[r]->0.dst_i
}

/// `b` keeps the intersections of `a`, with their IDs and polygons, and lists for each
/// the roads of the table that end at it.
pub open spec fn incidence_rebuilt(
    a: Seq<Option<Intersection>>,
    b: Seq<Option<Intersection>>,
    roads: Seq<Option<Road>>,
) -> bool {
    &&& b.len() == a.len()
    &&& forall|i: int|
        0 <= i < a.len() ==> ((#[trigger] b[i]) is Some <==> a[i] is Some) && (a[i] is Some ==> b[i]->0.id
            == a[i]->0.id && b[i]->0.polygon == a[i]->0.polygon && b[i]->0.roads@ == incident(
            roads,
            i,
        ))
}

/// Recomputes each intersection's road list from the roads' endpoints.
pub(crate) fn rebuild_incidence(roads: &Vec<Option<Road>>, ints: &mut Vec<Option<Intersection>>)
    requires
        endpoints_in(roads@, old(ints)@.len() as int),
    ensures
        incidence_rebuilt(old(ints)@, final(ints)@, roads@),
{
    let ghost orig = ints@;
    let mut i: usize = 0;
    while i < ints.len()
        invariant
            i <= ints@.len(),
            ints@.len() == orig.len(),
            forall|j: int|
                0 <= j < orig.len() ==> ((#[trigger] ints@[j]) is Some <==> orig[j] is Some) && (
                orig[j] is Some ==> ints@[j]->0.id == orig[j]->0.id && ints@[j]->0.polygon
                    == orig[j]->0.polygon && (j < i ==> ints@[j]->0.roads@ == Seq::<
                    StableRoadID,
                >::empty())),
        decreases orig.len() - i,
    {
        clear_incident(ints, i);
        i = i + 1;
    }
    let mut r: usize = 0;
    while r < roads.len()
        invariant
            r <= roads@.len(),
            ints@.len() == orig.len(),
            endpoints_in(roads@, orig.len() as int),
            forall|j: int|
                0 <= j < orig.len() ==> ((#[trigger] ints@[j]) is Some <==> orig[j] is Some) && (
                orig[j] is Some ==> ints@[j]->0.id == orig[j]->0.id && ints@[j]->0.polygon
                    == orig[j]->0.polygon && ints@[j]->0.roads@ == incident_upto(
                    roads@,
                    j,
                    r as int,
                )),
        decreases roads@.len() - r,
    {
        match &roads[r] {
            Some(rd) => {
                assert(roads@[r as int] is Some);
                push_incident(ints, rd.src_i.0, StableRoadID(r));
                push_incident(ints, rd.dst_i.0, StableRoadID(r));
            },
            None => {},
        }
        r = r + 1;
    }
}

proof fn lemma_incident_upto_contains(roads: Seq<Option<Road>>, i: int, n: int)
    requires
        n <= usize::MAX + 1,
    ensures
        forall|r: StableRoadID|
            #[trigger] incident_upto(roads, i, n).contains(r) <==> (r.0 < n && ends_at(
                roads,
                r.0 as int,
                i,
            )),
        forall|a: int, b: int|
            0 <= a < b < incident_upto(roads, i, n).len() ==> (#[trigger] incident_upto(
                roads,
                i,
                n,
            )[a]).0 < (#[trigger] incident_upto(roads, i, n)[b]).0,
        forall|a: int|
            0 <= a < incident_upto(roads, i, n).len() ==> (#[trigger] incident_upto(
                roads,
                i,
                n,
            )[a]).0 < n,
    decreases n,
{
    if n > 0 {
        lemma_incident_upto_contains(roads, i, n - 1);
        let prev = incident_upto(roads, i, n - 1);
        if ends_at(roads, n - 1, i) {
            let cur = prev.push(StableRoadID((n - 1) as usize));
            assert forall|r: StableRoadID| #[trigger] cur.contains(r) <==> (r.0 < n && ends_at(
                roads,
                r.0 as int,
                i,
            )) by {
                if cur.contains(r) && r != StableRoadID((n - 1) as usize) {
                    let k = choose|k: int| 0 <= k < cur.len() && cur[k] == r;
                    assert(prev[k] == r);
                    assert(prev.contains(r));
                }
                if r.0 < n - 1 && ends_at(roads, r.0 as int, i) {
                    assert(prev.contains(r));
                    let k = choose|k: int| 0 <= k < prev.len() && prev[k] == r;
                    assert(cur[k] == r);
                }
                if r.0 == n - 1 {
                    assert(cur[prev.len() as int] == r);
                }
            }
        }
    }
}

/// Every point lies in the projected area of the map.
pub open spec fn pts_in_range(pts: Seq<Pt2D>) -> bool {
    forall|j: int|
        0 <= j < pts.len() ==> 0 <= (#[trigger] pts[j]).x <= MAX_PLANAR_COORD && 0 <= pts[j].y
            <= MAX_PLANAR_COORD
}

/// A road's geometry can be worked with: its centerlines have two points or more, in
/// range, and its sides are at most `MAX_LANES` lanes wide.
pub open spec fn road_geometry_ok(rd: Road) -> bool {
    &&& rd.original_center_pts@.len() >= 2
    &&& rd.trimmed_center_pts@.len() >= 2
    &&& pts_in_range(rd.original_center_pts@)
    &&& pts_in_range(rd.trimmed_center_pts@)
    &&& rd.fwd_width <= LANE_THICKNESS * MAX_LANES
    &&& rd.back_width <= LANE_THICKNESS * MAX_LANES
}

/// A map whose tables agree with each other: every road's ID is its place in the
/// table, its two endpoints are distinct intersections of the map, and every
/// intersection lists exactly the roads that end at it.
pub open spec fn graph_wf(roads: Seq<Option<Road>>, ints: Seq<Option<Intersection>>) -> bool {
    &&& roads.len() <= usize::MAX
    &&& endpoints_in(roads, ints.len() as int)
    &&& forall|r: int|
        0 <= r < roads.len() && (#[trigger] roads[r]) is Some ==> roads[r]->0.id.0 == r
            && ints[roads[r]->0.src_i.0 as int] is Some && ints[roads[r]->0.dst_i.0 as int] is Some
            && road_geometry_ok(roads[r]->0)
    &&& forall|i: int|
        0 <= i < ints.len() && (#[trigger] ints[i]) is Some ==> ints[i]->0.id.0 == i
            && ints[i]->0.roads@ == incident(roads, i)
}

/// The most lanes that a road may have; it keeps widths and offsets in range.
pub const MAX_LANES: usize = 1000;

/// The number of lanes that run against (`reverse`) or along the road's points.
pub open spec fn count_lanes(l: Seq<LaneSpec>, reverse: bool) -> nat
    decreases l.len(),
{
    if l.len() == 0 {
        0
    } else {
        count_lanes(l.drop_last(), reverse) + if l.last().reverse_pts == reverse {
            1nat
        } else {
            0nat
        }
    }
}

proof fn lemma_count_lanes_bound(l: Seq<LaneSpec>, reverse: bool)
    ensures
        count_lanes(l, reverse) <= l.len(),
    decreases l.len(),
{
    if l.len() > 0 {
        lemma_count_lanes_bound(l.drop_last(), reverse);
    }
}

/// A finding of the construction, for the log: nothing in the construction reads it.
#[derive(Clone, Copy, Debug, PartialEq, Eq, Structural)]
pub enum Diagnostic {
    /// The way starts and ends at the same intersection; its road was left out.
    SelfLoop { osm_way_id: i64, i: StableIntersectionID, road: StableRoadID },
    /// The way has fewer than two points, or a point outside the map's bounds; its road
    /// was left out.
    BadGeometry { osm_way_id: i64, road: StableRoadID },
    /// The road's centerline crosses the polygon of an intersection near it that is not
    /// one of its endpoints.
    Suspicious { road: StableRoadID, intersection: StableIntersectionID },
}

/// The finding is about a raw road that was left out, for the reason it gives.
pub open spec fn dropped_road_finding(d: Diagnostic, roads: Seq<raw_data::Road>, b: GPSBounds) -> bool {
    match d {
        Diagnostic::SelfLoop { osm_way_id, i, road } => road.0 < roads.len() && roads[road.0 as int].i1
            == roads[road.0 as int].i2 && i == roads[road.0 as int].i1 && osm_way_id
            == roads[road.0 as int].osm_way_id,
        Diagnostic::BadGeometry { osm_way_id, road } => road.0 < roads.len() && roads[road.0 as int].i1
            != roads[road.0 as int].i2 && !road_kept(roads[road.0 as int], b) && osm_way_id
            == roads[road.0 as int].osm_way_id,
        _ => false,
    }
}

/// `pre` is the graph that `build` makes of `data`, with every intersection's polygon
/// drawn: the graph as it stands before short roads are merged.
pub open spec fn built_and_drawn(pre: InitialMap, data: &RawMap, b: GPSBounds, lanes: Seq<Vec<LaneSpec>>) -> bool {
    &&& pre.wf()
    &&& polygons_in_range(pre.intersections@)
    &&& pre.roads@.len() == data.roads@.len()
    &&& pre.intersections@.len() == data.intersection_count
    &&& forall|k: int|
        0 <= k < data.roads@.len() ==> ((#[trigger] pre.roads@[k]) is Some <==> road_kept(
            data.roads@[k],
            b,
        )) && (pre.roads@[k] is Some ==> road_built(pre.roads@[k]->0, data.roads@[k], k, lanes[k]@, b))
    &&& forall|i: int|
        0 <= i < pre.intersections@.len() ==> (#[trigger] pre.intersections@[i]) is Some
            && pre.intersections@[i]->0.polygon@ == polygon_of(
            pre.roads@,
            pre.intersections@[i]->0.roads@,
            i,
        )
}

/// A raw road that becomes a road of the graph: its endpoints differ, and it has at
/// least two points, all inside the bounds.
pub open spec fn road_kept(rr: raw_data::Road, b: GPSBounds) -> bool {
    &&& rr.i1 != rr.i2
    &&& rr.points@.len() >= 2
    &&& forall|j: int| 0 <= j < rr.points@.len() ==> b.spec_contains(#[trigger] rr.points@[j])
}

pub open spec fn projected(pts: Seq<LonLat>, b: GPSBounds) -> Seq<Pt2D> {
    Seq::new(pts.len(), |j: int| b.project(pts[j]))
}

/// How many of the raw roads are kept.
pub open spec fn count_kept(roads: Seq<raw_data::Road>, b: GPSBounds) -> int
    decreases roads.len(),
{
    if roads.len() == 0 {
        0
    } else {
        count_kept(roads.drop_last(), b) + if road_kept(roads.last(), b) {
            1int
        } else {
            0int
        }
    }
}

/// The road of the graph built from raw road `k`.
pub open spec fn road_built(
    rd: Road,
    rr: raw_data::Road,
    k: int,
    lanes: Seq<LaneSpec>,
    b: GPSBounds,
) -> bool {
    &&& rd.id.0 == k
    &&& rd.src_i == rr.i1
    &&& rd.dst_i == rr.i2
    &&& rd.original_center_pts@ == projected(rr.points@, b)
    &&& rd.trimmed_center_pts@ == rd.original_center_pts@
    &&& rd.lane_specs@ == lanes
    &&& rd.fwd_width == LANE_THICKNESS * count_lanes(lanes, false)
    &&& rd.back_width == LANE_THICKNESS * count_lanes(lanes, true)
}

/// The planar points of a way, when all of them lie inside the bounds.
fn project_points(pts: &Vec<LonLat>, b: &GPSBounds) -> (r: Option<Vec<Pt2D>>)
    requires
        b.wf(),
    ensures
        r is Some <==> forall|j: int| 0 <= j < pts@.len() ==> b.spec_contains(#[trigger] pts@[j]),
        r matches Some(v) ==> v@ == projected(pts@, *b) && pts_in_range(v@),
{
    let mut out: Vec<Pt2D> = Vec::new();
    let mut i: usize = 0;
    while i < pts.len()
        invariant
            b.wf(),
            i <= pts@.len(),
            out@ == projected(pts@.take(i as int), *b),
            pts_in_range(out@),
            forall|j: int| 0 <= j < i ==> b.spec_contains(#[trigger] pts@[j]),
        decreases pts@.len() - i,
    {
        match Pt2D::from_gps(pts[i], b) {
            Some(p) => out.push(p),
            None => {
                return None;
            },
        }
        i = i + 1;
        assert(out@ =~= projected(pts@.take(i as int), *b));
    }
    assert(pts@.take(i as int) =~= pts@);
    Some(out)
}

fn copy_lanes(l: &Vec<LaneSpec>) -> (r: Vec<LaneSpec>)
    ensures
        r@ == l@,
{
    let mut r: Vec<LaneSpec> = Vec::new();
    let mut i: usize = 0;
    while i < l.len()
        invariant
            i <= l@.len(),
            r@ == l@.take(i as int),
        decreases l@.len() - i,
    {
        r.push(l[i]);
        i = i + 1;
        assert(r@ =~= l@.take(i as int));
    }
    assert(r@ =~= l@);
    r
}

fn copy_pts(v: &Vec<Pt2D>) -> (r: Vec<Pt2D>)
    ensures
        r@ == v@,
{
    let mut r: Vec<Pt2D> = Vec::new();
    let mut i: usize = 0;
    while i < v.len()
        invariant
            i <= v@.len(),
            r@ == v@.take(i as int),
        decreases v@.len() - i,
    {
        r.push(v[i]);
        i = i + 1;
        assert(r@ =~= v@.take(i as int));
    }
    assert(r@ =~= v@);
    r
}

/// The widths of a road's two sides: lane thickness times the lanes along its points,
/// and times the lanes against them.
fn side_widths(lanes: &Vec<LaneSpec>) -> (r: (u64, u64))
    requires
        lanes@.len() <= MAX_LANES,
    ensures
        r.0 == LANE_THICKNESS * count_lanes(lanes@, false),
        r.1 == LANE_THICKNESS * count_lanes(lanes@, true),
        r.0 <= LANE_THICKNESS * MAX_LANES,
        r.1 <= LANE_THICKNESS * MAX_LANES,
{
    let mut fwd: u64 = 0;
    let mut back: u64 = 0;
    let mut i: usize = 0;
    while i < lanes.len()
        invariant
            i <= lanes@.len() <= MAX_LANES,
            fwd == LANE_THICKNESS * count_lanes(lanes@.take(i as int), false),
            back == LANE_THICKNESS * count_lanes(lanes@.take(i as int), true),
        decreases lanes@.len() - i,
    {
        proof {
            lemma_count_lanes_bound(lanes@.take(i as int), false);
            lemma_count_lanes_bound(lanes@.take(i as int), true);
        }
        assert(lanes@.take(i + 1).drop_last() =~= lanes@.take(i as int));
        if lanes[i].reverse_pts {
            back = back + LANE_THICKNESS;
        } else {
            fwd = fwd + LANE_THICKNESS;
        }
        i = i + 1;
    }
    assert(lanes@.take(i as int) =~= lanes@);
    proof {
        lemma_count_lanes_bound(lanes@, false);
        lemma_count_lanes_bound(lanes@, true);
    }
    (fwd, back)
}

/// The intersection/road graph of a map, with each road's lane layout.
///
/// Intersections and roads live in two tables indexed by their stable IDs; an entry
/// that is `None` was never built, or was retired by a merge. IDs are never reused.
#[derive(Debug)]
pub struct InitialMap {
    pub roads: Vec<Option<Road>>,
    pub intersections: Vec<Option<Intersection>>,
    pub name: String,
    pub bounds: Bounds,
    pub focus_on: Option<StableIntersectionID>,
}

impl InitialMap {
    pub open spec fn wf(&self) -> bool {
        graph_wf(self.roads@, self.intersections@)
    }

    /// Builds the graph from the extracted roads: one empty intersection per ID, and one
    /// road per raw road whose endpoints differ and whose points can all be projected.
    /// `lane_specs[k]` is the lane layout of raw road `k`.
    pub fn build(
        name: String,
        data: &RawMap,
        gps_bounds: &GPSBounds,
        bounds: &Bounds,
        lane_specs: &Vec<Vec<LaneSpec>>,
    ) -> (r: (InitialMap, Vec<Diagnostic>))
        requires
            gps_bounds.wf(),
            lane_specs@.len() == data.roads@.len(),
            forall|k: int| 0 <= k < lane_specs@.len() ==> (#[trigger] lane_specs@[k])@.len() <= MAX_LANES,
            forall|k: int|
                0 <= k < data.roads@.len() ==> (#[trigger] data.roads@[k]).i1.0 < data.intersection_count
                    && data.roads@[k].i2.0 < data.intersection_count,
        ensures
            r.0.wf(),
            r.0.name@ == name@,
            r.0.bounds == *bounds,
            r.0.focus_on is None,
            r.1@.len() == data.roads@.len() - count_kept(data.roads@, *gps_bounds),
            forall|k: int| 0 <= k < r.1@.len() ==> dropped_road_finding(#[trigger] r.1@[k], data.roads@, *gps_bounds),
            r.0.intersections@.len() == data.intersection_count,
            forall|i: int|
                0 <= i < data.intersection_count ==> (#[trigger] r.0.intersections@[i]) is Some
                    && r.0.intersections@[i]->0.polygon@.len() == 0,
            r.0.roads@.len() == data.roads@.len(),
            forall|k: int|
                0 <= k < data.roads@.len() ==> ((#[trigger] r.0.roads@[k]) is Some <==> road_kept(
                    data.roads@[k],
                    *gps_bounds,
                )) && (r.0.roads@[k] is Some ==> road_built(
                    r.0.roads@[k]->0,
                    data.roads@[k],
                    k,
                    lane_specs@[k]@,
                    *gps_bounds,
                )),
    {
        let mut diags: Vec<Diagnostic> = Vec::new();
        let mut ints: Vec<Option<Intersection>> = Vec::new();
        let mut i: usize = 0;
        while i < data.intersection_count
            invariant
                i <= data.intersection_count,
                ints@.len() == i,
                forall|j: int|
                    0 <= j < i ==> (#[trigger] ints@[j]) is Some && ints@[j]->0.id.0 == j
                        && ints@[j]->0.polygon@.len() == 0,
            decreases data.intersection_count - i,
        {
            ints.push(
                Some(
                    Intersection {
                        id: StableIntersectionID(i),
                        polygon: Vec::new(),
                        roads: Vec::new(),
                    },
                ),
            );
            i = i + 1;
        }
        let mut roads: Vec<Option<Road>> = Vec::new();
        let mut k: usize = 0;
        while k < data.roads.len()
            invariant
                gps_bounds.wf(),
                k <= data.roads@.len(),
                lane_specs@.len() == data.roads@.len(),
                forall|k: int| 0 <= k < lane_specs@.len() ==> (#[trigger] lane_specs@[k])@.len() <= MAX_LANES,
                forall|k: int|
                    0 <= k < data.roads@.len() ==> (#[trigger] data.roads@[k]).i1.0
                        < data.intersection_count && data.roads@[k].i2.0 < data.intersection_count,
                roads@.len() == k,
                diags@.len() == k - count_kept(data.roads@.take(k as int), *gps_bounds),
                forall|j: int| 0 <= j < diags@.len() ==> dropped_road_finding(#[trigger] diags@[j], data.roads@, *gps_bounds),
                forall|j: int|
                    0 <= j < k ==> ((#[trigger] roads@[j]) is Some <==> road_kept(
                        data.roads@[j],
                        *gps_bounds,
                    )) && (roads@[j] is Some ==> roads@[j]->0.id.0 == j && road_geometry_ok(roads@[j]->0) && road_built(
                        roads@[j]->0,
                        data.roads@[j],
                        j,
                        lane_specs@[j]@,
                        *gps_bounds,
                    )),
            decreases data.roads@.len() - k,
        {
            let rr = &data.roads[k];
            assert(data.roads@.take(k + 1).drop_last() =~= data.roads@.take(k as int));
            if rr.i1 == rr.i2 {
                diags.push(
                    Diagnostic::SelfLoop {
                        osm_way_id: rr.osm_way_id,
                        i: rr.i1,
                        road: StableRoadID(k),
                    },
                );
                roads.push(None);
            } else if rr.points.len() < 2 {
                diags.push(Diagnostic::BadGeometry { osm_way_id: rr.osm_way_id, road: StableRoadID(k) });
                roads.push(None);
            } else {
                match project_points(&rr.points, gps_bounds) {
                    None => {
                        diags.push(
                            Diagnostic::BadGeometry { osm_way_id: rr.osm_way_id, road: StableRoadID(k) },
                        );
                        roads.push(None);
                    },
                    Some(pts) => {
                        let (fwd_width, back_width) = side_widths(&lane_specs[k]);
                        let trimmed = copy_pts(&pts);
                        roads.push(
                            Some(
                                Road {
                                    id: StableRoadID(k),
                                    src_i: rr.i1,
                                    dst_i: rr.i2,
                                    original_center_pts: pts,
                                    trimmed_center_pts: trimmed,
                                    fwd_width,
                                    back_width,
                                    lane_specs: copy_lanes(&lane_specs[k]),
                                },
                            ),
                        );
                    },
                }
            }
            k = k + 1;
        }
        rebuild_incidence(&roads, &mut ints);
        assert(data.roads@.take(k as int) =~= data.roads@);
        // Reading the length tells the proof that it fits in a `usize`.
        let _n = roads.len();
        let m = InitialMap { roads, intersections: ints, name, bounds: *bounds, focus_on: None };
        (m, diags)
    }

    /// Builds the graph (`build`), draws every intersection's polygon, looks for roads
    /// that cross intersections in strange ways, and merges away short roads, drawing
    /// the polygons again afterwards. Returns the map and what was found on the way.
    pub fn new(
        name: String,
        data: &RawMap,
        gps_bounds: &GPSBounds,
        bounds: &Bounds,
        lane_specs: &Vec<Vec<LaneSpec>>,
    ) -> (r: (InitialMap, Vec<Diagnostic>))
        requires
            gps_bounds.wf(),
            lane_specs@.len() == data.roads@.len(),
            forall|k: int| 0 <= k < lane_specs@.len() ==> (#[trigger] lane_specs@[k])@.len() <= MAX_LANES,
            forall|k: int|
                0 <= k < data.roads@.len() ==> (#[trigger] data.roads@[k]).i1.0 < data.intersection_count
                    && data.roads@[k].i2.0 < data.intersection_count,
        ensures
            r.0.wf(),
            r.0.name@ == name@,
            r.0.intersections@.len() == data.intersection_count,
            r.0.roads@.len() == data.roads@.len(),
            forall|k: int|
                0 <= k < data.roads@.len() && (#[trigger] r.0.roads@[k]) is Some ==> road_kept(
                    data.roads@[k],
                    *gps_bounds,
                ),
            r.0.bounds == *bounds,
            r.0.focus_on is None,
            forall|i: int|
                0 <= i < r.0.intersections@.len() && (#[trigger] r.0.intersections@[i]) is Some
                    ==> r.0.intersections@[i]->0.polygon@ == polygon_of(
                    r.0.roads@,
                    r.0.intersections@[i]->0.roads@,
                    i,
                ) && (r.0.intersections@[i]->0.roads@.len() == 1 ==> r.0.intersections@[i]->0.polygon@.len() == 4
                    && twice_area(r.0.intersections@[i]->0.polygon@) != 0),
            forall|k: int|
                0 <= k < data.roads@.len() && (#[trigger] r.0.roads@[k]) is Some ==> ({
                    let rd = r.0.roads@[k]->0;
                    &&& rd.id.0 == k
                    &&& rd.original_center_pts@ == projected(data.roads@[k].points@, *gps_bounds)
                    &&& rd.trimmed_center_pts@ == rd.original_center_pts@
                    &&& rd.lane_specs@ == lane_specs@[k]@
                    &&& rd.fwd_width == LANE_THICKNESS * count_lanes(lane_specs@[k]@, false)
                    &&& rd.back_width == LANE_THICKNESS * count_lanes(lane_specs@[k]@, true)
                }),
            forall|k: int|
                0 <= k < data.roads@.len() && road_kept(#[trigger] data.roads@[k], *gps_bounds)
                    && taxicab_len(projected(data.roads@[k].points@, *gps_bounds))
                    >= SHORT_ROAD_LENGTH ==> r.0.roads@[k] is Some,
            exists|pre: InitialMap|
                built_and_drawn(pre, data, *gps_bounds, lane_specs@) && (forall|k: int|
                    0 <= k < r.1@.len() ==> dropped_road_finding(
                        #[trigger] r.1@[k],
                        data.roads@,
                        *gps_bounds,
                    ) || suspicious_finding(pre, r.1@[k])) && (forall|rr: int, ii: int|
                    #[trigger] suspicious(pre, rr, ii) ==> r.1@.contains(
                        Diagnostic::Suspicious {
                            road: StableRoadID(rr as usize),
                            intersection: StableIntersectionID(ii as usize),
                        },
                    )),
    {
        let (mut m, mut diags) = InitialMap::build(name, data, gps_bounds, bounds, lane_specs);
        m.synthesize_polygons();
        let ghost pre = m;
        let ghost d0 = diags@;
        let mut found = m.find_anomalies();
        let ghost f0 = found@;
        diags.append(&mut found);
        proof {
            assert(built_and_drawn(pre, data, *gps_bounds, lane_specs@));
            assert forall|k: int| 0 <= k < diags@.len() implies dropped_road_finding(
                #[trigger] diags@[k],
                data.roads@,
                *gps_bounds,
            ) || suspicious_finding(pre, diags@[k]) by {
                if k < d0.len() {
                    assert(diags@[k] == d0[k]);
                } else {
                    assert(diags@[k] == f0[k - d0.len()]);
                }
            }
            assert forall|rr: int, ii: int| #[trigger] suspicious(pre, rr, ii) implies diags@.contains(
                Diagnostic::Suspicious {
                    road: StableRoadID(rr as usize),
                    intersection: StableIntersectionID(ii as usize),
                },
            ) by {
                let d = Diagnostic::Suspicious {
                    road: StableRoadID(rr as usize),
                    intersection: StableIntersectionID(ii as usize),
                };
                assert(f0.contains(d));
                let j = choose|j: int| 0 <= j < f0.len() && f0[j] == d;
                assert(diags@[d0.len() + j] == d);
            }
        }
        let ghost built = m.roads@;
        m.short_roads(SHORT_ROAD_LENGTH);
        m.synthesize_polygons();
        assert forall|k: int|
            0 <= k < data.roads@.len() && (#[trigger] m.roads@[k]) is Some implies road_kept(
            data.roads@[k],
            *gps_bounds,
        ) by {
            assert(built[k] is Some);
        }
        assert forall|k: int|
            0 <= k < data.roads@.len() && (#[trigger] m.roads@[k]) is Some implies ({
                let rd = m.roads@[k]->0;
                &&& rd.id.0 == k
                &&& rd.original_center_pts@ == projected(data.roads@[k].points@, *gps_bounds)
                &&& rd.trimmed_center_pts@ == rd.original_center_pts@
                &&& rd.lane_specs@ == lane_specs@[k]@
                &&& rd.fwd_width == LANE_THICKNESS * count_lanes(lane_specs@[k]@, false)
                &&& rd.back_width == LANE_THICKNESS * count_lanes(lane_specs@[k]@, true)
            }) by {
            assert(built[k] is Some);
        }
        assert forall|k: int|
            0 <= k < data.roads@.len() && road_kept(#[trigger] data.roads@[k], *gps_bounds)
                && taxicab_len(projected(data.roads@[k].points@, *gps_bounds))
                >= SHORT_ROAD_LENGTH implies m.roads@[k] is Some by {
            assert(built[k] is Some);
        }
        (m, diags)
    }

    /// The roads within `steps` road hops of intersection `start` (at least one hop),
    /// found by a breadth-first walk over shared intersections, each road once.
    pub fn floodfill(&self, start: StableIntersectionID, steps: usize) -> (r: Vec<StableRoadID>)
        requires
            self.wf(),
            start.0 < self.intersections@.len(),
            self.intersections@[start.0 as int] is Some,
        ensures
            r@.no_duplicates(),
            forall|k: int|
                0 <= k < r@.len() ==> (#[trigger] r@[k]).0 < self.roads@.len() && within_hops(
                    self.roads@,
                    start.0 as int,
                    r@[k].0 as int,
                    if steps == 0 {
                        1
                    } else {
                        steps as int
                    },
                ),
            forall|x: int|
                within_hops(
                    self.roads@,
                    start.0 as int,
                    x,
                    if steps == 0 {
                        1
                    } else {
                        steps as int
                    },
                ) ==> #[trigger] r@.contains(StableRoadID(x as usize)),
    {
        let ghost roads = self.roads@;
        let ghost s0 = start.0 as int;
        let bound: usize = if steps == 0 {
            1
        } else {
            steps
        };
        let nr = self.roads.len();
        let mut seen: Vec<bool> = Vec::new();
        let mut i: usize = 0;
        while i < nr
            invariant
                i <= nr,
                seen@.len() == i,
                forall|j: int| 0 <= j < i ==> !(#[trigger] seen@[j]),
            decreases nr - i,
        {
            seen.push(false);
            i = i + 1;
        }
        let mut result: Vec<StableRoadID> = Vec::new();
        let mut frontier: Vec<StableRoadID> = Vec::new();
        let start_roads = &self.intersections[start.0].as_ref().unwrap().roads;
        proof {
            lemma_incidence_consistent(*self, s0);
            assert forall|x: StableRoadID| #[trigger] start_roads@.contains(x) implies x.0 < seen@.len() by {}
        }
        visit_list(start_roads, &mut seen, &mut frontier, &mut result);
        proof {
            assert forall|y: int| 0 <= y < nr implies (#[trigger] seen@[y] <==> within_hops(roads, s0, y, 1)) by {
                assert(start_roads@.contains(StableRoadID(y as usize)) <==> ends_at(roads, y, s0));
            }
            assert forall|k: int| 0 <= k < frontier@.len() implies (#[trigger] frontier@[k]).0 < nr
                && within_hops(roads, s0, frontier@[k].0 as int, 1) by {
                assert(start_roads@.contains(frontier@[k]));
            }
            assert forall|q: int| 0 <= q < nr && within_hops(roads, s0, q, 1) implies #[trigger] frontier@.contains(
                StableRoadID(q as usize),
            ) by {
                assert(seen@[q]);
            }
        }
        let mut level: usize = 1;
        while level < bound
            invariant
                self.wf(),
                roads == self.roads@,
                nr == roads.len(),
                1 <= level <= bound,
                seen@.len() == nr,
                forall|y: int| 0 <= y < nr ==> (#[trigger] seen@[y] <==> within_hops(roads, s0, y, level as int)),
                forall|y: int| 0 <= y < nr ==> (seen@[y] <==> #[trigger] result@.contains(StableRoadID(y as usize))),
                forall|k: int| 0 <= k < result@.len() ==> (#[trigger] result@[k]).0 < nr,
                result@.no_duplicates(),
                forall|k: int|
                    0 <= k < frontier@.len() ==> (#[trigger] frontier@[k]).0 < nr && within_hops(
                        roads,
                        s0,
                        frontier@[k].0 as int,
                        level as int,
                    ),
                forall|q: int|
                    0 <= q < nr && within_hops(roads, s0, q, level as int) && !within_hops(
                        roads,
                        s0,
                        q,
                        level - 1,
                    ) ==> #[trigger] frontier@.contains(StableRoadID(q as usize)),
            decreases bound - level,
        {
            let ghost seen0 = seen@;
            let mut next: Vec<StableRoadID> = Vec::new();
            let mut fi: usize = 0;
            while fi < frontier.len()
                invariant
                    self.wf(),
                    roads == self.roads@,
                    nr == roads.len(),
                    1 <= level < bound,
                    fi <= frontier@.len(),
                    seen@.len() == nr,
                    forall|k: int|
                        0 <= k < frontier@.len() ==> (#[trigger] frontier@[k]).0 < nr && within_hops(
                            roads,
                            s0,
                            frontier@[k].0 as int,
                            level as int,
                        ),
                    forall|y: int|
                        0 <= y < nr ==> (#[trigger] seen@[y] <==> (seen0[y] || exists|j: int|
                            0 <= j < fi && #[trigger] adjacent(roads, frontier@[j].0 as int, y))),
                    forall|y: int| 0 <= y < nr ==> (seen@[y] <==> #[trigger] result@.contains(StableRoadID(y as usize))),
                    forall|k: int| 0 <= k < result@.len() ==> (#[trigger] result@[k]).0 < nr,
                    result@.no_duplicates(),
                    forall|k: int|
                        0 <= k < next@.len() ==> (#[trigger] next@[k]).0 < nr && within_hops(
                            roads,
                            s0,
                            next@[k].0 as int,
                            level + 1,
                        ),
                    forall|y: int|
                        0 <= y < nr && seen@[y] && !seen0[y] ==> #[trigger] next@.contains(StableRoadID(y as usize)),
                decreases frontier@.len() - fi,
            {
                let q = frontier[fi];
                let ghost qi = q.0 as int;
                let rd = self.roads[q.0].as_ref().unwrap();
                let ghost seen1 = seen@;
                let ghost next1 = next@;
                let l1 = &self.intersections[rd.src_i.0].as_ref().unwrap().roads;
                let l2 = &self.intersections[rd.dst_i.0].as_ref().unwrap().roads;
                proof {
                    lemma_incidence_consistent(*self, rd.src_i.0 as int);
                    lemma_incidence_consistent(*self, rd.dst_i.0 as int);
                }
                visit_list(l1, &mut seen, &mut next, &mut result);
                let ghost next2 = next@;
                let ghost seen2 = seen@;
                visit_list(l2, &mut seen, &mut next, &mut result);
                proof {
                    assert forall|y: int| 0 <= y < nr implies (#[trigger] seen@[y] <==> (seen0[y] || exists|j: int|
                        0 <= j < fi + 1 && #[trigger] adjacent(roads, frontier@[j].0 as int, y))) by {
                        assert(l1@.contains(StableRoadID(y as usize)) <==> ends_at(roads, y, rd.src_i.0 as int));
                        assert(l2@.contains(StableRoadID(y as usize)) <==> ends_at(roads, y, rd.dst_i.0 as int));
                        if adjacent(roads, qi, y) {
                            assert(adjacent(roads, frontier@[fi as int].0 as int, y));
                        }
                        if exists|j: int| 0 <= j < fi + 1 && #[trigger] adjacent(roads, frontier@[j].0 as int, y) {
                            let j = choose|j: int| 0 <= j < fi + 1 && #[trigger] adjacent(roads, frontier@[j].0 as int, y);
                            if j < fi {
                                assert(seen1[y]);
                            }
                        }
                    }
                    assert forall|k: int| 0 <= k < next@.len() implies (#[trigger] next@[k]).0 < nr && within_hops(
                        roads,
                        s0,
                        next@[k].0 as int,
                        level + 1,
                    ) by {
                        if k >= next1.len() {
                            let x = next@[k];
                            if k < next2.len() {
                                assert(l1@.contains(x));
                                assert(adjacent(roads, qi, x.0 as int));
                            } else {
                                assert(l2@.contains(x));
                                assert(adjacent(roads, qi, x.0 as int));
                            }
                            assert(within_hops(roads, s0, qi, level as int));
                        } else {
                            assert(next2[k] == next1[k]);
                            assert(next@[k] == next2[k]);
                        }
                    }
                    assert forall|y: int| 0 <= y < nr && seen@[y] && !seen0[y] implies #[trigger] next@.contains(
                        StableRoadID(y as usize),
                    ) by {
                        if seen1[y] {
                            assert(next1.contains(StableRoadID(y as usize)));
                            let k = choose|k: int| 0 <= k < next1.len() && next1[k] == StableRoadID(y as usize);
                            assert(next2[k] == next1[k]);
                            assert(next@[k] == next2[k]);
                        } else if seen2[y] {
                            assert(next2.contains(StableRoadID(y as usize)));
                            let k = choose|k: int| 0 <= k < next2.len() && next2[k] == StableRoadID(y as usize);
                            assert(next@[k] == next2[k]);
                        }
                    }
                }
                fi = fi + 1;
            }
            proof {
                assert forall|y: int| 0 <= y < nr implies (#[trigger] seen@[y] <==> within_hops(
                    roads,
                    s0,
                    y,
                    level + 1,
                )) by {
                    if seen0[y] {
                        lemma_within_hops_monotone(roads, s0, y, level as int, level + 1);
                    } else if seen@[y] {
                        let j = choose|j: int| 0 <= j < frontier@.len() && #[trigger] adjacent(roads, frontier@[j].0 as int, y);
                        assert(within_hops(roads, s0, frontier@[j].0 as int, level as int));
                    }
                    if within_hops(roads, s0, y, level + 1) && !seen0[y] {
                        if ends_at(roads, y, s0) {
                            lemma_within_hops_monotone(roads, s0, y, 1, level as int);
                        } else {
                            let q = choose|q: int| within_hops(roads, s0, q, level as int) && #[trigger] adjacent(roads, q, y);
                            if level >= 2 && within_hops(roads, s0, q, level - 1) {
                                assert(within_hops(roads, s0, y, level as int));
                            } else {
                                assert(q < nr);
                                assert(frontier@.contains(StableRoadID(q as usize)));
                                let j = choose|j: int| 0 <= j < frontier@.len() && frontier@[j] == StableRoadID(q as usize);
                                assert(adjacent(roads, frontier@[j].0 as int, y));
                            }
                        }
                    }
                }
                assert forall|q: int|
                    0 <= q < nr && within_hops(roads, s0, q, level + 1) && !within_hops(roads, s0, q, level as int)
                    implies #[trigger] next@.contains(StableRoadID(q as usize)) by {
                    assert(seen@[q]);
                    assert(!seen0[q]);
                }
            }
            frontier = next;
            level = level + 1;
        }
        proof {
            assert forall|k: int| 0 <= k < result@.len() implies (#[trigger] result@[k]).0 < nr
                && within_hops(roads, s0, result@[k].0 as int, bound as int) by {
                assert(result@.contains(result@[k]));
                assert(StableRoadID(result@[k].0 as usize) == result@[k]);
            }
            assert forall|x: int| within_hops(roads, s0, x, bound as int) implies #[trigger] result@.contains(
                StableRoadID(x as usize),
            ) by {
                if !ends_at(roads, x, s0) {
                    let q = choose|q: int| within_hops(roads, s0, q, bound - 1) && #[trigger] adjacent(roads, q, x);
                }
                assert(seen@[x]);
            }
        }
        result
    }
}

/// Road `r` shares an intersection with road `q`.
pub open spec fn adjacent(roads: Seq<Option<Road>>, q: int, r: int) -> bool {
    0 <= q < roads.len() && roads[q] is Some && (ends_at(roads, r, roads[q]->0.src_i.0 as int)
        || ends_at(roads, r, roads[q]->0.dst_i.0 as int))
}

/// Road `r` can be reached from intersection `start` in at most `k` road hops: it ends
/// at `start`, or it shares an intersection with a road reached in `k - 1` hops.
pub open spec fn within_hops(roads: Seq<Option<Road>>, start: int, r: int, k: int) -> bool
    decreases k,
{
    k >= 1 && (ends_at(roads, r, start) || (k >= 2 && exists|q: int|
        within_hops(roads, start, q, k - 1) && #[trigger] adjacent(roads, q, r)))
}

proof fn lemma_within_hops_monotone(roads: Seq<Option<Road>>, start: int, r: int, k: int, k2: int)
    requires
        within_hops(roads, start, r, k),
        k <= k2,
    ensures
        within_hops(roads, start, r, k2),
    decreases k2,
{
    if !ends_at(roads, r, start) && k2 > k {
        let q = choose|q: int| within_hops(roads, start, q, k - 1) && #[trigger] adjacent(roads, q, r);
        lemma_within_hops_monotone(roads, start, q, k - 1, k2 - 1);
    }
}

/// Marks, records and queues every road of `list` not seen yet.
fn visit_list(
    list: &Vec<StableRoadID>,
    seen: &mut Vec<bool>,
    next: &mut Vec<StableRoadID>,
    result: &mut Vec<StableRoadID>,
)
    requires
        forall|x: StableRoadID| #[trigger] list@.contains(x) ==> x.0 < old(seen)@.len(),
        forall|y: int|
            0 <= y < old(seen)@.len() ==> (old(seen)@[y] <==> #[trigger] old(result)@.contains(
                StableRoadID(y as usize),
            )),
        forall|k: int| 0 <= k < old(result)@.len() ==> (#[trigger] old(result)@[k]).0 < old(seen)@.len(),
        old(result)@.no_duplicates(),
    ensures
        final(seen)@.len() == old(seen)@.len(),
        forall|y: int|
            0 <= y < old(seen)@.len() ==> (#[trigger] final(seen)@[y] <==> (old(seen)@[y]
                || list@.contains(StableRoadID(y as usize)))),
        forall|y: int|
            0 <= y < old(seen)@.len() ==> (final(seen)@[y] <==> #[trigger] final(result)@.contains(
                StableRoadID(y as usize),
            )),
        forall|k: int| 0 <= k < final(result)@.len() ==> (#[trigger] final(result)@[k]).0 < old(seen)@.len(),
        final(result)@.no_duplicates(),
        final(next)@.len() >= old(next)@.len(),
        forall|k: int| 0 <= k < old(next)@.len() ==> final(next)@[k] == old(next)@[k],
        forall|k: int| old(next)@.len() <= k < final(next)@.len() ==> list@.contains(#[trigger] final(next)@[k]),
        forall|y: int|
            0 <= y < old(seen)@.len() && final(seen)@[y] && !old(seen)@[y] ==> #[trigger] final(next)@.contains(StableRoadID(y as usize)),
{
    let ghost seen0 = seen@;
    let ghost next0 = next@;
    let n = seen.len();
    let mut k: usize = 0;
    while k < list.len()
        invariant
            n == seen@.len(),
            seen@.len() == seen0.len(),
            k <= list@.len(),
            forall|x: StableRoadID| #[trigger] list@.contains(x) ==> x.0 < n,
            forall|y: int|
                0 <= y < n ==> (#[trigger] seen@[y] <==> (seen0[y] || exists|j: int|
                    0 <= j < k && list@[j] == StableRoadID(y as usize))),
            forall|y: int| 0 <= y < n ==> (seen@[y] <==> #[trigger] result@.contains(StableRoadID(y as usize))),
            forall|j: int| 0 <= j < result@.len() ==> (#[trigger] result@[j]).0 < n,
            result@.no_duplicates(),
            next@.len() >= next0.len(),
            forall|j: int| 0 <= j < next0.len() ==> next@[j] == next0[j],
            forall|j: int| next0.len() <= j < next@.len() ==> list@.contains(#[trigger] next@[j]),
            forall|y: int|
                0 <= y < n && seen@[y] && !seen0[y] ==> #[trigger] next@.contains(StableRoadID(y as usize)),
        decreases list@.len() - k,
    {
        let x = list[k];
        assert(list@.contains(x));
        let ghost sv = seen@;
        let ghost rv = result@;
        let ghost nv = next@;
        if !seen[x.0] {
            seen.set(x.0, true);
            result.push(x);
            next.push(x);
            proof {
                lemma_seq_contains_push(rv, x);
                lemma_seq_contains_push(nv, x);
                assert forall|a: int, b: int| 0 <= a < b < result@.len() implies result@[a] != result@[b] by {
                    if b == result@.len() - 1 {
                        assert(result@[a] == rv[a]);
                        assert(rv.contains(rv[a]));
                        assert(rv[a].0 < n);
                        assert(StableRoadID(rv[a].0 as usize) == rv[a]);
                        assert(sv[rv[a].0 as int]);
                    }
                }
            }
        }
        proof {
            assert forall|y: int| 0 <= y < n implies (#[trigger] seen@[y] <==> (seen0[y] || exists|j: int|
                0 <= j < k + 1 && list@[j] == StableRoadID(y as usize))) by {
                if y == x.0 {
                    assert(list@[k as int] == StableRoadID(y as usize));
                }
                if exists|j: int| 0 <= j < k + 1 && list@[j] == StableRoadID(y as usize) {
                    let j = choose|j: int| 0 <= j < k + 1 && list@[j] == StableRoadID(y as usize);
                    if j == k {
                        assert(y == x.0);
                    }
                }
            }
            assert forall|y: int| 0 <= y < n && seen@[y] && !seen0[y] implies #[trigger] next@.contains(
                StableRoadID(y as usize),
            ) by {
                if sv[y] {
                    assert(nv.contains(StableRoadID(y as usize)));
                    let j = choose|j: int| 0 <= j < nv.len() && nv[j] == StableRoadID(y as usize);
                    assert(next@[j] == nv[j]);
                } else {
                    assert(y == x.0);
                    assert(next@[next@.len() - 1] == x);
                }
            }
        }
        k = k + 1;
    }
    proof {
        assert forall|y: int| 0 <= y < n implies (#[trigger] seen@[y] <==> (seen0[y] || list@.contains(
            StableRoadID(y as usize),
        ))) by {
            if list@.contains(StableRoadID(y as usize)) {
                let j = choose|j: int| 0 <= j < list@.len() && list@[j] == StableRoadID(y as usize);
            }
        }
    }
}

/// No road of a well-formed map starts and ends at the same intersection.
pub proof fn lemma_no_self_loops(m: InitialMap, r: int)
    requires
        m.wf(),
        0 <= r < m.roads@.len(),
        m.roads@[r] is Some,
    ensures
        m.roads@[r]->0.src_i != m.roads@[r]->0.dst_i,
{
}

/// In a well-formed map, an intersection's road list holds exactly the roads whose
/// source or destination it is, each once.
pub proof fn lemma_incidence_consistent(m: InitialMap, i: int)
    requires
        m.wf(),
        0 <= i < m.intersections@.len(),
        m.intersections@[i] is Some,
    ensures
        forall|r: StableRoadID|
            #[trigger] m.intersections@[i]->0.roads@.contains(r) <==> (r.0 < m.roads@.len()
                && m.roads@[r.0 as int] is Some && (m.roads@[r.0 as int]->0.src_i.0 == i
                || m.roads@[r.0 as int]->0.dst_i.0 == i)),
        m.intersections@[i]->0.roads@.no_duplicates(),
{
    lemma_incident_upto_contains(m.roads@, i, m.roads@.len() as int);
    let l = m.intersections@[i]->0.roads@;
    assert forall|a: int, b: int| 0 <= a < l.len() && 0 <= b < l.len() && a != b implies l[a]
        != l[b] by {
        if a < b {
            assert(l[a].0 < l[b].0);
        } else {
            assert(l[b].0 < l[a].0);
        }
    }
}

} // verus!
