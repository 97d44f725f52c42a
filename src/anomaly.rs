//! Roads that cross intersections they do not end at.

use crate::geometry::{crosses_polygon, polygons_in_range, polyline_crosses_polygon, pt_in_wide_range};
use crate::initial::{within_hops, Diagnostic, InitialMap, road_geometry_ok};
use crate::multipolygon::lemma_seq_contains_push;
use crate::raw_data::{StableIntersectionID, StableRoadID};
use vstd::prelude::*;

verus! {

/// How many road hops away a crossed intersection may lie and still be reported.
pub const ANOMALY_HOPS: usize = 5;

/// Road `r` crosses the polygon of intersection `i`, which is not one of its endpoints
/// and lies within `ANOMALY_HOPS` road hops of it.
pub open spec fn suspicious(m: InitialMap, r: int, i: int) -> bool {
    &&& 0 <= r < m.roads@.len()
    &&& m.roads@[r] is Some
    &&& 0 <= i < m.intersections@.len()
    &&& m.intersections@[i] is Some
    &&& m.roads@[r]->0.src_i.0 != i
    &&& m.roads@[r]->0.dst_i.0 != i
    &&& crosses_polygon(m.roads@[r]->0.trimmed_center_pts@, m.intersections@[i]->0.polygon@)
    &&& within_hops(m.roads@, i, r, ANOMALY_HOPS as int)
}

/// The finding reports a suspicious crossing.
pub open spec fn suspicious_finding(m: InitialMap, d: Diagnostic) -> bool {
    match d {
        Diagnostic::Suspicious { road, intersection } => suspicious(
            m,
            road.0 as int,
            intersection.0 as int,
        ),
        _ => false,
    }
}

fn contains_road(v: &Vec<StableRoadID>, r: StableRoadID) -> (res: bool)
    ensures
        res == v@.contains(r),
{
    let mut k: usize = 0;
    while k < v.len()
        invariant
            k <= v@.len(),
            forall|j: int| 0 <= j < k ==> v@[j] != r,
        decreases v@.len() - k,
    {
        if v[k] == r {
            return true;
        }
        k = k + 1;
    }
    false
}

impl InitialMap {
    /// Roads whose trimmed centerline crosses the polygon of an intersection that is not
    /// one of their endpoints. A crossing is reported only when the road is reached from
    /// that intersection by `floodfill` within `ANOMALY_HOPS` hops, which keeps out
    /// bridges and tunnels over distant parts of the map.
    pub fn find_anomalies(&self) -> (r: Vec<Diagnostic>)
        requires
            self.wf(),
            polygons_in_range(self.intersections@),
        ensures
            forall|k: int|
                0 <= k < r@.len() ==> suspicious_finding(*self, #[trigger] r@[k]),
            forall|rr: int, ii: int|
                #[trigger] suspicious(*self, rr, ii) ==> r@.contains(
                    Diagnostic::Suspicious {
                        road: StableRoadID(rr as usize),
                        intersection: StableIntersectionID(ii as usize),
                    },
                ),
    {
        let mut found: Vec<Diagnostic> = Vec::new();
        let mut r: usize = 0;
        while r < self.roads.len()
            invariant
                self.wf(),
                polygons_in_range(self.intersections@),
                r <= self.roads@.len(),
                forall|k: int|
                    0 <= k < found@.len() ==> suspicious_finding(*self, #[trigger] found@[k]),
                forall|rr: int, ii: int|
                    rr < r && #[trigger] suspicious(*self, rr, ii) ==> found@.contains(
                        Diagnostic::Suspicious {
                            road: StableRoadID(rr as usize),
                            intersection: StableIntersectionID(ii as usize),
                        },
                    ),
            decreases self.roads@.len() - r,
        {
            if let Some(rd) = &self.roads[r] {
                assert(self.roads@[r as int] is Some);
                assert(road_geometry_ok(*rd));
                let mut i: usize = 0;
                while i < self.intersections.len()
                    invariant
                        self.wf(),
                        polygons_in_range(self.intersections@),
                        r < self.roads@.len(),
                        self.roads@[r as int] == Some(*rd),
                        road_geometry_ok(*rd),
                        i <= self.intersections@.len(),
                        forall|k: int|
                            0 <= k < found@.len() ==> suspicious_finding(*self, #[trigger] found@[k]),
                        forall|rr: int, ii: int|
                            (rr < r || (rr == r && ii < i)) && #[trigger] suspicious(*self, rr, ii)
                                ==> found@.contains(
                                Diagnostic::Suspicious {
                                    road: StableRoadID(rr as usize),
                                    intersection: StableIntersectionID(ii as usize),
                                },
                            ),
                    decreases self.intersections@.len() - i,
                {
                    if let Some(it) = &self.intersections[i] {
                        assert(self.intersections@[i as int] is Some);
                        if rd.src_i.0 != i && rd.dst_i.0 != i {
                            assert forall|j: int|
                                0 <= j < rd.trimmed_center_pts@.len() implies pt_in_wide_range(
                                #[trigger] rd.trimmed_center_pts@[j],
                            ) by {
                                assert(0 <= rd.trimmed_center_pts@[j].x);
                            }
                            assert forall|j: int|
                                0 <= j < it.polygon@.len() implies pt_in_wide_range(
                                #[trigger] it.polygon@[j],
                            ) by {
                                assert(pt_in_wide_range(self.intersections@[i as int]->0.polygon@[j]));
                            }
                            if polyline_crosses_polygon(&rd.trimmed_center_pts, &it.polygon) {
                                let near = self.floodfill(StableIntersectionID(i), ANOMALY_HOPS);
                                if contains_road(&near, StableRoadID(r)) {
                                    let ghost fv = found@;
                                    found.push(
                                        Diagnostic::Suspicious {
                                            road: StableRoadID(r),
                                            intersection: StableIntersectionID(i),
                                        },
                                    );
                                    proof {
                                        lemma_seq_contains_push(
                                            fv,
                                            Diagnostic::Suspicious {
                                                road: StableRoadID(r),
                                                intersection: StableIntersectionID(i),
                                            },
                                        );
                                    }
                                }
                            }
                        }
                    }
                    proof {
                        assert(StableRoadID(r as int as usize) == StableRoadID(r));
                        assert(StableIntersectionID(i as int as usize) == StableIntersectionID(i));
                    }
                    i = i + 1;
                }
            }
            r = r + 1;
        }
        found
    }
}

} // verus!
