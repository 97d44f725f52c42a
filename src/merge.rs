//! Merging away short roads.

use crate::geom::Pt2D;
use crate::initial::{
    ends_at, graph_wf, lemma_incidence_consistent, rebuild_incidence, InitialMap, Intersection,
    Road,
};
use crate::raw_data::{StableIntersectionID, StableRoadID};
use vstd::prelude::*;
use vstd::set_lib::{lemma_int_range, lemma_len_subset, set_int_range};

verus! {

/// Roads whose centerline is shorter than this, in centimeters, are merged away.
pub const SHORT_ROAD_LENGTH: i64 = 200;

pub open spec fn abs_diff(a: i64, b: i64) -> int {
    if a >= b {
        a - b
    } else {
        b - a
    }
}

/// The length of a polyline, measured along the axes (the taxicab length). It is never
/// less than the straight-line length, so a road that is long by that measure is long
/// by this one too.
pub open spec fn taxicab_len(pts: Seq<Pt2D>) -> int
    decreases pts.len(),
{
    if pts.len() < 2 {
        0
    } else {
        let a = pts[pts.len() - 2];
        let b = pts[pts.len() - 1];
        taxicab_len(pts.drop_last()) + abs_diff(a.x, b.x) + abs_diff(a.y, b.y)
    }
}

proof fn lemma_taxicab_prefix(pts: Seq<Pt2D>, i: int)
    requires
        0 <= i <= pts.len(),
    ensures
        taxicab_len(pts.take(i)) <= taxicab_len(pts),
        taxicab_len(pts.take(i)) >= 0,
    decreases pts.len() - i,
{
    if i < pts.len() {
        lemma_taxicab_prefix(pts, i + 1);
        let t = pts.take(i + 1);
        assert(t.drop_last() =~= pts.take(i));
    } else {
        assert(pts.take(i) =~= pts);
    }
    lemma_taxicab_nonneg(pts.take(i));
}

proof fn lemma_taxicab_nonneg(pts: Seq<Pt2D>)
    ensures
        taxicab_len(pts) >= 0,
    decreases pts.len(),
{
    if pts.len() >= 2 {
        lemma_taxicab_nonneg(pts.drop_last());
    }
}

/// Whether the polyline is shorter than `threshold`, by its taxicab length.
pub fn is_shorter_than(pts: &Vec<Pt2D>, threshold: i64) -> (r: bool)
    ensures
        r == (taxicab_len(pts@) < threshold),
{
    if threshold <= 0 {
        proof {
            lemma_taxicab_nonneg(pts@);
        }
        return false;
    }
    if pts.len() < 2 {
        return true;
    }
    let mut acc: i128 = 0;
    let mut i: usize = 1;
    while i < pts.len()
        invariant
            1 <= i <= pts@.len(),
            acc == taxicab_len(pts@.take(i as int)),
            acc < threshold,
        decreases pts@.len() - i,
    {
        let a = pts[i - 1];
        let b = pts[i];
        let dx: i128 = if a.x >= b.x {
            a.x as i128 - b.x as i128
        } else {
            b.x as i128 - a.x as i128
        };
        let dy: i128 = if a.y >= b.y {
            a.y as i128 - b.y as i128
        } else {
            b.y as i128 - a.y as i128
        };
        assert(pts@.take(i + 1).drop_last() =~= pts@.take(i as int));
        acc = acc + dx + dy;
        i = i + 1;
        if acc >= threshold as i128 {
            proof {
                lemma_taxicab_prefix(pts@, i as int);
            }
            return false;
        }
    }
    assert(pts@.take(i as int) =~= pts@);
    true
}

/// The road after its endpoint `from` has been moved to `to`.
pub open spec fn repointed(old_r: Road, new_r: Road, from: StableIntersectionID, to: StableIntersectionID) -> bool {
    &&& new_r.id == old_r.id
    &&& new_r.src_i == if old_r.src_i == from { to } else { old_r.src_i }
    &&& new_r.dst_i == if old_r.dst_i == from { to } else { old_r.dst_i }
    &&& new_r.original_center_pts == old_r.original_center_pts
    &&& new_r.trimmed_center_pts == old_r.trimmed_center_pts
    &&& new_r.fwd_width == old_r.fwd_width
    &&& new_r.back_width == old_r.back_width
    &&& new_r.lane_specs == old_r.lane_specs
}

fn repoint(
    roads: &mut Vec<Option<Road>>,
    x: usize,
    from: StableIntersectionID,
    to: StableIntersectionID,
)
    requires
        x < old(roads)@.len(),
    ensures
        final(roads)@.len() == old(roads)@.len(),
        forall|j: int| 0 <= j < old(roads)@.len() && j != x ==> final(roads)@[j] == old(roads)@[j],
        old(roads)@[x as int] is None ==> final(roads)@[x as int] is None,
        old(roads)@[x as int] matches Some(rd) ==> final(roads)@[x as int] matches Some(nd)
            && repointed(rd, nd, from, to),
{
    let mut slot: Option<Road> = None;
    std::mem::swap(&mut roads[x], &mut slot);
    match slot {
        Some(mut rd) => {
            if rd.src_i == from {
                rd.src_i = to;
            }
            if rd.dst_i == from {
                rd.dst_i = to;
            }
            roads.set(x, Some(rd));
        },
        None => {},
    }
}

/// Some road other than `r` joins intersections `a` and `b`.
pub open spec fn parallel_road(roads: Seq<Option<Road>>, r: int, a: int, b: int) -> bool {
    exists|x: int| x != r && #[trigger] ends_at(roads, x, a) && ends_at(roads, x, b)
}

/// The intersections that are still in the map.
pub open spec fn live_intersections(ints: Seq<Option<Intersection>>) -> Set<int> {
    Set::new(|i: int| 0 <= i < ints.len() && ints[i] is Some)
}

/// Keeping only intersections that a map had never makes it have more of them.
pub proof fn lemma_fewer_intersections(
    before: Seq<Option<Intersection>>,
    after: Seq<Option<Intersection>>,
)
    requires
        live_intersections(after).subset_of(live_intersections(before)),
    ensures
        live_intersections(before).finite(),
        live_intersections(after).finite(),
        live_intersections(after).len() <= live_intersections(before).len(),
{
    lemma_int_range(0, before.len() as int);
    lemma_len_subset(live_intersections(before), set_int_range(0, before.len() as int));
    lemma_len_subset(live_intersections(after), live_intersections(before));
}

impl InitialMap {
    /// Whether another road joins the same two intersections as road `r`.
    fn has_parallel(&self, r: StableRoadID) -> (res: bool)
        requires
            self.wf(),
            r.0 < self.roads@.len(),
            self.roads@[r.0 as int] is Some,
        ensures
            res == parallel_road(
                self.roads@,
                r.0 as int,
                self.roads@[r.0 as int]->0.src_i.0 as int,
                self.roads@[r.0 as int]->0.dst_i.0 as int,
            ),
    {
        let rd = self.roads[r.0].as_ref().unwrap();
        let a = rd.src_i;
        let b = rd.dst_i;
        let list = &self.intersections[b.0].as_ref().unwrap().roads;
        proof {
            lemma_incidence_consistent(*self, b.0 as int);
        }
        let mut k: usize = 0;
        while k < list.len()
            invariant
                self.wf(),
                r.0 < self.roads@.len(),
                self.roads@[r.0 as int] == Some(*rd),
                a == rd.src_i,
                b == rd.dst_i,
                self.intersections@[b.0 as int] is Some,
                list@ == self.intersections@[b.0 as int]->0.roads@,
                forall|x: StableRoadID|
                    #[trigger] list@.contains(x) <==> (x.0 < self.roads@.len() && ends_at(
                        self.roads@,
                        x.0 as int,
                        b.0 as int,
                    )),
                k <= list@.len(),
                forall|j: int|
                    0 <= j < k ==> (#[trigger] list@[j]) == r || !ends_at(
                        self.roads@,
                        list@[j].0 as int,
                        a.0 as int,
                    ),
            decreases list@.len() - k,
        {
            let x = list[k];
            assert(list@.contains(x));
            if x != r {
                let other = self.roads[x.0].as_ref().unwrap();
                if other.src_i == a || other.dst_i == a {
                    assert(ends_at(self.roads@, x.0 as int, a.0 as int));
                    assert(ends_at(self.roads@, x.0 as int, b.0 as int));
                    return true;
                }
            }
            k = k + 1;
        }
        proof {
            assert forall|x: int| x != r.0 && #[trigger] ends_at(self.roads@, x, a.0 as int) implies !ends_at(
                self.roads@,
                x,
                b.0 as int,
            ) by {
                if ends_at(self.roads@, x, b.0 as int) {
                    assert(list@.contains(StableRoadID(x as usize)));
                    let j = choose|j: int| 0 <= j < list@.len() && list@[j] == StableRoadID(x as usize);
                }
            }
        }
        false
    }

    /// Merges road `r` away: its destination intersection is retired, and every other
    /// road that ended there now ends at `r`'s source. Nothing happens when the road is
    /// gone already, or when another road joins the same two intersections (it would
    /// become a loop).
    pub fn merge_road(&mut self, r: StableRoadID) -> (merged: bool)
        requires
            old(self).wf(),
            r.0 < old(self).roads@.len(),
        ensures
            final(self).wf(),
            final(self).roads@.len() == old(self).roads@.len(),
            final(self).intersections@.len() == old(self).intersections@.len(),
            final(self).name == old(self).name,
            final(self).bounds == old(self).bounds,
            final(self).focus_on == old(self).focus_on,
            merged == (old(self).roads@[r.0 as int] is Some && !parallel_road(
                old(self).roads@,
                r.0 as int,
                old(self).roads@[r.0 as int]->0.src_i.0 as int,
                old(self).roads@[r.0 as int]->0.dst_i.0 as int,
            )),
            !merged ==> final(self).roads@ == old(self).roads@ && final(self).intersections@ == old(self).intersections@,
            merged ==> ({
                let a = old(self).roads@[r.0 as int]->0.src_i;
                let b = old(self).roads@[r.0 as int]->0.dst_i;
                &&& final(self).roads@[r.0 as int] is None
                &&& final(self).intersections@[b.0 as int] is None
                &&& live_intersections(final(self).intersections@) == live_intersections(
                    old(self).intersections@,
                ).remove(b.0 as int)
                &&& forall|x: int|
                    0 <= x < old(self).roads@.len() && x != r.0 ==> (old(self).roads@[x] is None
                        ==> final(self).roads@[x] is None) && (old(self).roads@[x] matches Some(
                        rd,
                    ) ==> final(self).roads@[x] matches Some(nd) && repointed(rd, nd, b, a))
                &&& forall|i: int|
                    0 <= i < old(self).intersections@.len() && i != b.0 && (
                    #[trigger] old(self).intersections@[i]) is Some ==> final(self).intersections@[i]->0.polygon == old(self).intersections@[i]->0.polygon
            }),
    {
        if self.roads[r.0].is_none() {
            return false;
        }
        if self.has_parallel(r) {
            return false;
        }
        let ghost old_roads = self.roads@;
        let ghost old_ints = self.intersections@;
        let ghost orig = *self;
        let rd = self.roads[r.0].as_ref().unwrap();
        let a = rd.src_i;
        let b = rd.dst_i;
        self.roads.set(r.0, None);
        let mut x: usize = 0;
        while x < self.roads.len()
            invariant
                x <= self.roads@.len(),
                self.roads@.len() == old_roads.len(),
                r.0 < old_roads.len(),
                self.name == orig.name,
                self.bounds == orig.bounds,
                self.focus_on == orig.focus_on,
                self.roads@[r.0 as int] is None,
                old_roads[r.0 as int] is Some,
                a == old_roads[r.0 as int]->0.src_i,
                b == old_roads[r.0 as int]->0.dst_i,
                graph_wf(old_roads, old_ints),
                self.intersections@ == old_ints,
                !parallel_road(old_roads, r.0 as int, a.0 as int, b.0 as int),
                forall|j: int|
                    0 <= j < old_roads.len() && j != r.0 ==> (old_roads[j] is None ==> (
                    #[trigger] self.roads@[j]) is None) && (j >= x && old_roads[j] is Some
                        ==> self.roads@[j] == old_roads[j]) && (j < x ==> (old_roads[j] matches Some(
                        rd,
                    ) ==> self.roads@[j] matches Some(nd) && repointed(rd, nd, b, a))),
            decreases old_roads.len() - x,
        {
            repoint(&mut self.roads, x, b, a);
            x = x + 1;
        }
        self.intersections.set(b.0, None);
        proof {
            assert(graph_wf(old_roads, old_ints));
            assert forall|j: int|
                0 <= j < self.roads@.len() && (#[trigger] self.roads@[j]) is Some implies self.roads@[j]->0.src_i.0
                < self.intersections@.len() && self.roads@[j]->0.dst_i.0 < self.intersections@.len()
                && self.roads@[j]->0.src_i != self.roads@[j]->0.dst_i && self.roads@[j]->0.id.0 == j
                && self.intersections@[self.roads@[j]->0.src_i.0 as int] is Some
                && self.intersections@[self.roads@[j]->0.dst_i.0 as int] is Some by {
                assert(old_roads[j] is Some);
                let o = old_roads[j]->0;
                assert(j != r.0);
                if o.src_i == b && o.dst_i == a {
                    assert(ends_at(old_roads, j, a.0 as int));
                    assert(ends_at(old_roads, j, b.0 as int));
                }
                if o.dst_i == b && o.src_i == a {
                    assert(ends_at(old_roads, j, a.0 as int));
                    assert(ends_at(old_roads, j, b.0 as int));
                }
            }
        }
        rebuild_incidence(&self.roads, &mut self.intersections);
        proof {
            assert(live_intersections(self.intersections@) =~= live_intersections(old_ints).remove(
                b.0 as int,
            ));
        }
        true
    }

    /// Merges away, one by one, the roads whose trimmed centerline is shorter than
    /// `threshold` (by taxicab length), as `merge_road` does. The map stays well formed,
    /// keeps only intersections that it had, and every road at least `threshold` long
    /// stays, with its geometry and lanes.
    pub fn short_roads(&mut self, threshold: i64)
        requires
            old(self).wf(),
        ensures
            final(self).wf(),
            final(self).name == old(self).name,
            final(self).bounds == old(self).bounds,
            final(self).focus_on == old(self).focus_on,
            final(self).roads@.len() == old(self).roads@.len(),
            final(self).intersections@.len() == old(self).intersections@.len(),
            live_intersections(final(self).intersections@).subset_of(
                live_intersections(old(self).intersections@),
            ),
            forall|x: int|
                0 <= x < old(self).roads@.len() && (#[trigger] old(self).roads@[x]) is Some
                    && taxicab_len(old(self).roads@[x]->0.trimmed_center_pts@) >= threshold
                    ==> final(self).roads@[x] is Some && final(self).roads@[x]->0.id == old(self).roads@[x]->0.id && final(self).roads@[x]->0.trimmed_center_pts == old(self).roads@[x]->0.trimmed_center_pts && final(self).roads@[x]->0.original_center_pts
                    == old(self).roads@[x]->0.original_center_pts
                    && final(self).roads@[x]->0.lane_specs == old(self).roads@[x]->0.lane_specs
                    && final(self).roads@[x]->0.fwd_width == old(self).roads@[x]->0.fwd_width
                    && final(self).roads@[x]->0.back_width == old(self).roads@[x]->0.back_width,
            forall|x: int|
                0 <= x < old(self).roads@.len() && (#[trigger] old(self).roads@[x]) is None
                    ==> final(self).roads@[x] is None,
            forall|x: int|
                0 <= x < old(self).roads@.len() && (#[trigger] final(self).roads@[x]) is Some
                    ==> final(self).roads@[x]->0.trimmed_center_pts == old(self).roads@[x]->0.trimmed_center_pts
                    && final(self).roads@[x]->0.original_center_pts == old(self).roads@[x]->0.original_center_pts
                    && final(self).roads@[x]->0.id == old(self).roads@[x]->0.id
                    && final(self).roads@[x]->0.lane_specs == old(self).roads@[x]->0.lane_specs
                    && final(self).roads@[x]->0.fwd_width == old(self).roads@[x]->0.fwd_width
                    && final(self).roads@[x]->0.back_width == old(self).roads@[x]->0.back_width,
            forall|x: int|
                0 <= x < old(self).roads@.len() && (#[trigger] old(self).roads@[x]) is Some
                    && final(self).roads@[x] is None ==> taxicab_len(
                    old(self).roads@[x]->0.trimmed_center_pts@,
                ) < threshold,
            forall|x: int|
                0 <= x < final(self).roads@.len() && (#[trigger] final(self).roads@[x]) is Some
                    && taxicab_len(final(self).roads@[x]->0.trimmed_center_pts@) < threshold
                    ==> parallel_road(
                    final(self).roads@,
                    x,
                    final(self).roads@[x]->0.src_i.0 as int,
                    final(self).roads@[x]->0.dst_i.0 as int,
                ),
    {
        let ghost orig = *self;
        let mut x: usize = 0;
        while x < self.roads.len()
            invariant
                self.wf(),
                x <= self.roads@.len(),
                self.name == orig.name,
                self.bounds == orig.bounds,
                self.focus_on == orig.focus_on,
                self.roads@.len() == orig.roads@.len(),
                self.intersections@.len() == orig.intersections@.len(),
                live_intersections(self.intersections@).subset_of(
                    live_intersections(orig.intersections@),
                ),
                forall|j: int|
                    0 <= j < orig.roads@.len() && (#[trigger] orig.roads@[j]) is Some
                        && taxicab_len(orig.roads@[j]->0.trimmed_center_pts@) >= threshold
                        ==> self.roads@[j] is Some && self.roads@[j]->0.id == orig.roads@[j]->0.id
                        && self.roads@[j]->0.trimmed_center_pts
                        == orig.roads@[j]->0.trimmed_center_pts
                        && self.roads@[j]->0.original_center_pts
                        == orig.roads@[j]->0.original_center_pts && self.roads@[j]->0.lane_specs
                        == orig.roads@[j]->0.lane_specs && self.roads@[j]->0.fwd_width
                        == orig.roads@[j]->0.fwd_width && self.roads@[j]->0.back_width
                        == orig.roads@[j]->0.back_width,
                forall|j: int|
                    0 <= j < orig.roads@.len() && self.roads@[j] is Some ==> (
                    #[trigger] orig.roads@[j]) is Some && self.roads@[j]->0.trimmed_center_pts
                        == orig.roads@[j]->0.trimmed_center_pts
                        && self.roads@[j]->0.original_center_pts
                        == orig.roads@[j]->0.original_center_pts
                        && self.roads@[j]->0.id == orig.roads@[j]->0.id
                        && self.roads@[j]->0.lane_specs == orig.roads@[j]->0.lane_specs
                        && self.roads@[j]->0.fwd_width == orig.roads@[j]->0.fwd_width
                        && self.roads@[j]->0.back_width == orig.roads@[j]->0.back_width,
                forall|j: int|
                    0 <= j < orig.roads@.len() && (#[trigger] orig.roads@[j]) is Some
                        && self.roads@[j] is None ==> taxicab_len(
                        orig.roads@[j]->0.trimmed_center_pts@,
                    ) < threshold,
                forall|j: int|
                    0 <= j < x && (#[trigger] self.roads@[j]) is Some && taxicab_len(
                        self.roads@[j]->0.trimmed_center_pts@,
                    ) < threshold ==> parallel_road(
                        self.roads@,
                        j,
                        self.roads@[j]->0.src_i.0 as int,
                        self.roads@[j]->0.dst_i.0 as int,
                    ),
            decreases orig.roads@.len() - x,
        {
            let short = match &self.roads[x] {
                Some(rd) => is_shorter_than(&rd.trimmed_center_pts, threshold),
                None => false,
            };
            let ghost before = *self;
            if short {
                let merged = self.merge_road(StableRoadID(x));
                proof {
                    if merged {
                        let a = before.roads@[x as int]->0.src_i;
                        let b = before.roads@[x as int]->0.dst_i;
                        assert forall|j: int|
                            0 <= j < x && (#[trigger] self.roads@[j]) is Some && taxicab_len(
                                self.roads@[j]->0.trimmed_center_pts@,
                            ) < threshold implies parallel_road(
                            self.roads@,
                            j,
                            self.roads@[j]->0.src_i.0 as int,
                            self.roads@[j]->0.dst_i.0 as int,
                        ) by {
                            let oj = before.roads@[j]->0;
                            assert(before.roads@[j] is Some);
                            let z = choose|z: int|
                                z != j && #[trigger] ends_at(before.roads@, z, oj.src_i.0 as int)
                                    && ends_at(before.roads@, z, oj.dst_i.0 as int);
                            if z == x {
                                assert(ends_at(before.roads@, j, a.0 as int));
                                assert(ends_at(before.roads@, j, b.0 as int));
                                assert(parallel_road(before.roads@, x as int, a.0 as int, b.0 as int));
                            }
                            assert(self.roads@[z] is Some);
                            assert(ends_at(self.roads@, z, self.roads@[j]->0.src_i.0 as int));
                            assert(ends_at(self.roads@, z, self.roads@[j]->0.dst_i.0 as int));
                        }
                    }
                }
            }
            x = x + 1;
        }
    }
}

} // verus!
