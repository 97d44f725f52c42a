use osm_graph::geom::{Bounds, GPSBounds, LonLat, Pt2D};
use osm_graph::initial::{Diagnostic, InitialMap, LaneSpec, LaneType};
use osm_graph::raw_data::{RawMap, Road, StableIntersectionID, StableRoadID};
use osm_graph::tags::Tags;

const Y: i64 = 1_000_000;

fn gps() -> GPSBounds {
    GPSBounds {
        min_lon: 0,
        min_lat: 0,
        max_lon: 1_000_000,
        max_lat: 1_000_000,
        cm_per_unit_lon: 1_000_000,
        cm_per_unit_lat: 1_000_000,
    }
}

fn bounds() -> Bounds {
    Bounds { min_x: 0, min_y: 0, max_x: 1_000_000, max_y: 1_000_000 }
}

fn raw_road(i1: usize, i2: usize, lons: &[i64]) -> Road {
    Road {
        osm_way_id: 1000 + i1 as i64,
        points: lons.iter().map(|x| LonLat::new(*x, 0)).collect(),
        osm_tags: Tags::new(),
        i1: StableIntersectionID(i1),
        i2: StableIntersectionID(i2),
        parking_lane_fwd: false,
        parking_lane_back: false,
    }
}

fn two_lanes(n: usize) -> Vec<Vec<LaneSpec>> {
    (0..n)
        .map(|_| {
            vec![
                LaneSpec { lane_type: LaneType::Driving, reverse_pts: false },
                LaneSpec { lane_type: LaneType::Driving, reverse_pts: true },
            ]
        })
        .collect()
}

/// Intersections 0..=n in a row, 100 m apart, joined by roads k: k -> k + 1.
fn chain(n: usize) -> RawMap {
    RawMap {
        roads: (0..n).map(|k| raw_road(k, k + 1, &[10_000 * k as i64, 10_000 * (k as i64 + 1)])).collect(),
        intersection_count: n + 1,
    }
}

fn ids(v: &Vec<StableRoadID>) -> Vec<usize> {
    v.iter().map(|r| r.0).collect()
}

fn twice_area(p: &Vec<Pt2D>) -> i128 {
    let n = p.len();
    (0..n)
        .map(|k| {
            let (a, b) = (p[k], p[(k + 1) % n]);
            a.x as i128 * b.y as i128 - a.y as i128 * b.x as i128
        })
        .sum()
}

fn check_consistent(m: &InitialMap) {
    for (k, r) in m.roads.iter().enumerate() {
        if let Some(r) = r {
            assert_eq!(r.id.0, k);
            assert_ne!(r.src_i, r.dst_i);
            assert!(m.intersections[r.src_i.0].as_ref().unwrap().roads.contains(&r.id));
            assert!(m.intersections[r.dst_i.0].as_ref().unwrap().roads.contains(&r.id));
        }
    }
    for (i, it) in m.intersections.iter().enumerate() {
        if let Some(it) = it {
            for r in &it.roads {
                let r = m.roads[r.0].as_ref().unwrap();
                assert!(r.src_i.0 == i || r.dst_i.0 == i);
            }
        }
    }
}

#[test]
fn build_drops_loops_and_links_both_ends() {
    let mut data = chain(2);
    data.roads.push(raw_road(2, 2, &[20_000, 20_500, 20_000]));
    data.roads.push(raw_road(0, 2, &[0, 2_000_000]));
    data.roads.push(raw_road(0, 2, &[0]));
    let (m, diags) = InitialMap::build("test".to_string(), &data, &gps(), &bounds(), &two_lanes(5));
    assert!(m.roads[2].is_none() && m.roads[3].is_none() && m.roads[4].is_none());
    assert!(diags.contains(&Diagnostic::SelfLoop {
        osm_way_id: 1002,
        i: StableIntersectionID(2),
        road: StableRoadID(2)
    }));
    assert!(diags.contains(&Diagnostic::BadGeometry { osm_way_id: 1000, road: StableRoadID(3) }));
    assert!(diags.contains(&Diagnostic::BadGeometry { osm_way_id: 1000, road: StableRoadID(4) }));
    assert_eq!(ids(&m.intersections[0].as_ref().unwrap().roads), vec![0]);
    assert_eq!(ids(&m.intersections[1].as_ref().unwrap().roads), vec![0, 1]);
    assert_eq!(ids(&m.intersections[2].as_ref().unwrap().roads), vec![1]);
    let r0 = m.roads[0].as_ref().unwrap();
    assert_eq!(r0.original_center_pts, vec![Pt2D::new(0, Y), Pt2D::new(10_000, Y)]);
    assert_eq!(r0.trimmed_center_pts, r0.original_center_pts);
    assert_eq!((r0.fwd_width, r0.back_width), (250, 250));
    assert!(m.intersections.iter().all(|i| i.as_ref().unwrap().polygon.is_empty()));
    check_consistent(&m);
}

#[test]
fn dead_end_polygon_has_area() {
    let (m, _) = InitialMap::new("test".to_string(), &chain(2), &gps(), &bounds(), &two_lanes(2));
    let poly = &m.intersections[0].as_ref().unwrap().polygon;
    assert_eq!(poly.len(), 4);
    assert_ne!(twice_area(poly), 0);
    assert_eq!(
        poly,
        &vec![Pt2D::new(0, Y + 250), Pt2D::new(0, Y - 250), Pt2D::new(-250, Y - 250), Pt2D::new(-250, Y + 250)]
    );
    assert_eq!(m.intersections[1].as_ref().unwrap().polygon.len(), 4);
    check_consistent(&m);
}

#[test]
fn floodfill_respects_the_hop_bound() {
    let (m, _) = InitialMap::build("test".to_string(), &chain(7), &gps(), &bounds(), &two_lanes(7));
    let mut near = ids(&m.floodfill(StableIntersectionID(0), 2));
    near.sort();
    assert_eq!(near, vec![0, 1]);
    assert_eq!(ids(&m.floodfill(StableIntersectionID(0), 0)), vec![0]);
    let mut mid = ids(&m.floodfill(StableIntersectionID(3), 1));
    mid.sort();
    assert_eq!(mid, vec![2, 3]);
}

#[test]
fn far_crossings_are_not_reported() {
    let (mut m, _) = InitialMap::build("test".to_string(), &chain(7), &gps(), &bounds(), &two_lanes(7));
    m.synthesize_polygons();
    let square = vec![
        Pt2D::new(4_000, Y - 500),
        Pt2D::new(6_000, Y - 500),
        Pt2D::new(6_000, Y + 500),
        Pt2D::new(4_000, Y + 500),
    ];
    m.intersections[7].as_mut().unwrap().polygon = square.clone();
    assert!(m.find_anomalies().is_empty());
    m.intersections[2].as_mut().unwrap().polygon = square;
    assert_eq!(
        m.find_anomalies(),
        vec![Diagnostic::Suspicious { road: StableRoadID(0), intersection: StableIntersectionID(2) }]
    );
}

#[test]
fn short_road_is_merged_away() {
    let data = RawMap {
        roads: vec![raw_road(0, 1, &[0, 10_000]), raw_road(1, 2, &[10_000, 10_100]), raw_road(2, 3, &[10_100, 20_100])],
        intersection_count: 4,
    };
    let (mut m, _) = InitialMap::build("test".to_string(), &data, &gps(), &bounds(), &two_lanes(3));
    m.short_roads(200);
    assert!(m.roads[1].is_none());
    assert!(m.intersections[2].is_none());
    assert_eq!(m.intersections.iter().filter(|i| i.is_some()).count(), 3);
    let r2 = m.roads[2].as_ref().unwrap();
    assert_eq!((r2.src_i, r2.dst_i), (StableIntersectionID(1), StableIntersectionID(3)));
    assert_eq!(r2.original_center_pts, vec![Pt2D::new(10_100, Y), Pt2D::new(20_100, Y)]);
    assert_eq!(ids(&m.intersections[1].as_ref().unwrap().roads), vec![0, 2]);
    assert!(m.roads[0].is_some());
    check_consistent(&m);

    let (full, _) = InitialMap::new("full".to_string(), &data, &gps(), &bounds(), &two_lanes(3));
    assert!(full.roads[1].is_none());
    assert_eq!(full.intersections[1].as_ref().unwrap().polygon.len(), 4);
    check_consistent(&full);
}

#[test]
fn parallel_roads_are_not_merged() {
    let data = RawMap {
        roads: vec![raw_road(0, 1, &[0, 100]), raw_road(0, 1, &[0, 50, 100])],
        intersection_count: 2,
    };
    let (mut m, _) = InitialMap::build("test".to_string(), &data, &gps(), &bounds(), &two_lanes(2));
    assert!(!m.merge_road(StableRoadID(0)));
    m.short_roads(10_000);
    assert!(m.roads[0].is_some() && m.roads[1].is_some());
    assert_eq!(m.intersections.iter().filter(|i| i.is_some()).count(), 2);
    check_consistent(&m);
}

#[test]
fn isolated_intersection_and_clean_map() {
    let mut data = chain(2);
    data.intersection_count = 4;
    let (m, diags) = InitialMap::new("test".to_string(), &data, &gps(), &bounds(), &two_lanes(2));
    assert!(diags.is_empty());
    assert!(m.intersections[3].as_ref().unwrap().polygon.is_empty());
    assert!(m.intersections[3].as_ref().unwrap().roads.is_empty());
    assert_eq!(m.name, "test");
    assert_eq!(m.focus_on, None);
    check_consistent(&m);
}

#[test]
fn floodfill_finds_every_road_within_the_bound() {
    let mut to_3 = raw_road(0, 3, &[]);
    to_3.points = vec![LonLat::new(0, 0), LonLat::new(5_000, 5_000)];
    let mut from_3 = raw_road(3, 1, &[]);
    from_3.points = vec![LonLat::new(5_000, 5_000), LonLat::new(10_000, 0)];
    let data = RawMap {
        roads: vec![raw_road(0, 1, &[0, 10_000]), raw_road(1, 2, &[10_000, 20_000]), to_3, from_3],
        intersection_count: 4,
    };
    let (m, _) = InitialMap::build("test".to_string(), &data, &gps(), &bounds(), &two_lanes(4));
    let mut near = ids(&m.floodfill(StableIntersectionID(0), 2));
    near.sort();
    assert_eq!(near, vec![0, 1, 2, 3]);
    let mut first = ids(&m.floodfill(StableIntersectionID(0), 1));
    first.sort();
    assert_eq!(first, vec![0, 2]);
}
