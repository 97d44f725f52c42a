use osm_graph::geom::LonLat;
use osm_graph::multipolygon::{extrude_to_boundary, glue_multipolygon};
use std::collections::BTreeSet;

fn p(lon: i64, lat: i64) -> LonLat {
    LonLat::new(lon, lat)
}

fn point_set(rings: &Vec<Vec<LonLat>>) -> BTreeSet<(i64, i64)> {
    rings.iter().flatten().map(|q| (q.lon, q.lat)).collect()
}

#[test]
fn two_fragments_sharing_one_endpoint_make_one_ring() {
    let (a, b, c, d, e) = (p(0, 0), p(10, 0), p(10, 10), p(0, 10), p(-5, 5));
    let rings = glue_multipolygon(vec![vec![a, b, c], vec![c, d, e]], &vec![]);
    assert_eq!(rings, vec![vec![e, d, c, b, a, e]]);
    let ring = &rings[0];
    assert_eq!(ring.iter().filter(|q| **q == c).count(), 1);
}

#[test]
fn closed_rings_come_out_unchanged_and_first() {
    let closed = vec![p(0, 0), p(5, 0), p(5, 5), p(0, 0)];
    let open = vec![p(100, 100), p(200, 100), p(200, 200)];
    let rings = glue_multipolygon(vec![open.clone(), closed.clone()], &vec![]);
    assert_eq!(rings.len(), 2);
    assert_eq!(rings[0], closed);
    assert_eq!(rings[1], vec![p(100, 100), p(200, 100), p(200, 200), p(100, 100)]);
    let only_closed = glue_multipolygon(vec![closed.clone(), closed.clone()], &vec![]);
    assert_eq!(only_closed, vec![closed.clone(), closed]);
}

#[test]
fn reordered_fragments_give_the_same_points() {
    let f1 = vec![p(0, 0), p(10, 0)];
    let f2 = vec![p(10, 0), p(10, 10)];
    let f3 = vec![p(0, 10), p(10, 10)];
    let r1 = glue_multipolygon(vec![f1.clone(), f2.clone(), f3.clone()], &vec![]);
    let r2 = glue_multipolygon(vec![f3.clone(), f1.clone(), f2.clone()], &vec![]);
    let r3 = glue_multipolygon(vec![f2, f3, f1], &vec![]);
    assert_eq!(r1.len(), 1);
    assert_eq!(point_set(&r1), point_set(&r2));
    assert_eq!(point_set(&r1), point_set(&r3));
    assert_eq!(point_set(&r1).len(), 4);
    for r in [&r1, &r2, &r3] {
        assert_eq!(r[0].first(), r[0].last());
    }
}

#[test]
fn fragments_that_do_not_meet_give_nothing() {
    let rings = glue_multipolygon(
        vec![vec![p(0, 0), p(1, 0)], vec![p(5, 5), p(6, 5)], vec![p(0, 0), p(0, 1), p(0, 0)]],
        &vec![],
    );
    assert!(rings.is_empty());
}

#[test]
fn no_fragments_no_rings() {
    assert!(glue_multipolygon(vec![], &vec![]).is_empty());
}

#[test]
fn clipped_ring_is_closed_by_a_straight_segment() {
    let mut ring = vec![p(0, 0), p(3, 0), p(3, 3)];
    extrude_to_boundary(&vec![p(-10, -10), p(10, -10), p(10, 10)], &mut ring);
    assert_eq!(ring, vec![p(0, 0), p(3, 0), p(3, 3), p(0, 0)]);
    let mut closed = vec![p(0, 0), p(3, 0), p(0, 0)];
    extrude_to_boundary(&vec![], &mut closed);
    assert_eq!(closed, vec![p(0, 0), p(3, 0), p(0, 0)]);
}
