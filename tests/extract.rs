use osm_graph::classify::AreaType;
use osm_graph::extract::osm_to_raw_roads;
use osm_graph::geom::LonLat;
use osm_graph::raw_data::{MemberRef, RawDocument, RawMember, RawRelation, RawWay, StableIntersectionID};
use osm_graph::tags::Tags;

fn tags(pairs: &[(&str, &str)]) -> Tags {
    let mut t = Tags::new();
    for (k, v) in pairs {
        t.insert(k.to_string(), v.to_string());
    }
    t
}

fn p(lon: i64, lat: i64) -> LonLat {
    LonLat::new(lon, lat)
}

fn way(id: i64, pts: &[LonLat], t: Tags) -> RawWay {
    RawWay { id, nodes: pts.iter().map(|q| Some(*q)).collect(), tags: t }
}

fn outer(id: i64) -> RawMember {
    RawMember { member: MemberRef::Way(id), role: "outer".to_string() }
}

#[test]
fn ways_are_sorted_into_roads_buildings_and_areas() {
    let mut broken = way(4, &[p(0, 0)], tags(&[("highway", "primary")]));
    broken.nodes.push(None);
    let doc = RawDocument {
        ways: vec![
            way(1, &[p(0, 0), p(10, 0)], tags(&[("highway", "primary")])),
            way(2, &[p(0, 0), p(1, 0), p(1, 1), p(0, 0)], tags(&[("building", "yes")])),
            way(3, &[p(5, 5), p(6, 5), p(6, 6), p(5, 5)], tags(&[("leisure", "park")])),
            broken,
            way(5, &[p(0, 0), p(10, 0)], tags(&[("highway", "footway")])),
        ],
        relations: vec![],
    };
    let (roads, buildings, areas) = osm_to_raw_roads(&doc, &vec![]);
    assert_eq!(roads.len(), 1);
    assert_eq!(roads[0].osm_way_id, 1);
    assert_eq!(roads[0].points, vec![p(0, 0), p(10, 0)]);
    assert_eq!(roads[0].i1, StableIntersectionID(0));
    assert!(!roads[0].parking_lane_fwd && !roads[0].parking_lane_back);
    assert_eq!(buildings.len(), 1);
    assert_eq!(buildings[0].osm_way_id, 2);
    assert_eq!(buildings[0].num_residential_units, None);
    assert_eq!(areas.len(), 1);
    assert_eq!(areas[0].area_type, AreaType::Park);
    assert_eq!(areas[0].osm_id, 3);
}

#[test]
fn multipolygon_relations_become_areas() {
    let doc = RawDocument {
        ways: vec![
            way(10, &[p(0, 0), p(10, 0), p(10, 10)], tags(&[])),
            way(11, &[p(10, 10), p(0, 10), p(0, 0)], tags(&[])),
            way(12, &[p(50, 50), p(60, 50)], tags(&[])),
        ],
        relations: vec![
            RawRelation {
                id: 100,
                tags: tags(&[("type", "multipolygon"), ("natural", "water")]),
                members: vec![
                    outer(10),
                    outer(11),
                    outer(999),
                    RawMember { member: MemberRef::Way(12), role: "inner".to_string() },
                ],
            },
            RawRelation {
                id: 101,
                tags: tags(&[("type", "multipolygon"), ("natural", "water")]),
                members: vec![outer(10), RawMember { member: MemberRef::Relation(7), role: "outer".to_string() }],
            },
            RawRelation {
                id: 102,
                tags: tags(&[("natural", "water")]),
                members: vec![outer(10), outer(11)],
            },
        ],
    };
    let (roads, buildings, areas) = osm_to_raw_roads(&doc, &vec![]);
    assert!(roads.is_empty() && buildings.is_empty());
    assert_eq!(areas.len(), 1);
    assert_eq!(areas[0].osm_id, 100);
    assert_eq!(areas[0].area_type, AreaType::Water);
    assert!(areas[0].osm_tags.has_value("natural", "water"));
    assert_eq!(areas[0].points, vec![p(10, 10), p(0, 10), p(0, 0), p(10, 0), p(10, 10)]);
}

#[test]
fn empty_document_gives_nothing() {
    let doc = RawDocument { ways: vec![], relations: vec![] };
    let (roads, buildings, areas) = osm_to_raw_roads(&doc, &vec![]);
    assert!(roads.is_empty() && buildings.is_empty() && areas.is_empty());
}
