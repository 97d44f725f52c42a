use osm_graph::classify::{classify, get_area_type, is_bldg, is_road, is_road_with, AreaType, Feature};
use osm_graph::tags::Tags;

fn tags(pairs: &[(&str, &str)]) -> Tags {
    let mut t = Tags::new();
    for (k, v) in pairs {
        t.insert(k.to_string(), v.to_string());
    }
    t
}

#[test]
fn footway_is_not_a_road() {
    let t = tags(&[("highway", "footway")]);
    assert!(!is_road(&t));
    assert_ne!(classify(&t), Feature::Road);
}

#[test]
fn drivable_highway_is_a_road() {
    assert_eq!(classify(&tags(&[("highway", "residential")])), Feature::Road);
    assert!(is_road(&tags(&[("highway", "primary"), ("name", "Main")])));
}

#[test]
fn service_roads_are_a_choice() {
    let t = tags(&[("highway", "service")]);
    assert!(!is_road(&t));
    assert!(is_road_with(&t, true));
    assert!(!is_road_with(&tags(&[("highway", "steps")]), true));
}

#[test]
fn road_wins_over_building_and_area() {
    let t = tags(&[("highway", "primary"), ("building", "yes"), ("leisure", "park")]);
    assert_eq!(classify(&t), Feature::Road);
}

#[test]
fn buildings_and_areas() {
    assert!(is_bldg(&tags(&[("building", "house")])));
    assert_eq!(classify(&tags(&[("building", "yes"), ("leisure", "park")])), Feature::Building);
    assert_eq!(get_area_type(&tags(&[("leisure", "park")])), Some(AreaType::Park));
    assert_eq!(get_area_type(&tags(&[("leisure", "golf_course")])), Some(AreaType::Park));
    assert_eq!(get_area_type(&tags(&[("natural", "wood")])), Some(AreaType::Park));
    assert_eq!(get_area_type(&tags(&[("landuse", "cemetery")])), Some(AreaType::Park));
    assert_eq!(classify(&tags(&[("natural", "water")])), Feature::Area(AreaType::Water));
    assert_eq!(get_area_type(&tags(&[("natural", "rock")])), None);
}

#[test]
fn everything_else_is_unclassified() {
    assert_eq!(classify(&tags(&[])), Feature::Unclassified);
    assert_eq!(classify(&tags(&[("highway", "path"), ("name", "x")])), Feature::Unclassified);
}

#[test]
fn tags_insert_replace_remove() {
    let mut t = tags(&[("a", "1"), ("b", "2")]);
    assert_eq!(t.get("a").map(|s| s.as_str()), Some("1"));
    t.insert("a".to_string(), "3".to_string());
    assert_eq!(t.get("a").map(|s| s.as_str()), Some("3"));
    assert!(t.has_value("b", "2"));
    assert_eq!(t.remove("b"), Some("2".to_string()));
    assert!(!t.contains_key("b"));
    assert_eq!(t.remove("b"), None);
    assert!(!t.is_empty());
}
