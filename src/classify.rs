//! Sorting tags into roads, buildings, areas, or nothing.

use crate::tags::{str_eq, Tags};
use vstd::prelude::*;

verus! {

/// The kinds of open area that are kept.
#[derive(Clone, Copy, Debug, PartialEq, Eq, Structural, Hash)]
pub enum AreaType {
    Park,
    Water,
}

/// The one category that a way or a relation falls into.
#[derive(Clone, Copy, Debug, PartialEq, Eq, Structural, Hash)]
pub enum Feature {
    Road,
    Building,
    Area(AreaType),
    Unclassified,
}

/// `highway` values that are not drivable, or not built. `service` is listed apart,
/// since whether to keep it is a choice (it catches alleys, and loses some minor roads).
pub open spec fn non_car_highway(v: Seq<char>) -> bool {
    v == "footway"@ || v == "living_street"@ || v == "pedestrian"@ || v == "track"@ || v
        == "bus_guideway"@ || v == "escape"@ || v == "raceway"@ || v == "bridleway"@ || v
        == "steps"@ || v == "path"@ || v == "cycleway"@ || v == "proposed"@ || v
        == "construction"@ || v == "abandoned"@ || v == "elevator"@ || v == "planned"@ || v
        == "razed"@
}

pub open spec fn excluded_highway(v: Seq<char>, include_service: bool) -> bool {
    non_car_highway(v) || (!include_service && v == "service"@)
}

pub open spec fn is_road_spec(t: Map<Seq<char>, Seq<char>>, include_service: bool) -> bool {
    t.contains_key("highway"@) && !excluded_highway(t["highway"@], include_service)
}

pub open spec fn is_bldg_spec(t: Map<Seq<char>, Seq<char>>) -> bool {
    t.contains_key("building"@)
}

pub open spec fn tag_is(t: Map<Seq<char>, Seq<char>>, k: Seq<char>, v: Seq<char>) -> bool {
    t.contains_key(k) && t[k] == v
}

pub open spec fn area_type_spec(t: Map<Seq<char>, Seq<char>>) -> Option<AreaType> {
    if tag_is(t, "leisure"@, "park"@) || tag_is(t, "leisure"@, "golf_course"@) || tag_is(
        t,
        "natural"@,
        "wood"@,
    ) || tag_is(t, "landuse"@, "cemetery"@) {
        Some(AreaType::Park)
    } else if tag_is(t, "natural"@, "water"@) {
        Some(AreaType::Water)
    } else {
        None
    }
}

/// The category of a set of tags, by the rules in priority order: road, building, area.
pub open spec fn classify_spec(t: Map<Seq<char>, Seq<char>>) -> Feature {
    if is_road_spec(t, false) {
        Feature::Road
    } else if is_bldg_spec(t) {
        Feature::Building
    } else if let Some(at) = area_type_spec(t) {
        Feature::Area(at)
    } else {
        Feature::Unclassified
    }
}

fn is_non_car_highway(v: &str) -> (r: bool)
    ensures
        r == non_car_highway(v@),
{
    str_eq(v, "footway") || str_eq(v, "living_street") || str_eq(v, "pedestrian") || str_eq(
        v,
        "track",
    ) || str_eq(v, "bus_guideway") || str_eq(v, "escape") || str_eq(v, "raceway") || str_eq(
        v,
        "bridleway",
    ) || str_eq(v, "steps") || str_eq(v, "path") || str_eq(v, "cycleway") || str_eq(
        v,
        "proposed",
    ) || str_eq(v, "construction") || str_eq(v, "abandoned") || str_eq(v, "elevator")
        || str_eq(v, "planned") || str_eq(v, "razed")
}

/// Whether the tags describe a drivable road, with `highway=service` kept or not.
pub fn is_road_with(tags: &Tags, include_service: bool) -> (r: bool)
    ensures
        r == is_road_spec(tags@, include_service),
{
    match tags.get("highway") {
        None => false,
        Some(v) => {
            let v = v.as_str();
            if is_non_car_highway(v) {
                false
            } else if !include_service && str_eq(v, "service") {
                false
            } else {
                true
            }
        },
    }
}

/// Whether the tags describe a drivable road; `highway=service` is left out.
pub fn is_road(tags: &Tags) -> (r: bool)
    ensures
        r == is_road_spec(tags@, false),
{
    is_road_with(tags, false)
}

pub fn is_bldg(tags: &Tags) -> (r: bool)
    ensures
        r == is_bldg_spec(tags@),
{
    tags.contains_key("building")
}

pub fn get_area_type(tags: &Tags) -> (r: Option<AreaType>)
    ensures
        r == area_type_spec(tags@),
{
    if tags.has_value("leisure", "park") {
        return Some(AreaType::Park);
    }
    if tags.has_value("leisure", "golf_course") {
        return Some(AreaType::Park);
    }
    if tags.has_value("natural", "wood") {
        return Some(AreaType::Park);
    }
    if tags.has_value("landuse", "cemetery") {
        return Some(AreaType::Park);
    }
    if tags.has_value("natural", "water") {
        return Some(AreaType::Water);
    }
    None
}

/// The category of a way or a relation. Total: every set of tags gets exactly one.
pub fn classify(tags: &Tags) -> (r: Feature)
    ensures
        r == classify_spec(tags@),
{
    if is_road(tags) {
        Feature::Road
    } else if is_bldg(tags) {
        Feature::Building
    } else {
        match get_area_type(tags) {
            Some(at) => Feature::Area(at),
            None => Feature::Unclassified,
        }
    }
}

/// Classification is a partition: the tags of a road never also read as a building or
/// an area, and a road is exactly what the road rule admits.
pub proof fn lemma_classification_partition(t: Map<Seq<char>, Seq<char>>)
    ensures
        (classify_spec(t) == Feature::Road) <==> is_road_spec(t, false),
        (classify_spec(t) == Feature::Building) <==> (!is_road_spec(t, false) && is_bldg_spec(t)),
        (exists|at: AreaType| classify_spec(t) == Feature::Area(at)) <==> (!is_road_spec(t, false)
            && !is_bldg_spec(t) && area_type_spec(t) is Some),
        is_road_spec(t, false) ==> classify_spec(t) != Feature::Building && !(
        classify_spec(t) is Area),
{
    if !is_road_spec(t, false) && !is_bldg_spec(t) && area_type_spec(t) is Some {
        assert(classify_spec(t) == Feature::Area(area_type_spec(t).unwrap()));
    }
}

/// A way tagged `highway=footway` is never a road.
pub proof fn lemma_footway_not_road(t: Map<Seq<char>, Seq<char>>)
    requires
        tag_is(t, "highway"@, "footway"@),
    ensures
        classify_spec(t) != Feature::Road,
{
}

} // verus!
