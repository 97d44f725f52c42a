//! The document read in, and the roads, buildings and areas taken out of it.

use crate::classify::AreaType;
use crate::geom::LonLat;
use crate::tags::Tags;
use vstd::prelude::*;

verus! {

/// A reference from a relation to one of its members.
#[derive(Clone, Copy, Debug, PartialEq, Eq, Structural, Hash)]
pub enum MemberRef {
    Node(i64),
    Way(i64),
    Relation(i64),
}

/// A member of a relation, with its role (such as "outer").
#[derive(Debug)]
pub struct RawMember {
    pub member: MemberRef,
    pub role: String,
}

/// A way of the source document. A node reference that could not be resolved to a
/// position is `None`; such a way is dropped whole.
#[derive(Debug)]
pub struct RawWay {
    pub id: i64,
    pub nodes: Vec<Option<LonLat>>,
    pub tags: Tags,
}

/// A relation of the source document.
#[derive(Debug)]
pub struct RawRelation {
    pub id: i64,
    pub tags: Tags,
    pub members: Vec<RawMember>,
}

/// A parsed source document: its ways and relations, each list in a fixed order
/// (by ID, so that the output does not depend on how the document was read).
#[derive(Debug)]
pub struct RawDocument {
    pub ways: Vec<RawWay>,
    pub relations: Vec<RawRelation>,
}

/// An intersection handle that stays the same for the whole construction run.
#[derive(Clone, Copy, Debug, PartialEq, Eq, Structural, Hash, PartialOrd, Ord)]
pub struct StableIntersectionID(pub usize);

/// A road handle that stays the same for the whole construction run.
#[derive(Clone, Copy, Debug, PartialEq, Eq, Structural, Hash, PartialOrd, Ord)]
pub struct StableRoadID(pub usize);

/// A road as extracted from the document; its endpoints are resolved later.
#[derive(Debug)]
pub struct Road {
    pub osm_way_id: i64,
    pub points: Vec<LonLat>,
    pub osm_tags: Tags,
    pub i1: StableIntersectionID,
    pub i2: StableIntersectionID,
    pub parking_lane_fwd: bool,
    pub parking_lane_back: bool,
}

#[derive(Debug)]
pub struct Building {
    pub osm_way_id: i64,
    pub points: Vec<LonLat>,
    pub osm_tags: Tags,
    pub num_residential_units: Option<usize>,
}

#[derive(Debug)]
pub struct Area {
    pub area_type: AreaType,
    pub osm_id: i64,
    pub points: Vec<LonLat>,
    pub osm_tags: Tags,
}

/// The roads of a map, each under the ID of its position, and how many intersections it
/// has (their IDs run from zero).
#[derive(Debug)]
pub struct RawMap {
    pub roads: Vec<Road>,
    pub intersection_count: usize,
}

} // verus!
