//! Extraction of roads, buildings and areas from a whole document.

use crate::classify::{area_type_spec, classify, classify_spec, get_area_type, tag_is, AreaType, Feature};
use crate::multipolygon::glue_spec;
use crate::geom::LonLat;
use crate::multipolygon::{
    all_nonempty, closed_parts, copy_points, glue_multipolygon, glue_outcome, is_closed,
    lemma_parts_contain, open_parts, points_of, rings_view, share_an_end,
};
use crate::raw_data::{
    Area, Building, MemberRef, RawDocument, RawMember, RawRelation, RawWay, Road,
    StableIntersectionID,
};
use crate::tags::str_eq;
use vstd::prelude::*;

verus! {

/// Every node reference of the way was resolved.
pub open spec fn resolved(nodes: Seq<Option<LonLat>>) -> bool {
    forall|i: int| 0 <= i < nodes.len() ==> (#[trigger] nodes[i]) is Some
}

pub open spec fn resolved_points(nodes: Seq<Option<LonLat>>) -> Seq<LonLat> {
    Seq::new(nodes.len(), |i: int| nodes[i]->0)
}

/// Where a usable way goes: areas of every type go together.
pub enum WayKind {
    Road,
    Building,
    Area,
    Unclassified,
}

pub open spec fn same_kind(f: Feature, k: WayKind) -> bool {
    match f {
        Feature::Road => k == WayKind::Road,
        Feature::Building => k == WayKind::Building,
        Feature::Area(_) => k == WayKind::Area,
        Feature::Unclassified => k == WayKind::Unclassified,
    }
}

/// The usable ways whose category is of the given kind, in document order.
pub open spec fn ways_of_kind(ways: Seq<RawWay>, kind: WayKind) -> Seq<RawWay>
    decreases ways.len(),
{
    if ways.len() == 0 {
        Seq::empty()
    } else {
        let rest = ways_of_kind(ways.drop_last(), kind);
        let w = ways.last();
        if resolved(w.nodes@) && same_kind(classify_spec(w.tags@), kind) {
            rest.push(w)
        } else {
            rest
        }
    }
}

pub open spec fn road_from_way(r: Road, w: RawWay) -> bool {
    &&& r.osm_way_id == w.id
    &&& r.points@ == resolved_points(w.nodes@)
    &&& r.osm_tags@ == w.tags@
    &&& r.i1 == StableIntersectionID(0)
    &&& r.i2 == StableIntersectionID(0)
    &&& !r.parking_lane_fwd
    &&& !r.parking_lane_back
}

pub open spec fn building_from_way(b: Building, w: RawWay) -> bool {
    &&& b.osm_way_id == w.id
    &&& b.points@ == resolved_points(w.nodes@)
    &&& b.osm_tags@ == w.tags@
    &&& b.num_residential_units is None
}

pub open spec fn area_from_way(a: Area, w: RawWay) -> bool {
    &&& area_type_spec(w.tags@) == Some(a.area_type)
    &&& a.osm_id == w.id
    &&& a.points@ == resolved_points(w.nodes@)
    &&& a.osm_tags@ == w.tags@
}

/// The points of the last unclassified way with this ID.
pub open spec fn lookup_way(uw: Seq<RawWay>, id: i64) -> Option<Seq<LonLat>>
    decreases uw.len(),
{
    if uw.len() == 0 {
        None
    } else if uw.last().id == id {
        Some(resolved_points(uw.last().nodes@))
    } else {
        lookup_way(uw.drop_last(), id)
    }
}

/// What one member adds: `None` fails the relation, `Some(None)` adds nothing (a way
/// clipped out of the extract, an empty way, or a role other than "outer").
pub open spec fn member_fragment(m: RawMember, uw: Seq<RawWay>) -> Option<Option<Seq<LonLat>>> {
    match m.member {
        MemberRef::Way(id) => match lookup_way(uw, id) {
            Some(p) => if m.role@ == "outer"@ && p.len() > 0 {
                Some(Some(p))
            } else {
                Some(None)
            },
            None => Some(None),
        },
        _ => None,
    }
}

/// The outer fragments of a relation, or `None` when one of its members cannot be used.
pub open spec fn relation_fragments(ms: Seq<RawMember>, uw: Seq<RawWay>) -> Option<
    Seq<Seq<LonLat>>,
>
    decreases ms.len(),
{
    if ms.len() == 0 {
        Some(Seq::empty())
    } else {
        match relation_fragments(ms.drop_last(), uw) {
            Some(fs) => match member_fragment(ms.last(), uw) {
                Some(Some(p)) => Some(fs.push(p)),
                Some(None) => Some(fs),
                None => None,
            },
            None => None,
        }
    }
}

/// A relation that stands for areas: an area type, and `type=multipolygon`.
pub open spec fn multipolygon_area(rel: RawRelation) -> bool {
    area_type_spec(rel.tags@) is Some && tag_is(rel.tags@, "type"@, "multipolygon"@)
}

/// `a` is one of the rings glued from relation `rel`.
pub open spec fn area_from_relation(a: Area, rel: RawRelation, uw: Seq<RawWay>) -> bool {
    &&& multipolygon_area(rel)
    &&& relation_fragments(rel.members@, uw) is Some
    &&& area_type_spec(rel.tags@) == Some(a.area_type)
    &&& a.osm_id == rel.id
    &&& a.osm_tags@ == rel.tags@
    &&& is_closed(a.points@)
    &&& a.points@.to_set().subset_of(points_of(relation_fragments(rel.members@, uw)->0))
}

/// Gluing these fragments is sure to give at least one ring: they are all closed, or
/// one is open, or two are open and have a common end.
pub open spec fn glue_succeeds(f: Seq<Seq<LonLat>>) -> bool {
    (open_parts(f).len() == 0 && f.len() > 0) || open_parts(f).len() == 1 || (open_parts(f).len()
        == 2 && share_an_end(open_parts(f)[0], open_parts(f)[1]))
}

/// A relation that is sure to give at least one area.
pub open spec fn relation_gives_area(rel: RawRelation, uw: Seq<RawWay>) -> bool {
    multipolygon_area(rel) && relation_fragments(rel.members@, uw) is Some && glue_succeeds(
        relation_fragments(rel.members@, uw)->0,
    )
}

/// One of the areas comes from relation `rel`.
pub open spec fn has_area_from(areas: Seq<Area>, from: int, rel: RawRelation, uw: Seq<RawWay>) -> bool {
    exists|k: int| from <= k < areas.len() && area_from_relation(#[trigger] areas[k], rel, uw) && areas[k].osm_id == rel.id
}

/// `a` is one of the rings glued from one of the relations.
pub open spec fn area_from_some_relation(a: Area, rels: Seq<RawRelation>, uw: Seq<RawWay>) -> bool {
    exists|j: int| 0 <= j < rels.len() && area_from_relation(a, rels[j], uw)
}

/// The positions of a way's nodes, when every reference resolved.
fn resolve_nodes(nodes: &Vec<Option<LonLat>>) -> (r: Option<Vec<LonLat>>)
    ensures
        r is Some <==> resolved(nodes@),
        r matches Some(p) ==> p@ == resolved_points(nodes@),
{
    let mut pts: Vec<LonLat> = Vec::new();
    let mut i: usize = 0;
    while i < nodes.len()
        invariant
            i <= nodes@.len(),
            pts@ == resolved_points(nodes@.take(i as int)),
            forall|j: int| 0 <= j < i ==> (#[trigger] nodes@[j]) is Some,
        decreases nodes@.len() - i,
    {
        match nodes[i] {
            Some(p) => pts.push(p),
            None => {
                return None;
            },
        }
        i = i + 1;
        assert(pts@ =~= resolved_points(nodes@.take(i as int)));
    }
    assert(nodes@.take(i as int) =~= nodes@);
    Some(pts)
}

/// The points of the last entry of `table` with this ID.
fn lookup_table(table: &Vec<(i64, Vec<LonLat>)>, id: i64, uw: Ghost<Seq<RawWay>>) -> (r: Option<
    &Vec<LonLat>,
>)
    requires
        table@.len() == uw@.len(),
        forall|k: int|
            0 <= k < table@.len() ==> (#[trigger] table@[k]).0 == uw@[k].id && table@[k].1@
                == resolved_points(uw@[k].nodes@),
    ensures
        r is Some <==> lookup_way(uw@, id) is Some,
        r matches Some(p) ==> p@ == lookup_way(uw@, id)->0,
{
    let mut i: usize = table.len();
    assert(uw@.take(i as int) =~= uw@);
    while i > 0
        invariant
            i <= table@.len(),
            table@.len() == uw@.len(),
            forall|k: int|
                0 <= k < table@.len() ==> (#[trigger] table@[k]).0 == uw@[k].id && table@[k].1@
                    == resolved_points(uw@[k].nodes@),
            lookup_way(uw@, id) == lookup_way(uw@.take(i as int), id),
        decreases i,
    {
        assert(uw@.take(i as int).drop_last() =~= uw@.take(i - 1));
        assert(uw@.take(i as int).last() == uw@[i - 1]);
        if table[i - 1].0 == id {
            return Some(&table[i - 1].1);
        }
        i = i - 1;
    }
    None
}

/// The outer fragments of a relation, resolved against the unclassified ways.
fn gather_fragments(rel: &RawRelation, table: &Vec<(i64, Vec<LonLat>)>, uw: Ghost<Seq<RawWay>>) -> (r:
    Option<Vec<Vec<LonLat>>>)
    requires
        table@.len() == uw@.len(),
        forall|k: int|
            0 <= k < table@.len() ==> (#[trigger] table@[k]).0 == uw@[k].id && table@[k].1@
                == resolved_points(uw@[k].nodes@),
    ensures
        r is Some <==> relation_fragments(rel.members@, uw@) is Some,
        r matches Some(f) ==> rings_view(f@) == relation_fragments(rel.members@, uw@)->0,
{
    let mut ok = true;
    let mut frags: Vec<Vec<LonLat>> = Vec::new();
    let mut i: usize = 0;
    while i < rel.members.len()
        invariant
            i <= rel.members@.len(),
            table@.len() == uw@.len(),
            forall|k: int|
                0 <= k < table@.len() ==> (#[trigger] table@[k]).0 == uw@[k].id && table@[k].1@
                    == resolved_points(uw@[k].nodes@),
            ok <==> relation_fragments(rel.members@.take(i as int), uw@) is Some,
            ok ==> rings_view(frags@) == relation_fragments(rel.members@.take(i as int), uw@)->0,
        decreases rel.members@.len() - i,
    {
        let m = &rel.members[i];
        assert(rel.members@.take(i + 1).drop_last() =~= rel.members@.take(i as int));
        assert(rel.members@.take(i + 1).last() == *m);
        let ghost fv = frags@;
        match m.member {
            MemberRef::Way(id) => {
                match lookup_table(table, id, uw) {
                    Some(pts) => {
                        if str_eq(m.role.as_str(), "outer") && pts.len() > 0 {
                            frags.push(copy_points(pts));
                            assert(rings_view(frags@) =~= rings_view(fv).push(frags@.last()@));
                        }
                    },
                    None => {},
                }
            },
            _ => {
                ok = false;
            },
        }
        i = i + 1;
    }
    assert(rel.members@.take(i as int) =~= rel.members@);
    if ok {
        Some(frags)
    } else {
        None
    }
}

proof fn lemma_fragments_nonempty(ms: Seq<RawMember>, uw: Seq<RawWay>)
    requires
        relation_fragments(ms, uw) is Some,
    ensures
        all_nonempty(relation_fragments(ms, uw)->0),
    decreases ms.len(),
{
    if ms.len() > 0 {
        lemma_fragments_nonempty(ms.drop_last(), uw);
    }
}

/// What an area holds, as values.
pub open spec fn area_view(a: Area) -> (AreaType, i64, Seq<LonLat>, Map<Seq<char>, Seq<char>>) {
    (a.area_type, a.osm_id, a.points@, a.osm_tags@)
}

/// The rings that a relation stands for: those glued from its outer fragments, when it
/// is a multipolygon area whose members can all be used.
pub open spec fn relation_rings(rel: RawRelation, uw: Seq<RawWay>) -> Seq<Seq<LonLat>> {
    if multipolygon_area(rel) && relation_fragments(rel.members@, uw) is Some {
        glue_spec(relation_fragments(rel.members@, uw)->0)
    } else {
        Seq::empty()
    }
}

/// The areas of one relation: one per ring, in ring order.
pub open spec fn relation_area_views(rel: RawRelation, uw: Seq<RawWay>) -> Seq<
    (AreaType, i64, Seq<LonLat>, Map<Seq<char>, Seq<char>>),
> {
    let rings = relation_rings(rel, uw);
    Seq::new(rings.len(), |k: int| (area_type_spec(rel.tags@)->0, rel.id, rings[k], rel.tags@))
}

/// The areas of the relations, relation by relation, in order.
pub open spec fn relations_area_views(rels: Seq<RawRelation>, uw: Seq<RawWay>) -> Seq<
    (AreaType, i64, Seq<LonLat>, Map<Seq<char>, Seq<char>>),
>
    decreases rels.len(),
{
    if rels.len() == 0 {
        Seq::empty()
    } else {
        relations_area_views(rels.drop_last(), uw) + relation_area_views(rels.last(), uw)
    }
}

/// The areas that one relation stands for: one per ring glued from its outer fragments.
fn relation_areas(
    rel: &RawRelation,
    table: &Vec<(i64, Vec<LonLat>)>,
    uw: Ghost<Seq<RawWay>>,
    boundary_polygon: &Vec<LonLat>,
) -> (r: Vec<Area>)
    requires
        table@.len() == uw@.len(),
        forall|k: int|
            0 <= k < table@.len() ==> (#[trigger] table@[k]).0 == uw@[k].id && table@[k].1@
                == resolved_points(uw@[k].nodes@),
    ensures
        forall|k: int| 0 <= k < r@.len() ==> area_from_relation(#[trigger] r@[k], *rel, uw@),
        !(multipolygon_area(*rel) && relation_fragments(rel.members@, uw@) is Some) ==> r@.len()
            == 0,
        relation_gives_area(*rel, uw@) ==> r@.len() > 0,
        r@.len() == relation_area_views(*rel, uw@).len(),
        forall|k: int| 0 <= k < r@.len() ==> area_view(#[trigger] r@[k]) == relation_area_views(*rel, uw@)[k],
{
    let mut areas: Vec<Area> = Vec::new();
    let at = match get_area_type(&rel.tags) {
        Some(at) => at,
        None => {
            return areas;
        },
    };
    if !rel.tags.has_value("type", "multipolygon") {
        return areas;
    }
    let frags = match gather_fragments(rel, table, uw) {
        Some(f) => f,
        None => {
            return areas;
        },
    };
    let ghost fv = rings_view(frags@);
    proof {
        lemma_fragments_nonempty(rel.members@, uw@);
    }
    let polygons = glue_multipolygon(frags, boundary_polygon);
    let ghost rings = rings_view(polygons@);
    proof {
        if open_parts(fv).len() == 0 && fv.len() > 0 {
            lemma_parts_contain(fv);
            assert(fv.contains(fv[0]));
            assert(is_closed(fv[0])) by {
                if !is_closed(fv[0]) {
                    assert(open_parts(fv).contains(fv[0]));
                }
            }
            assert(closed_parts(fv).contains(fv[0]));
        }
    }
    assert(rings == relation_rings(*rel, uw@));
    let mut k: usize = 0;
    while k < polygons.len()
        invariant
            k <= polygons@.len(),
            rings == rings_view(polygons@),
            glue_outcome(fv, rings),
            fv == relation_fragments(rel.members@, uw@)->0,
            relation_fragments(rel.members@, uw@) is Some,
            multipolygon_area(*rel),
            area_type_spec(rel.tags@) == Some(at),
            areas@.len() == k,
            forall|j: int| 0 <= j < k ==> area_from_relation(#[trigger] areas@[j], *rel, uw@),
            rings == relation_rings(*rel, uw@),
            forall|j: int| 0 <= j < k ==> area_view(#[trigger] areas@[j]) == relation_area_views(*rel, uw@)[j],
        decreases polygons@.len() - k,
    {
        let points = copy_points(&polygons[k]);
        proof {
            assert(rings.contains(rings[k as int]));
            assert forall|p: LonLat| points@.to_set().contains(p) implies points_of(fv).contains(
                p,
            ) by {
                assert(points_of(rings).contains(p));
            }
            assert(is_closed(rings[k as int]));
        }
        areas.push(Area { area_type: at, osm_id: rel.id, points, osm_tags: rel.tags.copied() });
        k = k + 1;
    }
    assert(areas@.len() == relation_area_views(*rel, uw@).len());
    areas
}

/// Sorts the ways and relations of a document into roads, buildings and areas.
///
/// Ways come first, in order: a way with an unresolved node reference is dropped, and
/// each other way becomes a road, a building, an area, or is kept aside for the
/// relations. Then each multipolygon relation that describes an area is glued from its
/// outer ways into closed rings, one area each.
pub fn osm_to_raw_roads(doc: &RawDocument, boundary_polygon: &Vec<LonLat>) -> (r: (
    Vec<Road>,
    Vec<Building>,
    Vec<Area>,
))
    ensures
        ({
            let (roads, buildings, areas) = r;
            let rw = ways_of_kind(doc.ways@, WayKind::Road);
            let bw = ways_of_kind(doc.ways@, WayKind::Building);
            let aw = ways_of_kind(doc.ways@, WayKind::Area);
            let uw = ways_of_kind(doc.ways@, WayKind::Unclassified);
            &&& roads@.len() == rw.len()
            &&& forall|k: int| 0 <= k < rw.len() ==> road_from_way(#[trigger] roads@[k], rw[k])
            &&& buildings@.len() == bw.len()
            &&& forall|k: int|
                0 <= k < bw.len() ==> building_from_way(#[trigger] buildings@[k], bw[k])
            &&& areas@.len() >= aw.len()
            &&& forall|k: int| 0 <= k < aw.len() ==> area_from_way(#[trigger] areas@[k], aw[k])
            &&& forall|k: int|
                aw.len() <= k < areas@.len() ==> area_from_some_relation(
                    #[trigger] areas@[k],
                    doc.relations@,
                    uw,
                )
            &&& forall|j: int|
                0 <= j < doc.relations@.len() && relation_gives_area(#[trigger] doc.relations@[j], uw)
                    ==> has_area_from(areas@, aw.len() as int, doc.relations@[j], uw)
            &&& areas@.len() == aw.len() + relations_area_views(doc.relations@, uw).len()
            &&& forall|k: int|
                0 <= k < relations_area_views(doc.relations@, uw).len() ==> area_view(
                    #[trigger] areas@[aw.len() + k],
                ) == relations_area_views(doc.relations@, uw)[k]
        }),
{
    let ghost ways = doc.ways@;
    let mut roads: Vec<Road> = Vec::new();
    let mut buildings: Vec<Building> = Vec::new();
    let mut areas: Vec<Area> = Vec::new();
    let mut table: Vec<(i64, Vec<LonLat>)> = Vec::new();
    let mut i: usize = 0;
    while i < doc.ways.len()
        invariant
            i <= ways.len(),
            ways == doc.ways@,
            ({
                let rw = ways_of_kind(ways.take(i as int), WayKind::Road);
                let bw = ways_of_kind(ways.take(i as int), WayKind::Building);
                let aw = ways_of_kind(ways.take(i as int), WayKind::Area);
                let uw = ways_of_kind(ways.take(i as int), WayKind::Unclassified);
                &&& roads@.len() == rw.len()
                &&& forall|k: int| 0 <= k < rw.len() ==> road_from_way(#[trigger] roads@[k], rw[k])
                &&& buildings@.len() == bw.len()
                &&& forall|k: int|
                    0 <= k < bw.len() ==> building_from_way(#[trigger] buildings@[k], bw[k])
                &&& areas@.len() == aw.len()
                &&& forall|k: int|
                    0 <= k < aw.len() ==> area_from_way(#[trigger] areas@[k], aw[k])
                &&& table@.len() == uw.len()
                &&& forall|k: int|
                    0 <= k < table@.len() ==> (#[trigger] table@[k]).0 == uw[k].id && table@[k].1@
                        == resolved_points(uw[k].nodes@)
            }),
        decreases ways.len() - i,
    {
        let way = &doc.ways[i];
        let ghost prev = ways.take(i as int);
        assert(ways.take(i + 1).drop_last() =~= prev);
        assert(ways.take(i + 1).last() == *way);
        let pts = match resolve_nodes(&way.nodes) {
            Some(p) => p,
            None => {
                i = i + 1;
                continue;
            },
        };
        let tags = way.tags.copied();
        match classify(&way.tags) {
            Feature::Road => {
                roads.push(
                    Road {
                        osm_way_id: way.id,
                        points: pts,
                        osm_tags: tags,
                        i1: StableIntersectionID(0),
                        i2: StableIntersectionID(0),
                        parking_lane_fwd: false,
                        parking_lane_back: false,
                    },
                );
            },
            Feature::Building => {
                buildings.push(
                    Building {
                        osm_way_id: way.id,
                        points: pts,
                        osm_tags: tags,
                        num_residential_units: None,
                    },
                );
            },
            Feature::Area(at) => {
                areas.push(Area { area_type: at, osm_id: way.id, points: pts, osm_tags: tags });
            },
            Feature::Unclassified => {
                table.push((way.id, pts));
            },
        }
        i = i + 1;
    }
    assert(ways.take(i as int) =~= ways);
    let ghost uw = ways_of_kind(ways, WayKind::Unclassified);
    let ghost n_way_areas = areas@.len();
    let mut j: usize = 0;
    while j < doc.relations.len()
        invariant
            j <= doc.relations@.len(),
            ways == doc.ways@,
            uw == ways_of_kind(ways, WayKind::Unclassified),
            table@.len() == uw.len(),
            forall|k: int|
                0 <= k < table@.len() ==> (#[trigger] table@[k]).0 == uw[k].id && table@[k].1@
                    == resolved_points(uw[k].nodes@),
            n_way_areas == ways_of_kind(ways, WayKind::Area).len(),
            roads@.len() == ways_of_kind(ways, WayKind::Road).len(),
            forall|k: int|
                0 <= k < roads@.len() ==> road_from_way(
                    #[trigger] roads@[k],
                    ways_of_kind(ways, WayKind::Road)[k],
                ),
            buildings@.len() == ways_of_kind(ways, WayKind::Building).len(),
            forall|k: int|
                0 <= k < buildings@.len() ==> building_from_way(
                    #[trigger] buildings@[k],
                    ways_of_kind(ways, WayKind::Building)[k],
                ),
            areas@.len() >= n_way_areas,
            forall|k: int|
                0 <= k < n_way_areas ==> area_from_way(
                    #[trigger] areas@[k],
                    ways_of_kind(ways, WayKind::Area)[k],
                ),
            forall|k: int|
                n_way_areas <= k < areas@.len() ==> area_from_some_relation(
                    #[trigger] areas@[k],
                    doc.relations@,
                    uw,
                ),
            forall|jj: int|
                0 <= jj < j && relation_gives_area(#[trigger] doc.relations@[jj], uw)
                    ==> has_area_from(areas@, n_way_areas as int, doc.relations@[jj], uw),
            areas@.len() == n_way_areas + relations_area_views(doc.relations@.take(j as int), uw).len(),
            forall|k: int|
                0 <= k < relations_area_views(doc.relations@.take(j as int), uw).len() ==> area_view(
                    #[trigger] areas@[n_way_areas + k],
                ) == relations_area_views(doc.relations@.take(j as int), uw)[k],
        decreases doc.relations@.len() - j,
    {
        let rel = &doc.relations[j];
        let mut more = relation_areas(rel, &table, Ghost(uw), boundary_polygon);
        let ghost before = areas@;
        let ghost added = more@;
        areas.append(&mut more);
        proof {
            assert forall|k: int| 0 <= k < n_way_areas implies area_from_way(
                #[trigger] areas@[k],
                ways_of_kind(ways, WayKind::Area)[k],
            ) by {
                assert(areas@[k] == before[k]);
            }
            assert forall|k: int| n_way_areas <= k < areas@.len() implies area_from_some_relation(
                #[trigger] areas@[k],
                doc.relations@,
                uw,
            ) by {
                if k < before.len() {
                    assert(areas@[k] == before[k]);
                } else {
                    assert(areas@[k] == added[k - before.len()]);
                    assert(area_from_relation(added[k - before.len()], doc.relations@[j as int], uw));
                }
            }
            assert forall|jj: int|
                0 <= jj < j + 1 && relation_gives_area(#[trigger] doc.relations@[jj], uw)
                    implies has_area_from(areas@, n_way_areas as int, doc.relations@[jj], uw) by {
                if jj < j {
                    let k = choose|k: int| n_way_areas <= k < before.len() && area_from_relation(#[trigger] before[k], doc.relations@[jj], uw) && before[k].osm_id == doc.relations@[jj].id;
                    assert(areas@[k] == before[k]);
                } else {
                    assert(areas@[before.len() as int] == added[0]);
                    assert(area_from_relation(added[0], doc.relations@[j as int], uw));
                }
            }
        }
        proof {
            let rs = doc.relations@;
            assert(rs.take(j + 1).drop_last() =~= rs.take(j as int));
            assert(rs.take(j + 1).last() == rs[j as int]);
            let pv = relations_area_views(rs.take(j as int), uw);
            let nv = relations_area_views(rs.take(j + 1), uw);
            assert(nv == pv + relation_area_views(rs[j as int], uw));
            assert forall|k: int| 0 <= k < nv.len() implies area_view(#[trigger] areas@[n_way_areas + k]) == nv[k] by {
                if k < pv.len() {
                    assert(areas@[n_way_areas + k] == before[n_way_areas + k]);
                } else {
                    assert(areas@[n_way_areas + k] == added[k - pv.len()]);
                }
            }
        }
        j = j + 1;
    }
    assert(doc.relations@.take(j as int) =~= doc.relations@);
    (roads, buildings, areas)
}

} // verus!
