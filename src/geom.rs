//! Points in geographic and planar fixed-point coordinates, and the projection between them.

use vstd::prelude::*;

verus! {

/// A geographic point, in units of 1e-7 degrees.
#[derive(Clone, Copy, Debug, PartialEq, Eq, Structural, Hash)]
pub struct LonLat {
    pub lon: i64,
    pub lat: i64,
}

impl LonLat {
    pub fn new(lon: i64, lat: i64) -> (r: LonLat)
        ensures
            r.lon == lon,
            r.lat == lat,
    {
        LonLat { lon, lat }
    }
}

/// A planar point, in centimeters. `y` grows southward, as on a screen.
#[derive(Clone, Copy, Debug, PartialEq, Eq, Structural, Hash)]
pub struct Pt2D {
    pub x: i64,
    pub y: i64,
}

impl Pt2D {
    pub fn new(x: i64, y: i64) -> (r: Pt2D)
        ensures
            r.x == x,
            r.y == y,
    {
        Pt2D { x, y }
    }
}

/// The largest coordinate magnitude of a geographic point: 180 degrees.
pub const MAX_GPS_COORD: i64 = 1_800_000_000;

/// The largest scale of the planar projection, in centimeters per 0.1 degree.
pub const MAX_SCALE: i64 = 2_000_000;

/// The largest planar coordinate of a projected point, in centimeters.
pub const MAX_PLANAR_COORD: i64 = 7_200_000_000;

/// Geographic units in 0.1 degree, the unit of the projection's scales.
pub const SCALE_UNIT: i64 = 1_000_000;

/// The region that a map covers, and how it is projected onto the plane: an
/// equirectangular projection with the given centimeters per 0.1 degree along each axis.
#[derive(Clone, Copy, Debug, PartialEq, Eq, Structural)]
pub struct GPSBounds {
    pub min_lon: i64,
    pub min_lat: i64,
    pub max_lon: i64,
    pub max_lat: i64,
    pub cm_per_unit_lon: i64,
    pub cm_per_unit_lat: i64,
}

impl GPSBounds {
    pub open spec fn wf(self) -> bool {
        &&& -MAX_GPS_COORD <= self.min_lon <= self.max_lon <= MAX_GPS_COORD
        &&& -MAX_GPS_COORD <= self.min_lat <= self.max_lat <= MAX_GPS_COORD
        &&& 0 <= self.cm_per_unit_lon <= MAX_SCALE
        &&& 0 <= self.cm_per_unit_lat <= MAX_SCALE
    }

    pub open spec fn spec_contains(self, p: LonLat) -> bool {
        self.min_lon <= p.lon <= self.max_lon && self.min_lat <= p.lat <= self.max_lat
    }

    /// The planar position of a point inside the bounds; north is up, so `y` grows
    /// from the northern edge.
    pub open spec fn project(self, p: LonLat) -> Pt2D {
        Pt2D {
            x: ((p.lon - self.min_lon) * self.cm_per_unit_lon / (SCALE_UNIT as int)) as i64,
            y: ((self.max_lat - p.lat) * self.cm_per_unit_lat / (SCALE_UNIT as int)) as i64,
        }
    }

    pub fn contains(&self, p: LonLat) -> (r: bool)
        ensures
            r == self.spec_contains(p),
    {
        self.min_lon <= p.lon && p.lon <= self.max_lon && self.min_lat <= p.lat && p.lat
            <= self.max_lat
    }
}

impl Pt2D {
    /// Projects a geographic point; `None` when it lies outside the bounds.
    pub fn from_gps(gps: LonLat, b: &GPSBounds) -> (r: Option<Pt2D>)
        requires
            b.wf(),
        ensures
            r is Some <==> b.spec_contains(gps),
            r matches Some(p) ==> p == b.project(gps) && 0 <= p.x <= MAX_PLANAR_COORD && 0 <= p.y
                <= MAX_PLANAR_COORD,
    {
        if !b.contains(gps) {
            return None;
        }
        let dx = gps.lon - b.min_lon;
        let dy = b.max_lat - gps.lat;
        assert(0 <= dx * b.cm_per_unit_lon <= 2 * MAX_GPS_COORD * MAX_SCALE) by (nonlinear_arith)
            requires
                0 <= dx <= 2 * MAX_GPS_COORD,
                0 <= b.cm_per_unit_lon <= MAX_SCALE,
        ;
        assert(0 <= dy * b.cm_per_unit_lat <= 2 * MAX_GPS_COORD * MAX_SCALE) by (nonlinear_arith)
            requires
                0 <= dy <= 2 * MAX_GPS_COORD,
                0 <= b.cm_per_unit_lat <= MAX_SCALE,
        ;
        let x = dx * b.cm_per_unit_lon / SCALE_UNIT;
        let y = dy * b.cm_per_unit_lat / SCALE_UNIT;
        assert(x <= MAX_PLANAR_COORD) by (nonlinear_arith)
            requires
                x == (dx * b.cm_per_unit_lon) / 1_000_000int,
                0 <= dx * b.cm_per_unit_lon <= 7_200_000_000_000_000int,
        ;
        assert(y <= MAX_PLANAR_COORD) by (nonlinear_arith)
            requires
                y == (dy * b.cm_per_unit_lat) / 1_000_000int,
                0 <= dy * b.cm_per_unit_lat <= 7_200_000_000_000_000int,
        ;
        Some(Pt2D { x, y })
    }
}

/// A planar bounding box, in centimeters.
#[derive(Clone, Copy, Debug, PartialEq, Eq, Structural)]
pub struct Bounds {
    pub min_x: i64,
    pub min_y: i64,
    pub max_x: i64,
    pub max_y: i64,
}

} // verus!
