//! The geometry model: shape-type tags, points, and the fourteen shape kinds.
use vstd::prelude::*;

verus! {

/// The shape-type tag of a record or of a whole file.
#[derive(Debug, Clone, Copy, PartialEq, Eq, Structural)]
pub enum ShapeType {
    NullShape,
    Point,
    Polyline,
    Polygon,
    Multipoint,
    PointZ,
    PolylineZ,
    PolygonZ,
    MultipointZ,
    PointM,
    PolylineM,
    PolygonM,
    MultipointM,
    Multipatch,
}

/// The 32-bit code of a shape type in a file.
pub open spec fn spec_code(t: ShapeType) -> i32 {
    match t {
        ShapeType::NullShape => 0,
        ShapeType::Point => 1,
        ShapeType::Polyline => 3,
        ShapeType::Polygon => 5,
        ShapeType::Multipoint => 8,
        ShapeType::PointZ => 11,
        ShapeType::PolylineZ => 13,
        ShapeType::PolygonZ => 15,
        ShapeType::MultipointZ => 18,
        ShapeType::PointM => 21,
        ShapeType::PolylineM => 23,
        ShapeType::PolygonM => 25,
        ShapeType::MultipointM => 28,
        ShapeType::Multipatch => 31,
    }
}

/// Kinds made of a single point.
pub open spec fn is_single(t: ShapeType) -> bool {
    t == ShapeType::Point || t == ShapeType::PointM || t == ShapeType::PointZ
}

/// Kinds made of a point count and points, without parts.
pub open spec fn is_multipoint(t: ShapeType) -> bool {
    t == ShapeType::Multipoint || t == ShapeType::MultipointM || t == ShapeType::MultipointZ
}

/// Kinds whose points are split into parts.
pub open spec fn is_multipart(t: ShapeType) -> bool {
    !is_single(t) && !is_multipoint(t) && t != ShapeType::NullShape
}

/// Kinds that carry a z value per point.
pub open spec fn has_z(t: ShapeType) -> bool {
    t == ShapeType::PointZ || t == ShapeType::PolylineZ || t == ShapeType::PolygonZ
        || t == ShapeType::MultipointZ || t == ShapeType::Multipatch
}

/// Kinds that carry a measure per point (all the z kinds carry one too).
pub open spec fn has_m(t: ShapeType) -> bool {
    has_z(t) || t == ShapeType::PointM || t == ShapeType::PolylineM || t == ShapeType::PolygonM
        || t == ShapeType::MultipointM
}

pub proof fn lemma_code_injective(a: ShapeType, b: ShapeType)
    requires
        spec_code(a) == spec_code(b),
    ensures
        a == b,
{
    match a {
        ShapeType::NullShape => {},
        ShapeType::Point => {},
        ShapeType::Polyline => {},
        ShapeType::Polygon => {},
        ShapeType::Multipoint => {},
        ShapeType::PointZ => {},
        ShapeType::PolylineZ => {},
        ShapeType::PolygonZ => {},
        ShapeType::MultipointZ => {},
        ShapeType::PointM => {},
        ShapeType::PolylineM => {},
        ShapeType::PolygonM => {},
        ShapeType::MultipointM => {},
        ShapeType::Multipatch => {},
    }
}

impl ShapeType {
    /// The 32-bit code of this shape type.
    pub fn code(&self) -> (r: i32)
        ensures
            r == spec_code(*self),
    {
        match self {
            ShapeType::NullShape => 0,
            ShapeType::Point => 1,
            ShapeType::Polyline => 3,
            ShapeType::Polygon => 5,
            ShapeType::Multipoint => 8,
            ShapeType::PointZ => 11,
            ShapeType::PolylineZ => 13,
            ShapeType::PolygonZ => 15,
            ShapeType::MultipointZ => 18,
            ShapeType::PointM => 21,
            ShapeType::PolylineM => 23,
            ShapeType::PolygonM => 25,
            ShapeType::MultipointM => 28,
            ShapeType::Multipatch => 31,
        }
    }

    /// The shape type with the given code, if any.
    pub fn from_code(c: i32) -> (r: Option<ShapeType>)
        ensures
            match r {
                Some(t) => spec_code(t) == c,
                None => forall|t: ShapeType| spec_code(t) != c,
            },
    {
        match c {
            0 => Some(ShapeType::NullShape),
            1 => Some(ShapeType::Point),
            3 => Some(ShapeType::Polyline),
            5 => Some(ShapeType::Polygon),
            8 => Some(ShapeType::Multipoint),
            11 => Some(ShapeType::PointZ),
            13 => Some(ShapeType::PolylineZ),
            15 => Some(ShapeType::PolygonZ),
            18 => Some(ShapeType::MultipointZ),
            21 => Some(ShapeType::PointM),
            23 => Some(ShapeType::PolylineM),
            25 => Some(ShapeType::PolygonM),
            28 => Some(ShapeType::MultipointM),
            31 => Some(ShapeType::Multipatch),
            _ => None,
        }
    }

    pub fn is_single(&self) -> (r: bool)
        ensures
            r == is_single(*self),
    {
        matches!(self, ShapeType::Point | ShapeType::PointM | ShapeType::PointZ)
    }

    pub fn is_multipoint(&self) -> (r: bool)
        ensures
            r == is_multipoint(*self),
    {
        matches!(self, ShapeType::Multipoint | ShapeType::MultipointM | ShapeType::MultipointZ)
    }

    pub fn has_z(&self) -> (r: bool)
        ensures
            r == has_z(*self),
    {
        matches!(
            self,
            ShapeType::PointZ | ShapeType::PolylineZ | ShapeType::PolygonZ | ShapeType::MultipointZ
                | ShapeType::Multipatch
        )
    }

    pub fn has_m(&self) -> (r: bool)
        ensures
            r == has_m(*self),
    {
        self.has_z() || matches!(
            self,
            ShapeType::PointM | ShapeType::PolylineM | ShapeType::PolygonM | ShapeType::MultipointM
        )
    }
}

/// Kind of a multipatch part.
#[derive(Debug, Clone, Copy, PartialEq, Eq, Structural)]
pub enum PatchType {
    TriangleStrip,
    TriangleFan,
    OuterRing,
    InnerRing,
    FirstRing,
    Ring,
}

pub open spec fn spec_patch_code(p: PatchType) -> i32 {
    match p {
        PatchType::TriangleStrip => 0,
        PatchType::TriangleFan => 1,
        PatchType::OuterRing => 2,
        PatchType::InnerRing => 3,
        PatchType::FirstRing => 4,
        PatchType::Ring => 5,
    }
}

impl PatchType {
    pub fn code(&self) -> (r: i32)
        ensures
            r == spec_patch_code(*self),
    {
        match self {
            PatchType::TriangleStrip => 0,
            PatchType::TriangleFan => 1,
            PatchType::OuterRing => 2,
            PatchType::InnerRing => 3,
            PatchType::FirstRing => 4,
            PatchType::Ring => 5,
        }
    }

    pub fn from_code(c: i32) -> (r: Option<PatchType>)
        ensures
            match r {
                Some(p) => spec_patch_code(p) == c,
                None => forall|p: PatchType| spec_patch_code(p) != c,
            },
    {
        match c {
            0 => Some(PatchType::TriangleStrip),
            1 => Some(PatchType::TriangleFan),
            2 => Some(PatchType::OuterRing),
            3 => Some(PatchType::InnerRing),
            4 => Some(PatchType::FirstRing),
            5 => Some(PatchType::Ring),
            _ => None,
        }
    }
}

/// A 2D point; coordinates are the bit patterns of doubles.
#[derive(Debug, Clone, Copy, PartialEq, Eq, Structural)]
pub struct Point {
    pub x: u64,
    pub y: u64,
}

/// A 2D point with a measure.
#[derive(Debug, Clone, Copy, PartialEq, Eq, Structural)]
pub struct PointM {
    pub x: u64,
    pub y: u64,
    pub m: u64,
}

/// A 3D point with a measure.
#[derive(Debug, Clone, Copy, PartialEq, Eq, Structural)]
pub struct PointZ {
    pub x: u64,
    pub y: u64,
    pub z: u64,
    pub m: u64,
}

/// A 2D bounding box.
#[derive(Debug, Clone, Copy, PartialEq, Eq, Structural)]
pub struct BBox {
    pub xmin: u64,
    pub ymin: u64,
    pub xmax: u64,
    pub ymax: u64,
}

/// A `[min, max]` pair of doubles.
#[derive(Debug, Clone, Copy, PartialEq, Eq, Structural)]
pub struct Extent {
    pub min: u64,
    pub max: u64,
}

} // verus!

verus! {

/// The body of every shape kind made of several points. Which columns
/// are used depends on the kind (see `Model::wf`).
#[derive(Debug, Clone, PartialEq)]
pub struct Geometry {
    pub bbox: BBox,
    pub z_range: Extent,
    pub m_range: Extent,
    /// Index of the first point of each part.
    pub parts: Vec<i32>,
    /// Kind of each part (multipatches only).
    pub part_types: Vec<PatchType>,
    pub points: Vec<Point>,
    /// One z value per point (z kinds only).
    pub zs: Vec<u64>,
    /// One measure per point (m and z kinds only; a multipoint z may leave
    /// it empty, every measure then missing).
    pub ms: Vec<u64>,
}

/// A shape: a tagged sum over the fourteen kinds.
#[derive(Debug, Clone, PartialEq)]
pub enum Shape {
    NullShape,
    Point(Point),
    PointM(PointM),
    PointZ(PointZ),
    Multipoint(Geometry),
    MultipointM(Geometry),
    MultipointZ(Geometry),
    Polyline(Geometry),
    Polygon(Geometry),
    PolylineM(Geometry),
    PolygonM(Geometry),
    PolylineZ(Geometry),
    PolygonZ(Geometry),
    Multipatch(Geometry),
}

/// Mathematical model of a shape: its kind and its columns.
pub struct Model {
    pub kind: ShapeType,
    pub bbox: BBox,
    pub z_range: Extent,
    pub m_range: Extent,
    pub parts: Seq<i32>,
    pub part_types: Seq<PatchType>,
    pub points: Seq<Point>,
    pub zs: Seq<u64>,
    pub ms: Seq<u64>,
}

/// The shape carries its measures. A multipoint z with points but an
/// empty m column is the form without the m trailer: every measure is
/// missing.
pub open spec fn measured(m: Model) -> bool {
    has_m(m.kind) && m.ms.len() == m.points.len()
}

pub open spec fn zero_bbox() -> BBox {
    BBox { xmin: 0, ymin: 0, xmax: 0, ymax: 0 }
}

pub open spec fn zero_extent() -> Extent {
    Extent { min: 0, max: 0 }
}

/// Part starts are valid for `n` points: at least one part, the first at 0,
/// strictly increasing, the last below `n`.
pub open spec fn parts_valid(parts: Seq<i32>, n: int) -> bool {
    &&& parts.len() >= 1
    &&& parts[0] == 0
    &&& forall|i: int, j: int| 0 <= i < j < parts.len() ==> parts[i] < parts[j]
    &&& parts[parts.len() - 1] < n
}

impl Model {
    pub open spec fn wf(self) -> bool {
        let t = self.kind;
        let n = self.points.len();
        &&& n <= i32::MAX
        &&& self.parts.len() <= i32::MAX
        &&& self.zs.len() == (if has_z(t) { n } else { 0 })
        &&& self.ms.len() == (if has_m(t) { n } else { 0 }) || (t == ShapeType::MultipointZ && n > 0
            && self.ms.len() == 0)
        &&& !has_z(t) ==> self.z_range == zero_extent()
        &&& !measured(self) ==> self.m_range == zero_extent()
        &&& (t == ShapeType::NullShape ==> n == 0)
        &&& (t == ShapeType::NullShape || is_single(t)) ==> {
            &&& self.bbox == zero_bbox()
            &&& self.z_range == zero_extent()
            &&& self.m_range == zero_extent()
        }
        &&& is_single(t) ==> n == 1
        &&& !is_multipart(t) ==> self.parts.len() == 0
        &&& is_multipart(t) ==> parts_valid(self.parts, n as int)
        &&& self.part_types.len() == (if t == ShapeType::Multipatch { self.parts.len() } else { 0 })
    }
}

pub open spec fn geometry_model(t: ShapeType, g: &Geometry) -> Model {
    Model {
        kind: t,
        bbox: g.bbox,
        z_range: g.z_range,
        m_range: g.m_range,
        parts: g.parts@,
        part_types: g.part_types@,
        points: g.points@,
        zs: g.zs@,
        ms: g.ms@,
    }
}

pub open spec fn point_model(t: ShapeType, x: u64, y: u64, zs: Seq<u64>, ms: Seq<u64>) -> Model {
    Model {
        kind: t,
        bbox: zero_bbox(),
        z_range: zero_extent(),
        m_range: zero_extent(),
        parts: Seq::empty(),
        part_types: Seq::empty(),
        points: seq![Point { x, y }],
        zs,
        ms,
    }
}

impl Shape {
    pub open spec fn kind(&self) -> ShapeType {
        match self {
            Shape::NullShape => ShapeType::NullShape,
            Shape::Point(_) => ShapeType::Point,
            Shape::PointM(_) => ShapeType::PointM,
            Shape::PointZ(_) => ShapeType::PointZ,
            Shape::Multipoint(_) => ShapeType::Multipoint,
            Shape::MultipointM(_) => ShapeType::MultipointM,
            Shape::MultipointZ(_) => ShapeType::MultipointZ,
            Shape::Polyline(_) => ShapeType::Polyline,
            Shape::Polygon(_) => ShapeType::Polygon,
            Shape::PolylineM(_) => ShapeType::PolylineM,
            Shape::PolygonM(_) => ShapeType::PolygonM,
            Shape::PolylineZ(_) => ShapeType::PolylineZ,
            Shape::PolygonZ(_) => ShapeType::PolygonZ,
            Shape::Multipatch(_) => ShapeType::Multipatch,
        }
    }

    /// The model of the shape.
    pub open spec fn model(&self) -> Model {
        match self {
            Shape::NullShape => Model {
                kind: ShapeType::NullShape,
                bbox: zero_bbox(),
                z_range: zero_extent(),
                m_range: zero_extent(),
                parts: Seq::empty(),
                part_types: Seq::empty(),
                points: Seq::empty(),
                zs: Seq::empty(),
                ms: Seq::empty(),
            },
            Shape::Point(p) => point_model(ShapeType::Point, p.x, p.y, Seq::empty(), Seq::empty()),
            Shape::PointM(p) => point_model(ShapeType::PointM, p.x, p.y, Seq::empty(), seq![p.m]),
            Shape::PointZ(p) => point_model(ShapeType::PointZ, p.x, p.y, seq![p.z], seq![p.m]),
            Shape::Multipoint(g) => geometry_model(ShapeType::Multipoint, g),
            Shape::MultipointM(g) => geometry_model(ShapeType::MultipointM, g),
            Shape::MultipointZ(g) => geometry_model(ShapeType::MultipointZ, g),
            Shape::Polyline(g) => geometry_model(ShapeType::Polyline, g),
            Shape::Polygon(g) => geometry_model(ShapeType::Polygon, g),
            Shape::PolylineM(g) => geometry_model(ShapeType::PolylineM, g),
            Shape::PolygonM(g) => geometry_model(ShapeType::PolygonM, g),
            Shape::PolylineZ(g) => geometry_model(ShapeType::PolylineZ, g),
            Shape::PolygonZ(g) => geometry_model(ShapeType::PolygonZ, g),
            Shape::Multipatch(g) => geometry_model(ShapeType::Multipatch, g),
        }
    }

    /// The shape satisfies the invariants of its kind.
    pub open spec fn wf(&self) -> bool {
        self.model().wf()
    }

    /// The static tag of the shape's kind.
    pub fn shape_type(&self) -> (r: ShapeType)
        ensures
            r == self.kind(),
            r == self.model().kind,
    {
        match self {
            Shape::NullShape => ShapeType::NullShape,
            Shape::Point(_) => ShapeType::Point,
            Shape::PointM(_) => ShapeType::PointM,
            Shape::PointZ(_) => ShapeType::PointZ,
            Shape::Multipoint(_) => ShapeType::Multipoint,
            Shape::MultipointM(_) => ShapeType::MultipointM,
            Shape::MultipointZ(_) => ShapeType::MultipointZ,
            Shape::Polyline(_) => ShapeType::Polyline,
            Shape::Polygon(_) => ShapeType::Polygon,
            Shape::PolylineM(_) => ShapeType::PolylineM,
            Shape::PolygonM(_) => ShapeType::PolygonM,
            Shape::PolylineZ(_) => ShapeType::PolylineZ,
            Shape::PolygonZ(_) => ShapeType::PolygonZ,
            Shape::Multipatch(_) => ShapeType::Multipatch,
        }
    }
}

} // verus!
