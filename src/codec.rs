//! Payload layouts of the shape kinds: their byte encoding and decoding.
use crate::bytes::{
    be32, ints_bytes, le32, le64, lemma_injective, lemma_ints_bytes_len, lemma_sizes,
    lemma_words_bytes_len, push_i32_le, push_u64_le, read_i32_le, read_u64_le, words_bytes,
};
use crate::float::{spec_stored, spec_stored_z, stored, stored_z};
use crate::shape::{
    geometry_model, has_m, measured, has_z, is_multipart, is_multipoint, is_single, parts_valid,
    point_model, spec_patch_code, zero_bbox, zero_extent, BBox, Extent, Geometry, Model,
    PatchType, Point, PointM, PointZ, Shape, ShapeType,
};
use vstd::prelude::*;

verus! {

pub open spec fn point_bytes(p: Point) -> Seq<u8> {
    le64(p.x) + le64(p.y)
}

/// Bytes of a sequence of 2D points, x then y for each.
pub open spec fn points_bytes(s: Seq<Point>) -> Seq<u8>
    decreases s.len(),
{
    if s.len() == 0 {
        Seq::empty()
    } else {
        points_bytes(s.drop_last()) + point_bytes(s.last())
    }
}

pub open spec fn bbox_bytes(b: BBox) -> Seq<u8> {
    le64(b.xmin) + le64(b.ymin) + le64(b.xmax) + le64(b.ymax)
}

pub open spec fn extent_bytes(e: Extent) -> Seq<u8> {
    le64(e.min) + le64(e.max)
}

pub open spec fn patch_codes(s: Seq<PatchType>) -> Seq<i32> {
    Seq::new(s.len(), |i: int| spec_patch_code(s[i]))
}

pub open spec fn opt(c: bool, s: Seq<u8>) -> Seq<u8> {
    if c {
        s
    } else {
        Seq::empty()
    }
}

/// The z column, then the m column, each with its range when `ranges`.
pub open spec fn trailer(m: Model, ranges: bool) -> Seq<u8> {
    let t = m.kind;
    opt(has_z(t), opt(ranges, extent_bytes(m.z_range)) + words_bytes(m.zs)) + opt(
        has_m(t),
        opt(ranges, extent_bytes(m.m_range)) + words_bytes(m.ms),
    )
}

/// The payload of a record of model `m`, after its shape-type tag.
pub open spec fn payload(m: Model) -> Seq<u8> {
    let t = m.kind;
    if t == ShapeType::NullShape {
        Seq::empty()
    } else if is_single(t) {
        points_bytes(m.points) + trailer(m, false)
    } else if is_multipoint(t) {
        bbox_bytes(m.bbox) + opt(has_z(t), extent_bytes(m.z_range)) + le32(m.points.len() as i32)
            + points_bytes(m.points) + opt(has_z(t), words_bytes(m.zs)) + opt(
            measured(m),
            extent_bytes(m.m_range) + words_bytes(m.ms),
        )
    } else {
        bbox_bytes(m.bbox) + le32(m.parts.len() as i32) + le32(m.points.len() as i32)
            + ints_bytes(m.parts) + ints_bytes(patch_codes(m.part_types)) + points_bytes(
            m.points,
        ) + trailer(m, true)
    }
}

/// The closed-form size of `payload(m)` for a well-formed model.
pub open spec fn size(m: Model) -> int {
    let t = m.kind;
    let n = m.points.len() as int;
    let zm = (if has_z(t) { 8 * n } else { 0 }) + (if measured(m) { 8 * n } else { 0 });
    let ranges = (if has_z(t) { 16int } else { 0 }) + (if measured(m) { 16int } else { 0 });
    if t == ShapeType::NullShape {
        0
    } else if is_single(t) {
        16 + zm
    } else if is_multipoint(t) {
        36 + 16 * n + zm + ranges
    } else {
        40 + 4 * m.parts.len() + 4 * m.part_types.len() + 16 * n + zm + ranges
    }
}

/// The model with every z and m value replaced by what the writer stores.
pub open spec fn normalized(m: Model) -> Model {
    Model {
        zs: m.zs.map_values(|v: u64| spec_stored_z(v)),
        ms: m.ms.map_values(|v: u64| spec_stored(v)),
        ..m
    }
}

pub proof fn lemma_points_bytes_len(s: Seq<Point>)
    ensures
        points_bytes(s).len() == 16 * s.len(),
    decreases s.len(),
{
    lemma_sizes();
    if s.len() > 0 {
        lemma_points_bytes_len(s.drop_last());
    }
}

pub proof fn lemma_size(m: Model)
    requires
        m.wf(),
    ensures
        payload(m).len() == size(m),
        size(m) % 4 == 0,
        size(m) >= 4 * m.points.len(),
        size(m) >= 4 * m.parts.len(),
        normalized(m).wf(),
        size(normalized(m)) == size(m),
        normalized(m).kind == m.kind,
{
    lemma_sizes();
    lemma_points_bytes_len(m.points);
    lemma_words_bytes_len(m.zs);
    lemma_words_bytes_len(m.ms);
    lemma_ints_bytes_len(m.parts);
    lemma_ints_bytes_len(patch_codes(m.part_types));
}

proof fn lemma_push_step<T>(s: Seq<T>, i: int)
    requires
        0 <= i < s.len(),
    ensures
        s.take(i + 1).drop_last() == s.take(i),
        s.take(i + 1).last() == s[i],
{
    assert(s.take(i + 1).drop_last() =~= s.take(i));
}

/// Appends the bytes of the points.
fn push_points(buf: &mut Vec<u8>, pts: &Vec<Point>)
    ensures
        final(buf)@ == old(buf)@ + points_bytes(pts@),
{
    let mut i: usize = 0;
    while i < pts.len()
        invariant
            i <= pts@.len(),
            buf@ == old(buf)@ + points_bytes(pts@.take(i as int)),
        decreases pts@.len() - i,
    {
        proof {
            lemma_push_step(pts@, i as int);
        }
        push_u64_le(buf, pts[i].x);
        push_u64_le(buf, pts[i].y);
        i = i + 1;
        proof {
            assert(buf@ =~= old(buf)@ + points_bytes(pts@.take(i as int)));
        }
    }
    proof {
        assert(pts@.take(pts@.len() as int) =~= pts@);
    }
}

/// Appends the z values as stored.
fn push_zs(buf: &mut Vec<u8>, vs: &Vec<u64>)
    ensures
        final(buf)@ == old(buf)@ + words_bytes(vs@.map_values(|v: u64| spec_stored_z(v))),
{
    let ghost f = |v: u64| spec_stored_z(v);
    let mut i: usize = 0;
    while i < vs.len()
        invariant
            i <= vs@.len(),
            f == (|v: u64| spec_stored_z(v)),
            buf@ == old(buf)@ + words_bytes(vs@.map_values(f).take(i as int)),
        decreases vs@.len() - i,
    {
        proof {
            lemma_push_step(vs@.map_values(f), i as int);
        }
        push_u64_le(buf, stored_z(vs[i]));
        i = i + 1;
        proof {
            assert(buf@ =~= old(buf)@ + words_bytes(vs@.map_values(f).take(i as int)));
        }
    }
    proof {
        assert(vs@.map_values(f).take(vs@.len() as int) =~= vs@.map_values(f));
    }
}

/// Appends the measures as stored.
fn push_ms(buf: &mut Vec<u8>, vs: &Vec<u64>)
    ensures
        final(buf)@ == old(buf)@ + words_bytes(vs@.map_values(|v: u64| spec_stored(v))),
{
    let ghost f = |v: u64| spec_stored(v);
    let mut i: usize = 0;
    while i < vs.len()
        invariant
            i <= vs@.len(),
            f == (|v: u64| spec_stored(v)),
            buf@ == old(buf)@ + words_bytes(vs@.map_values(f).take(i as int)),
        decreases vs@.len() - i,
    {
        proof {
            lemma_push_step(vs@.map_values(f), i as int);
        }
        push_u64_le(buf, stored(vs[i]));
        i = i + 1;
        proof {
            assert(buf@ =~= old(buf)@ + words_bytes(vs@.map_values(f).take(i as int)));
        }
    }
    proof {
        assert(vs@.map_values(f).take(vs@.len() as int) =~= vs@.map_values(f));
    }
}

fn push_ints(buf: &mut Vec<u8>, vs: &Vec<i32>)
    ensures
        final(buf)@ == old(buf)@ + ints_bytes(vs@),
{
    let mut i: usize = 0;
    while i < vs.len()
        invariant
            i <= vs@.len(),
            buf@ == old(buf)@ + ints_bytes(vs@.take(i as int)),
        decreases vs@.len() - i,
    {
        proof {
            lemma_push_step(vs@, i as int);
        }
        push_i32_le(buf, vs[i]);
        i = i + 1;
    }
    proof {
        assert(vs@.take(vs@.len() as int) =~= vs@);
    }
}

fn push_patch_types(buf: &mut Vec<u8>, vs: &Vec<PatchType>)
    ensures
        final(buf)@ == old(buf)@ + ints_bytes(patch_codes(vs@)),
{
    let mut i: usize = 0;
    while i < vs.len()
        invariant
            i <= vs@.len(),
            buf@ == old(buf)@ + ints_bytes(patch_codes(vs@).take(i as int)),
        decreases vs@.len() - i,
    {
        proof {
            lemma_push_step(patch_codes(vs@), i as int);
        }
        push_i32_le(buf, vs[i].code());
        i = i + 1;
    }
    proof {
        assert(patch_codes(vs@).take(vs@.len() as int) =~= patch_codes(vs@));
    }
}

fn push_bbox(buf: &mut Vec<u8>, b: &BBox)
    ensures
        final(buf)@ == old(buf)@ + bbox_bytes(*b),
{
    push_u64_le(buf, b.xmin);
    push_u64_le(buf, b.ymin);
    push_u64_le(buf, b.xmax);
    push_u64_le(buf, b.ymax);
    proof {
        assert(final(buf)@ =~= old(buf)@ + bbox_bytes(*b));
    }
}

fn push_extent(buf: &mut Vec<u8>, e: &Extent)
    ensures
        final(buf)@ == old(buf)@ + extent_bytes(*e),
{
    push_u64_le(buf, e.min);
    push_u64_le(buf, e.max);
    proof {
        assert(final(buf)@ =~= old(buf)@ + extent_bytes(*e));
    }
}

#[verifier::rlimit(60)]
#[verifier::spinoff_prover]
fn write_geometry(t: ShapeType, g: &Geometry, buf: &mut Vec<u8>)
    requires
        geometry_model(t, g).wf(),
        t != ShapeType::NullShape,
        !is_single(t),
    ensures
        final(buf)@ == old(buf)@ + payload(normalized(geometry_model(t, g))),
{
    let ghost m = geometry_model(t, g);
    let ghost nm = normalized(m);
    push_bbox(buf, &g.bbox);
    if t.is_multipoint() {
        if t.has_z() {
            push_extent(buf, &g.z_range);
        }
        push_i32_le(buf, g.points.len() as i32);
        push_points(buf, &g.points);
        if t.has_z() {
            push_zs(buf, &g.zs);
        }
        if t.has_m() && g.ms.len() == g.points.len() {
            push_extent(buf, &g.m_range);
            push_ms(buf, &g.ms);
        }
        proof {
            assert(final(buf)@ =~= old(buf)@ + payload(nm));
        }
    } else {
        push_i32_le(buf, g.parts.len() as i32);
        push_i32_le(buf, g.points.len() as i32);
        push_ints(buf, &g.parts);
        push_patch_types(buf, &g.part_types);
        push_points(buf, &g.points);
        if t.has_z() {
            push_extent(buf, &g.z_range);
            push_zs(buf, &g.zs);
        }
        if t.has_m() {
            push_extent(buf, &g.m_range);
            push_ms(buf, &g.ms);
        }
        proof {
            assert(final(buf)@ =~= old(buf)@ + payload(nm));
        }
    }
}

pub proof fn lemma_one_point(p: Point)
    ensures
        points_bytes(seq![p]) == point_bytes(p),
{
    let s = seq![p];
    assert(s.drop_last() =~= Seq::<Point>::empty());
    assert(points_bytes(s.drop_last()) == Seq::<u8>::empty());
    assert(s.last() == p);
    assert(points_bytes(s) == points_bytes(s.drop_last()) + point_bytes(s.last()));
    assert(Seq::<u8>::empty() + point_bytes(p) =~= point_bytes(p));
}

pub proof fn lemma_one_word(w: u64)
    ensures
        words_bytes(seq![w]) == le64(w),
{
    let s = seq![w];
    assert(s.drop_last() =~= Seq::<u64>::empty());
    assert(words_bytes(s.drop_last()) == Seq::<u8>::empty());
    assert(s.last() == w);
    assert(words_bytes(s) == words_bytes(s.drop_last()) + le64(s.last()));
    assert(Seq::<u8>::empty() + le64(w) =~= le64(w));
}

impl Shape {
    /// Size of the payload in bytes, excluding the record header and the
    /// shape-type tag.
    pub fn size_in_bytes(&self) -> (r: u64)
        requires
            self.wf(),
        ensures
            r == size(self.model()),
    {
        match self {
            Shape::NullShape => 0,
            Shape::Point(_) => 16,
            Shape::PointM(_) => 24,
            Shape::PointZ(_) => 32,
            Shape::Multipoint(g) | Shape::MultipointM(g) | Shape::MultipointZ(g) => {
                let t = self.shape_type();
                let n = g.points.len() as u64;
                let mut r: u64 = 36 + 16 * n;
                if t.has_z() {
                    r = r + 16 + 8 * n;
                }
                if t.has_m() && g.ms.len() == g.points.len() {
                    r = r + 16 + 8 * n;
                }
                r
            },
            Shape::Polyline(g) | Shape::Polygon(g) | Shape::PolylineM(g) | Shape::PolygonM(g)
            | Shape::PolylineZ(g) | Shape::PolygonZ(g) | Shape::Multipatch(g) => {
                let t = self.shape_type();
                let n = g.points.len() as u64;
                let mut r: u64 = 40 + 4 * (g.parts.len() as u64) + 4 * (g.part_types.len() as u64)
                    + 16 * n;
                if t.has_z() {
                    r = r + 16 + 8 * n;
                }
                if t.has_m() {
                    r = r + 16 + 8 * n;
                }
                r
            },
        }
    }

    /// Appends the payload of the shape, with z and m values as stored
    /// (NaN and missing measures become `NO_DATA`).
    pub fn write_to(&self, buf: &mut Vec<u8>)
        requires
            self.wf(),
        ensures
            final(buf)@ == old(buf)@ + payload(normalized(self.model())),
    {
        let ghost nm = normalized(self.model());
        match self {
            Shape::NullShape => {
                proof {
                    assert(old(buf)@ + payload(nm) =~= old(buf)@);
                }
            },
            Shape::Point(p) => {
                push_u64_le(buf, p.x);
                push_u64_le(buf, p.y);
                proof {
                    lemma_one_point(Point { x: p.x, y: p.y });
                    assert(final(buf)@ =~= old(buf)@ + payload(nm));
                }
            },
            Shape::PointM(p) => {
                push_u64_le(buf, p.x);
                push_u64_le(buf, p.y);
                push_u64_le(buf, stored(p.m));
                proof {
                    lemma_one_point(Point { x: p.x, y: p.y });
                    lemma_one_word(spec_stored(p.m));
                    assert(nm.ms =~= seq![spec_stored(p.m)]);
                    assert(final(buf)@ =~= old(buf)@ + payload(nm));
                }
            },
            Shape::PointZ(p) => {
                push_u64_le(buf, p.x);
                push_u64_le(buf, p.y);
                push_u64_le(buf, stored_z(p.z));
                push_u64_le(buf, stored(p.m));
                proof {
                    lemma_one_point(Point { x: p.x, y: p.y });
                    lemma_one_word(spec_stored(p.m));
                    lemma_one_word(spec_stored_z(p.z));
                    assert(nm.ms =~= seq![spec_stored(p.m)]);
                    assert(nm.zs =~= seq![spec_stored_z(p.z)]);
                    assert(final(buf)@ =~= old(buf)@ + payload(nm));
                }
            },
            Shape::Multipoint(g) | Shape::MultipointM(g) | Shape::MultipointZ(g)
            | Shape::Polyline(g) | Shape::Polygon(g) | Shape::PolylineM(g) | Shape::PolygonM(g)
            | Shape::PolylineZ(g) | Shape::PolygonZ(g) | Shape::Multipatch(g) => {
                write_geometry(self.shape_type(), g, buf);
            },
        }
    }
}

} // verus!
