//! Decoding: columns, payloads, records and whole files.
use crate::bytes::{
    be32, ints_bytes, le32, le64, lemma_injective, lemma_ints_bytes_len, lemma_sizes,
    lemma_words_bytes_len, read_i32_be, read_i32_le, read_u64_le, words_bytes,
};
use crate::codec::{
    bbox_bytes, extent_bytes, lemma_one_point, lemma_one_word, lemma_points_bytes_len, lemma_size, patch_codes, payload,
    point_bytes, points_bytes, size,
};
use crate::error::Error;
use crate::header::{header_bytes, header_read, lemma_header_fields, lemma_header_len, Header};
use crate::writer::content_length;
use vstd::slice::slice_subrange;
use crate::shape::{
    lemma_code_injective, spec_code, geometry_model, has_m, measured, has_z, is_multipart, is_multipoint, is_single, parts_valid,
    spec_patch_code, zero_bbox, zero_extent, BBox, Extent, Geometry, Model, PatchType, Point,
    PointM, PointZ, Shape, ShapeType,
};
use vstd::prelude::*;

verus! {

/// If `a + b == c + d` with `|a| == |c|`, the two halves agree.
pub proof fn lemma_concat_split(a: Seq<u8>, b: Seq<u8>, c: Seq<u8>, d: Seq<u8>)
    requires
        a + b == c + d,
        a.len() == c.len(),
    ensures
        a == c,
        b == d,
{
    assert(a =~= (a + b).subrange(0, a.len() as int));
    assert(c =~= (c + d).subrange(0, c.len() as int));
    assert(b =~= (a + b).subrange(a.len() as int, (a + b).len() as int));
    assert(d =~= (c + d).subrange(c.len() as int, (c + d).len() as int));
}

pub proof fn lemma_points_bytes_inj(p: Seq<Point>, q: Seq<Point>)
    requires
        p.len() == q.len(),
        points_bytes(p) == points_bytes(q),
    ensures
        p == q,
    decreases p.len(),
{
    if p.len() > 0 {
        lemma_sizes();
        lemma_injective();
        lemma_points_bytes_len(p.drop_last());
        lemma_points_bytes_len(q.drop_last());
        lemma_concat_split(
            points_bytes(p.drop_last()),
            point_bytes(p.last()),
            points_bytes(q.drop_last()),
            point_bytes(q.last()),
        );
        lemma_concat_split(le64(p.last().x), le64(p.last().y), le64(q.last().x), le64(q.last().y));
        lemma_points_bytes_inj(p.drop_last(), q.drop_last());
        assert(p =~= p.drop_last().push(p.last()));
        assert(q =~= q.drop_last().push(q.last()));
    } else {
        assert(p =~= q);
    }
}

pub proof fn lemma_words_bytes_inj(p: Seq<u64>, q: Seq<u64>)
    requires
        p.len() == q.len(),
        words_bytes(p) == words_bytes(q),
    ensures
        p == q,
    decreases p.len(),
{
    if p.len() > 0 {
        lemma_sizes();
        lemma_injective();
        lemma_words_bytes_len(p.drop_last());
        lemma_words_bytes_len(q.drop_last());
        lemma_concat_split(words_bytes(p.drop_last()), le64(p.last()), words_bytes(q.drop_last()), le64(q.last()));
        lemma_words_bytes_inj(p.drop_last(), q.drop_last());
        assert(p =~= p.drop_last().push(p.last()));
        assert(q =~= q.drop_last().push(q.last()));
    } else {
        assert(p =~= q);
    }
}

pub proof fn lemma_ints_bytes_inj(p: Seq<i32>, q: Seq<i32>)
    requires
        p.len() == q.len(),
        ints_bytes(p) == ints_bytes(q),
    ensures
        p == q,
    decreases p.len(),
{
    if p.len() > 0 {
        lemma_sizes();
        lemma_injective();
        lemma_ints_bytes_len(p.drop_last());
        lemma_ints_bytes_len(q.drop_last());
        lemma_concat_split(ints_bytes(p.drop_last()), le32(p.last()), ints_bytes(q.drop_last()), le32(q.last()));
        lemma_ints_bytes_inj(p.drop_last(), q.drop_last());
        assert(p =~= p.drop_last().push(p.last()));
        assert(q =~= q.drop_last().push(q.last()));
    } else {
        assert(p =~= q);
    }
}

pub proof fn lemma_patch_codes_inj(p: Seq<PatchType>, q: Seq<PatchType>)
    requires
        patch_codes(p) == patch_codes(q),
    ensures
        p == q,
{
    assert(p.len() == patch_codes(p).len());
    assert(q.len() == patch_codes(q).len());
    assert forall|i: int| 0 <= i < p.len() implies p[i] == q[i] by {
        assert(patch_codes(p)[i] == patch_codes(q)[i]);
        assert(patch_codes(p)[i] == spec_patch_code(p[i]));
        assert(patch_codes(q)[i] == spec_patch_code(q[i]));
        assert(spec_patch_code(p[i]) == spec_patch_code(q[i]));
        match p[i] {
            PatchType::TriangleStrip => {},
            PatchType::TriangleFan => {},
            PatchType::OuterRing => {},
            PatchType::InnerRing => {},
            PatchType::FirstRing => {},
            PatchType::Ring => {},
        }
    }
    assert(p =~= q);
}

pub proof fn lemma_bbox_inj(a: BBox, b: BBox)
    requires
        bbox_bytes(a) == bbox_bytes(b),
    ensures
        a == b,
{
    lemma_sizes();
    lemma_injective();
    lemma_concat_split(
        le64(a.xmin) + le64(a.ymin) + le64(a.xmax),
        le64(a.ymax),
        le64(b.xmin) + le64(b.ymin) + le64(b.xmax),
        le64(b.ymax),
    );
    lemma_concat_split(le64(a.xmin) + le64(a.ymin), le64(a.xmax), le64(b.xmin) + le64(b.ymin), le64(b.xmax));
    lemma_concat_split(le64(a.xmin), le64(a.ymin), le64(b.xmin), le64(b.ymin));
}

pub proof fn lemma_extent_inj(a: Extent, b: Extent)
    requires
        extent_bytes(a) == extent_bytes(b),
    ensures
        a == b,
{
    lemma_sizes();
    lemma_injective();
    lemma_concat_split(le64(a.min), le64(a.max), le64(b.min), le64(b.max));
}

fn read_points(b: &[u8], base: usize, n: usize) -> (r: Vec<Point>)
    requires
        base + 16 * n <= b@.len(),
    ensures
        r@.len() == n,
        points_bytes(r@) == b@.subrange(base as int, base + 16 * n),
{
    let blen = b.len();
    let mut r: Vec<Point> = Vec::new();
    let mut i: usize = 0;
    while i < n
        invariant
            blen == b@.len(),
            i <= n,
            base + 16 * n <= b@.len(),
            r@.len() == i,
            points_bytes(r@) == b@.subrange(base as int, base + 16 * i),
        decreases n - i,
    {
        let x = read_u64_le(b, base + 16 * i);
        let y = read_u64_le(b, base + 16 * i + 8);
        let ghost before = r@;
        r.push(Point { x, y });
        proof {
            assert(r@.drop_last() =~= before);
            assert(b@.subrange(base as int, base + 16 * (i + 1)) =~= b@.subrange(base as int, base + 16 * i)
                + b@.subrange(base + 16 * i, base + 16 * i + 8) + b@.subrange(base + 16 * i + 8, base + 16 * i + 16));
        }
        i = i + 1;
    }
    r
}

fn read_words(b: &[u8], base: usize, n: usize) -> (r: Vec<u64>)
    requires
        base + 8 * n <= b@.len(),
    ensures
        r@.len() == n,
        words_bytes(r@) == b@.subrange(base as int, base + 8 * n),
{
    let blen = b.len();
    let mut r: Vec<u64> = Vec::new();
    let mut i: usize = 0;
    while i < n
        invariant
            blen == b@.len(),
            i <= n,
            base + 8 * n <= b@.len(),
            r@.len() == i,
            words_bytes(r@) == b@.subrange(base as int, base + 8 * i),
        decreases n - i,
    {
        let w = read_u64_le(b, base + 8 * i);
        let ghost before = r@;
        r.push(w);
        proof {
            assert(r@.drop_last() =~= before);
            assert(b@.subrange(base as int, base + 8 * (i + 1)) =~= b@.subrange(base as int, base + 8 * i)
                + b@.subrange(base + 8 * i, base + 8 * i + 8));
        }
        i = i + 1;
    }
    r
}

fn read_ints(b: &[u8], base: usize, n: usize) -> (r: Vec<i32>)
    requires
        base + 4 * n <= b@.len(),
    ensures
        r@.len() == n,
        ints_bytes(r@) == b@.subrange(base as int, base + 4 * n),
{
    let blen = b.len();
    let mut r: Vec<i32> = Vec::new();
    let mut i: usize = 0;
    while i < n
        invariant
            blen == b@.len(),
            i <= n,
            base + 4 * n <= b@.len(),
            r@.len() == i,
            ints_bytes(r@) == b@.subrange(base as int, base + 4 * i),
        decreases n - i,
    {
        let w = read_i32_le(b, base + 4 * i);
        let ghost before = r@;
        r.push(w);
        proof {
            assert(r@.drop_last() =~= before);
            assert(b@.subrange(base as int, base + 4 * (i + 1)) =~= b@.subrange(base as int, base + 4 * i)
                + b@.subrange(base + 4 * i, base + 4 * i + 4));
        }
        i = i + 1;
    }
    r
}

fn read_bbox(b: &[u8], base: usize) -> (r: BBox)
    requires
        base + 32 <= b@.len(),
    ensures
        bbox_bytes(r) == b@.subrange(base as int, base + 32),
{
    let blen = b.len();
    let r = BBox {
        xmin: read_u64_le(b, base),
        ymin: read_u64_le(b, base + 8),
        xmax: read_u64_le(b, base + 16),
        ymax: read_u64_le(b, base + 24),
    };
    assert(bbox_bytes(r) =~= b@.subrange(base as int, base + 32));
    r
}

fn read_extent(b: &[u8], base: usize) -> (r: Extent)
    requires
        base + 16 <= b@.len(),
    ensures
        extent_bytes(r) == b@.subrange(base as int, base + 16),
{
    let blen = b.len();
    let r = Extent { min: read_u64_le(b, base), max: read_u64_le(b, base + 8) };
    assert(extent_bytes(r) =~= b@.subrange(base as int, base + 16));
    r
}

/// The part kinds with the given codes, if every code is one.
fn patch_types_of(codes: &Vec<i32>) -> (r: Option<Vec<PatchType>>)
    ensures
        match r {
            Some(v) => patch_codes(v@) == codes@,
            None => forall|v: Seq<PatchType>| patch_codes(v) != codes@,
        },
{
    let mut r: Vec<PatchType> = Vec::new();
    let mut i: usize = 0;
    while i < codes.len()
        invariant
            i <= codes@.len(),
            patch_codes(r@) == codes@.take(i as int),
        decreases codes@.len() - i,
    {
        match PatchType::from_code(codes[i]) {
            Some(p) => {
                let ghost before = r@;
                r.push(p);
                assert(r@ =~= before.push(p));
                assert(patch_codes(r@) =~= patch_codes(before).push(spec_patch_code(p)));
                assert(codes@.take(i + 1) =~= codes@.take(i as int).push(codes@[i as int]));
            },
            None => {
                proof {
                    assert forall|v: Seq<PatchType>| patch_codes(v) != codes@ by {
                        if patch_codes(v) == codes@ {
                            assert(patch_codes(v)[i as int] == spec_patch_code(v[i as int]));
                        }
                    }
                }
                return None;
            },
        }
        i = i + 1;
    }
    assert(codes@.take(codes@.len() as int) =~= codes@);
    Some(r)
}

/// Whether `parts` are valid part starts for `n` points.
pub(crate) fn check_parts(parts: &Vec<i32>, n: usize) -> (r: bool)
    ensures
        r == parts_valid(parts@, n as int),
{
    if parts.len() == 0 {
        return false;
    }
    if parts[0] != 0 {
        return false;
    }
    let mut i: usize = 1;
    while i < parts.len()
        invariant
            1 <= i <= parts@.len(),
            parts@[0] == 0,
            forall|a: int, b: int| 0 <= a < b < i ==> parts@[a] < parts@[b],
        decreases parts@.len() - i,
    {
        if parts[i - 1] >= parts[i] {
            return false;
        }
        i = i + 1;
    }
    (parts[parts.len() - 1] as i64) < (n as i64) || n > i32::MAX as usize
}

/// Where the fields of a multipoint payload lie.
proof fn lemma_multipoint_fields(m: Model, x: Seq<u8>)
    requires
        m.wf(),
        is_multipoint(m.kind),
        payload(m) == x,
    ensures
        ({
            let t = m.kind;
            let n = m.points.len() as int;
            let zr = if has_z(t) { 16int } else { 0 };
            let p1 = 36 + zr + 16 * n;
            let p2 = p1 + if has_z(t) { 8 * n } else { 0 };
            &&& x.len() == size(m)
            &&& x.len() == p2 + if measured(m) { 16 + 8 * n } else { 0 }
            &&& !measured(m) ==> (t == ShapeType::MultipointZ && n > 0) || !has_m(t)
            &&& x.subrange(0, 32) == bbox_bytes(m.bbox)
            &&& has_z(t) ==> x.subrange(32, 48) == extent_bytes(m.z_range)
            &&& x.subrange(32 + zr, 36 + zr) == le32(n as i32)
            &&& x.subrange(36 + zr, p1) == points_bytes(m.points)
            &&& has_z(t) ==> x.subrange(p1, p2) == words_bytes(m.zs)
            &&& measured(m) ==> x.subrange(p2, p2 + 16) == extent_bytes(m.m_range)
            &&& measured(m) ==> x.subrange(p2 + 16, p2 + 16 + 8 * n) == words_bytes(m.ms)
        }),
{
    let t = m.kind;
    let n = m.points.len() as int;
    lemma_size(m);
    lemma_sizes();
    lemma_points_bytes_len(m.points);
    lemma_words_bytes_len(m.zs);
    lemma_words_bytes_len(m.ms);
    let a = bbox_bytes(m.bbox);
    let zb = if has_z(t) { extent_bytes(m.z_range) } else { Seq::empty() };
    let c = le32(n as i32);
    let pb = points_bytes(m.points);
    let zw = if has_z(t) { words_bytes(m.zs) } else { Seq::empty() };
    let mt = if measured(m) { extent_bytes(m.m_range) + words_bytes(m.ms) } else { Seq::empty() };
    assert(x =~= a + zb + c + pb + zw + mt);
    assert(x.subrange(0, 32) =~= a);
    if has_z(t) {
        assert(x.subrange(32, 48) =~= zb);
    }
    let zl = zb.len() as int;
    let pl = pb.len() as int;
    assert(x.subrange(32 + zl, 36 + zl) =~= c);
    assert(x.subrange(36 + zl, 36 + zl + pl) =~= pb);
    let p1 = 36 + zl + pl;
    assert(x.subrange(p1, p1 + zw.len() as int) =~= zw);
    if measured(m) {
        let p2 = p1 + zw.len() as int;
        assert(x.subrange(p2, p2 + 16) =~= extent_bytes(m.m_range));
        assert(x.subrange(p2 + 16, p2 + 16 + 8 * n) =~= words_bytes(m.ms));
    }
}

/// What decoding a payload of kind `t` owes: the shape that the bytes
/// encode, or `MalformedRecord` when no well-formed shape encodes to them.
pub open spec fn decoded(t: ShapeType, x: Seq<u8>, r: Result<Shape, Error>) -> bool {
    match r {
        Ok(s) => {
            &&& s.wf()
            &&& s.kind() == t
            &&& payload(s.model()) == x
            &&& forall|m: Model| #[trigger] m.wf() && m.kind == t && payload(m) == x ==> s.model() == m
        },
        Err(e) => e is MalformedRecord && no_model(t, x),
    }
}

/// The shape of kind `t` with body `g`.
fn shape_of(t: ShapeType, g: Geometry) -> (r: Shape)
    requires
        t != ShapeType::NullShape,
        !is_single(t),
    ensures
        r.kind() == t,
        r.model() == geometry_model(t, &g),
{
    match t {
        ShapeType::Multipoint => Shape::Multipoint(g),
        ShapeType::MultipointM => Shape::MultipointM(g),
        ShapeType::MultipointZ => Shape::MultipointZ(g),
        ShapeType::Polyline => Shape::Polyline(g),
        ShapeType::Polygon => Shape::Polygon(g),
        ShapeType::PolylineM => Shape::PolylineM(g),
        ShapeType::PolygonM => Shape::PolygonM(g),
        ShapeType::PolylineZ => Shape::PolylineZ(g),
        ShapeType::PolygonZ => Shape::PolygonZ(g),
        _ => Shape::Multipatch(g),
    }
}

#[verifier::rlimit(60)]
#[verifier::spinoff_prover]
fn read_multipoint(t: ShapeType, x: &[u8]) -> (r: Result<Shape, Error>)
    requires
        is_multipoint(t),
    ensures
        decoded(t, x@, r),
{
    let len = x.len();
    let zr: usize = if t.has_z() { 16 } else { 0 };
    if len < 36 + zr {
        proof {
            assert forall|m: Model| #[trigger] m.wf() && m.kind == t implies payload(m) != x@ by {
                if payload(m) == x@ {
                    lemma_multipoint_fields(m, x@);
                }
            }
        }
        return Err(Error::MalformedRecord);
    }
    let bbox = read_bbox(x, 0);
    let z_range = if t.has_z() { read_extent(x, 32) } else { Extent { min: 0, max: 0 } };
    let nc = read_i32_le(x, 32 + zr);
    let n: u64 = if nc < 0 { 0 } else { nc as u64 };
    let mut base: u64 = 36 + zr as u64 + 16 * n;
    if t.has_z() {
        base = base + 8 * n;
    }
    let expected: u64 = if t.has_m() { base + 16 + 8 * n } else { base };
    let short = t == ShapeType::MultipointZ && n > 0 && base == len as u64;
    if nc < 0 || (expected != len as u64 && !short) {
        proof {
            assert forall|m: Model| #[trigger] m.wf() && m.kind == t implies payload(m) != x@ by {
                if payload(m) == x@ {
                    lemma_multipoint_fields(m, x@);
                    lemma_injective();
                    lemma_size(m);
                }
            }
        }
        return Err(Error::MalformedRecord);
    }
    let n = n as usize;
    let points = read_points(x, 36 + zr, n);
    let p1 = 36 + zr + 16 * n;
    let zs = if t.has_z() { read_words(x, p1, n) } else { Vec::new() };
    let p2 = if t.has_z() { p1 + 8 * n } else { p1 };
    let with_m = t.has_m() && !short;
    let m_range = if with_m { read_extent(x, p2) } else { Extent { min: 0, max: 0 } };
    let ms = if with_m { read_words(x, p2 + 16, n) } else { Vec::new() };
    let g = Geometry {
        bbox,
        z_range,
        m_range,
        parts: Vec::new(),
        part_types: Vec::new(),
        points,
        zs,
        ms,
    };
    let ghost gm = geometry_model(t, &g);
    proof {
        lemma_sizes();
        lemma_points_bytes_len(gm.points);
        lemma_words_bytes_len(gm.zs);
        lemma_words_bytes_len(gm.ms);
        assert(gm.parts =~= Seq::<i32>::empty());
        assert(gm.part_types =~= Seq::<PatchType>::empty());
        assert(gm.wf());
        let zb = if has_z(t) { extent_bytes(gm.z_range) } else { Seq::empty() };
        let zw = if has_z(t) { words_bytes(gm.zs) } else { Seq::empty() };
        assert(measured(gm) == with_m);
        let mt = if with_m { extent_bytes(gm.m_range) + words_bytes(gm.ms) } else { Seq::empty() };
        assert(x@ =~= bbox_bytes(gm.bbox) + zb + le32(nc) + points_bytes(gm.points) + zw + mt);
        assert(payload(gm) == x@);
        assert forall|m: Model| #[trigger] m.wf() && m.kind == t && payload(m) == x@ implies gm == m by {
            lemma_multipoint_fields(m, x@);
            lemma_multipoint_fields(gm, x@);
            lemma_injective();
            lemma_bbox_inj(gm.bbox, m.bbox);
            lemma_points_bytes_inj(gm.points, m.points);
            if has_z(t) {
                lemma_extent_inj(gm.z_range, m.z_range);
                lemma_words_bytes_inj(gm.zs, m.zs);
            }
            if measured(m) {
                lemma_extent_inj(gm.m_range, m.m_range);
                lemma_words_bytes_inj(gm.ms, m.ms);
            }
            assert(gm.parts =~= m.parts);
            assert(gm.part_types =~= m.part_types);
            assert(gm.zs =~= m.zs);
            assert(gm.ms =~= m.ms);
        }
    }
    Ok(shape_of(t, g))
}

/// Where the fields of a payload with parts lie.
#[verifier::rlimit(60)]
#[verifier::spinoff_prover]
pub(crate) proof fn lemma_multipart_fields(m: Model, x: Seq<u8>)
    requires
        m.wf(),
        is_multipart(m.kind),
        payload(m) == x,
    ensures
        ({
            let t = m.kind;
            let n = m.points.len() as int;
            let np = m.parts.len() as int;
            let pt = if t == ShapeType::Multipatch { 4 * np } else { 0 };
            let p0 = 40 + 4 * np;
            let p1 = p0 + pt + 16 * n;
            let p2 = p1 + if has_z(t) { 16 + 8 * n } else { 0 };
            &&& x.len() == size(m)
            &&& x.subrange(0, 32) == bbox_bytes(m.bbox)
            &&& x.subrange(32, 36) == le32(np as i32)
            &&& x.subrange(36, 40) == le32(n as i32)
            &&& x.subrange(40, p0) == ints_bytes(m.parts)
            &&& x.subrange(p0, p0 + pt) == ints_bytes(patch_codes(m.part_types))
            &&& x.subrange(p0 + pt, p1) == points_bytes(m.points)
            &&& has_z(t) ==> x.subrange(p1, p1 + 16) == extent_bytes(m.z_range)
            &&& has_z(t) ==> x.subrange(p1 + 16, p2) == words_bytes(m.zs)
            &&& has_m(t) ==> x.subrange(p2, p2 + 16) == extent_bytes(m.m_range)
            &&& has_m(t) ==> x.subrange(p2 + 16, p2 + 16 + 8 * n) == words_bytes(m.ms)
        }),
{
    let t = m.kind;
    let n = m.points.len() as int;
    let np = m.parts.len() as int;
    lemma_size(m);
    lemma_sizes();
    lemma_points_bytes_len(m.points);
    lemma_words_bytes_len(m.zs);
    lemma_words_bytes_len(m.ms);
    lemma_ints_bytes_len(m.parts);
    lemma_ints_bytes_len(patch_codes(m.part_types));
    let a = bbox_bytes(m.bbox) + le32(np as i32) + le32(n as i32);
    let pa = ints_bytes(m.parts);
    let pc = ints_bytes(patch_codes(m.part_types));
    let pb = points_bytes(m.points);
    let zt = if has_z(t) { extent_bytes(m.z_range) + words_bytes(m.zs) } else { Seq::empty() };
    let mt = if has_m(t) { extent_bytes(m.m_range) + words_bytes(m.ms) } else { Seq::empty() };
    assert(x =~= a + pa + pc + pb + zt + mt);
    assert(x.subrange(0, 32) =~= bbox_bytes(m.bbox));
    assert(x.subrange(32, 36) =~= le32(np as i32));
    assert(x.subrange(36, 40) =~= le32(n as i32));
    let p0 = 40 + pa.len() as int;
    assert(x.subrange(40, p0) =~= pa);
    let pt = pc.len() as int;
    assert(x.subrange(p0, p0 + pt) =~= pc);
    let p1 = p0 + pt + pb.len() as int;
    assert(x.subrange(p0 + pt, p1) =~= pb);
    if has_z(t) {
        assert(x.subrange(p1, p1 + 16) =~= extent_bytes(m.z_range));
        assert(x.subrange(p1 + 16, p1 + 16 + 8 * n) =~= words_bytes(m.zs));
    }
    if has_m(t) {
        let p2 = p1 + zt.len() as int;
        assert(x.subrange(p2, p2 + 16) =~= extent_bytes(m.m_range));
        assert(x.subrange(p2 + 16, p2 + 16 + 8 * n) =~= words_bytes(m.ms));
    }
}

/// A payload with parts whose fields were read into `gm` decodes to `gm`,
/// and to no other model.
#[verifier::rlimit(60)]
#[verifier::spinoff_prover]
proof fn lemma_multipart_decoded(t: ShapeType, x: Seq<u8>, gm: Model, npc: i32, nc: i32)
    requires
        is_multipart(t),
        gm.kind == t,
        gm.points.len() == nc,
        gm.parts.len() == npc,
        nc >= 0,
        npc >= 0,
        parts_valid(gm.parts, nc as int),
        gm.part_types.len() == (if t == ShapeType::Multipatch { npc as int } else { 0 }),
        !has_z(t) ==> gm.z_range == zero_extent() && gm.zs.len() == 0,
        !has_m(t) ==> gm.m_range == zero_extent() && gm.ms.len() == 0,
        has_z(t) ==> gm.zs.len() == nc,
        has_m(t) ==> gm.ms.len() == nc,
        ({
            let n = nc as int;
            let np = npc as int;
            let pt = if t == ShapeType::Multipatch { 4 * np } else { 0 };
            let p0 = 40 + 4 * np;
            let p1 = p0 + pt + 16 * n;
            let p2 = p1 + if has_z(t) { 16 + 8 * n } else { 0 };
            &&& x.len() == p2 + if has_m(t) { 16 + 8 * n } else { 0 }
            &&& x.subrange(0, 32) == bbox_bytes(gm.bbox)
            &&& x.subrange(32, 36) == le32(npc)
            &&& x.subrange(36, 40) == le32(nc)
            &&& x.subrange(40, p0) == ints_bytes(gm.parts)
            &&& x.subrange(p0, p0 + pt) == ints_bytes(patch_codes(gm.part_types))
            &&& x.subrange(p0 + pt, p1) == points_bytes(gm.points)
            &&& has_z(t) ==> x.subrange(p1, p1 + 16) == extent_bytes(gm.z_range)
            &&& has_z(t) ==> x.subrange(p1 + 16, p2) == words_bytes(gm.zs)
            &&& has_m(t) ==> x.subrange(p2, p2 + 16) == extent_bytes(gm.m_range)
            &&& has_m(t) ==> x.subrange(p2 + 16, p2 + 16 + 8 * n) == words_bytes(gm.ms)
        }),
    ensures
        gm.wf(),
        payload(gm) == x,
        forall|m: Model| #[trigger] m.wf() && m.kind == t && payload(m) == x ==> gm == m,
{
        lemma_sizes();
        lemma_points_bytes_len(gm.points);
        lemma_words_bytes_len(gm.zs);
        lemma_words_bytes_len(gm.ms);
        lemma_ints_bytes_len(gm.parts);
        lemma_ints_bytes_len(patch_codes(gm.part_types));
        assert(patch_codes(gm.part_types).len() == gm.part_types.len());
        assert(gm.wf());
        let zt = if has_z(t) { extent_bytes(gm.z_range) + words_bytes(gm.zs) } else { Seq::empty() };
        let mt = if has_m(t) { extent_bytes(gm.m_range) + words_bytes(gm.ms) } else { Seq::empty() };
        assert(x =~= bbox_bytes(gm.bbox) + le32(npc) + le32(nc) + ints_bytes(gm.parts) + ints_bytes(
            patch_codes(gm.part_types),
        ) + points_bytes(gm.points) + zt + mt);
        assert(payload(gm) == x);
        assert forall|m: Model| #[trigger] m.wf() && m.kind == t && payload(m) == x implies gm == m by {
            lemma_multipart_fields(m, x);
            lemma_multipart_fields(gm, x);
            lemma_injective();
            lemma_bbox_inj(gm.bbox, m.bbox);
            lemma_ints_bytes_inj(gm.parts, m.parts);
            lemma_ints_bytes_len(patch_codes(m.part_types));
            lemma_ints_bytes_inj(patch_codes(gm.part_types), patch_codes(m.part_types));
            lemma_patch_codes_inj(gm.part_types, m.part_types);
            lemma_points_bytes_inj(gm.points, m.points);
            if has_z(t) {
                lemma_extent_inj(gm.z_range, m.z_range);
                lemma_words_bytes_inj(gm.zs, m.zs);
            }
            if has_m(t) {
                lemma_extent_inj(gm.m_range, m.m_range);
                lemma_words_bytes_inj(gm.ms, m.ms);
            }
            assert(gm.zs =~= m.zs);
            assert(gm.ms =~= m.ms);
        }
    }

pub open spec fn no_model(t: ShapeType, x: Seq<u8>) -> bool {
    forall|m: Model| #[trigger] m.wf() && m.kind == t ==> payload(m) != x
}

proof fn lemma_multipart_short(t: ShapeType, x: Seq<u8>)
    requires
        is_multipart(t),
        x.len() < 40,
    ensures
        no_model(t, x),
{
    assert forall|m: Model| #[trigger] m.wf() && m.kind == t implies payload(m) != x by {
        if payload(m) == x {
            lemma_multipart_fields(m, x);
            lemma_size(m);
        }
    }
}

proof fn lemma_multipart_counts(t: ShapeType, x: Seq<u8>, npc: i32, nc: i32)
    requires
        is_multipart(t),
        x.len() >= 40,
        x.subrange(32, 36) == le32(npc),
        x.subrange(36, 40) == le32(nc),
        npc < 0 || nc < 0 || x.len() != 40 + 4 * npc + 16 * nc + (if t == ShapeType::Multipatch {
            4 * npc
        } else {
            0
        }) + (if has_z(t) { 16 + 8 * nc } else { 0 }) + (if has_m(t) { 16 + 8 * nc } else { 0 }),
    ensures
        no_model(t, x),
{
    assert forall|m: Model| #[trigger] m.wf() && m.kind == t implies payload(m) != x by {
        if payload(m) == x {
            lemma_multipart_fields(m, x);
            lemma_injective();
            lemma_size(m);
        }
    }
}

proof fn lemma_multipart_codes(t: ShapeType, x: Seq<u8>, npc: i32, codes: Seq<i32>)
    requires
        is_multipart(t),
        npc >= 0,
        x.subrange(32, 36) == le32(npc),
        codes.len() == (if t == ShapeType::Multipatch { npc as int } else { 0 }),
        x.subrange(40 + 4 * npc, 40 + 4 * npc + 4 * codes.len()) == ints_bytes(codes),
        forall|v: Seq<PatchType>| patch_codes(v) != codes,
    ensures
        no_model(t, x),
{
    assert forall|m: Model| #[trigger] m.wf() && m.kind == t implies payload(m) != x by {
        if payload(m) == x {
            lemma_multipart_fields(m, x);
            lemma_injective();
            lemma_ints_bytes_len(patch_codes(m.part_types));
            lemma_ints_bytes_inj(codes, patch_codes(m.part_types));
        }
    }
}

proof fn lemma_multipart_parts(t: ShapeType, x: Seq<u8>, npc: i32, nc: i32, parts: Seq<i32>)
    requires
        is_multipart(t),
        npc >= 0,
        x.subrange(32, 36) == le32(npc),
        x.subrange(36, 40) == le32(nc),
        parts.len() == npc,
        x.subrange(40, 40 + 4 * npc) == ints_bytes(parts),
        !parts_valid(parts, nc as int),
    ensures
        no_model(t, x),
{
    assert forall|m: Model| #[trigger] m.wf() && m.kind == t implies payload(m) != x by {
        if payload(m) == x {
            lemma_multipart_fields(m, x);
            lemma_injective();
            lemma_ints_bytes_inj(parts, m.parts);
        }
    }
}

#[verifier::rlimit(60)]
#[verifier::spinoff_prover]
fn read_multipart(t: ShapeType, x: &[u8]) -> (r: Result<Shape, Error>)
    requires
        is_multipart(t),
    ensures
        decoded(t, x@, r),
{
    let len = x.len();
    if len < 40 {
        proof {
            lemma_multipart_short(t, x@);
        }
        return Err(Error::MalformedRecord);
    }
    let bbox = read_bbox(x, 0);
    let npc = read_i32_le(x, 32);
    let nc = read_i32_le(x, 36);
    let patch = t == ShapeType::Multipatch;
    let n: u64 = if nc < 0 { 0 } else { nc as u64 };
    let np: u64 = if npc < 0 { 0 } else { npc as u64 };
    let mut expected: u64 = 40 + 4 * np + 16 * n;
    if patch {
        expected = expected + 4 * np;
    }
    if t.has_z() {
        expected = expected + 16 + 8 * n;
    }
    if t.has_m() {
        expected = expected + 16 + 8 * n;
    }
    if nc < 0 || npc < 0 || expected != len as u64 {
        proof {
            lemma_multipart_counts(t, x@, npc, nc);
        }
        return Err(Error::MalformedRecord);
    }
    let n = n as usize;
    let np = np as usize;
    let parts = read_ints(x, 40, np);
    let p0 = 40 + 4 * np;
    let pt: usize = if patch { 4 * np } else { 0 };
    let codes = read_ints(x, p0, if patch { np } else { 0 });
    let part_types = match patch_types_of(&codes) {
        Some(v) => v,
        None => {
            proof {
                lemma_multipart_codes(t, x@, npc, codes@);
            }
            return Err(Error::MalformedRecord);
        },
    };
    if !check_parts(&parts, n) {
        proof {
            lemma_multipart_parts(t, x@, npc, nc, parts@);
        }
        return Err(Error::MalformedRecord);
    }
    let points = read_points(x, p0 + pt, n);
    let p1 = p0 + pt + 16 * n;
    let z_range = if t.has_z() { read_extent(x, p1) } else { Extent { min: 0, max: 0 } };
    let zs = if t.has_z() { read_words(x, p1 + 16, n) } else { Vec::new() };
    let p2 = if t.has_z() { p1 + 16 + 8 * n } else { p1 };
    let m_range = if t.has_m() { read_extent(x, p2) } else { Extent { min: 0, max: 0 } };
    let ms = if t.has_m() { read_words(x, p2 + 16, n) } else { Vec::new() };
    let g = Geometry { bbox, z_range, m_range, parts, part_types, points, zs, ms };
    proof {
        lemma_multipart_decoded(t, x@, geometry_model(t, &g), npc, nc);
    }
    Ok(shape_of(t, g))
}

/// Where the fields of a single-point payload lie.
proof fn lemma_single_fields(m: Model, x: Seq<u8>)
    requires
        m.wf(),
        is_single(m.kind),
        payload(m) == x,
    ensures
        x.len() == size(m),
        x.subrange(0, 8) == le64(m.points[0].x),
        x.subrange(8, 16) == le64(m.points[0].y),
        has_z(m.kind) ==> x.subrange(16, 24) == le64(m.zs[0]),
        has_m(m.kind) ==> x.subrange(16 + (if has_z(m.kind) { 8int } else { 0 }), 24 + (if has_z(m.kind) { 8int } else { 0 })) == le64(m.ms[0]),
{
    lemma_size(m);
    lemma_sizes();
    lemma_one_point(m.points[0]);
    assert(m.points =~= seq![m.points[0]]);
    if has_z(m.kind) {
        lemma_one_word(m.zs[0]);
        assert(m.zs =~= seq![m.zs[0]]);
    }
    if has_m(m.kind) {
        lemma_one_word(m.ms[0]);
        assert(m.ms =~= seq![m.ms[0]]);
    }
    let zb = if has_z(m.kind) { le64(m.zs[0]) } else { Seq::empty() };
    let mb = if has_m(m.kind) { le64(m.ms[0]) } else { Seq::empty() };
    assert(x =~= le64(m.points[0].x) + le64(m.points[0].y) + zb + mb);
    assert(x.subrange(0, 8) =~= le64(m.points[0].x));
    assert(x.subrange(8, 16) =~= le64(m.points[0].y));
    if has_z(m.kind) {
        assert(x.subrange(16, 24) =~= zb);
    }
    if has_m(m.kind) {
        let o = zb.len() as int;
        assert(x.subrange(16 + o, 24 + o) =~= mb);
    }
}

#[verifier::rlimit(60)]
#[verifier::spinoff_prover]
fn read_single(t: ShapeType, x: &[u8]) -> (r: Result<Shape, Error>)
    requires
        is_single(t),
    ensures
        decoded(t, x@, r),
{
    let expected: usize = match t {
        ShapeType::Point => 16,
        ShapeType::PointM => 24,
        _ => 32,
    };
    if x.len() != expected {
        proof {
            assert forall|m: Model| #[trigger] m.wf() && m.kind == t implies payload(m) != x@ by {
                if payload(m) == x@ {
                    lemma_single_fields(m, x@);
                }
            }
        }
        return Err(Error::MalformedRecord);
    }
    let px = read_u64_le(x, 0);
    let py = read_u64_le(x, 8);
    let shape = match t {
        ShapeType::Point => Shape::Point(Point { x: px, y: py }),
        ShapeType::PointM => Shape::PointM(PointM { x: px, y: py, m: read_u64_le(x, 16) }),
        _ => Shape::PointZ(PointZ { x: px, y: py, z: read_u64_le(x, 16), m: read_u64_le(x, 24) }),
    };
    proof {
        let gm = shape.model();
        lemma_sizes();
        lemma_injective();
        assert(gm.wf());
        lemma_single_fields(gm, payload(gm));
        assert(payload(gm) =~= x@) by {
            lemma_one_point(gm.points[0]);
            if has_z(t) {
                lemma_one_word(gm.zs[0]);
            }
            if has_m(t) {
                lemma_one_word(gm.ms[0]);
            }
        }
        assert forall|m: Model| #[trigger] m.wf() && m.kind == t && payload(m) == x@ implies gm == m by {
            lemma_single_fields(m, x@);
            assert(m.points =~= gm.points);
            assert(m.zs =~= gm.zs);
            assert(m.ms =~= gm.ms);
            assert(m.parts =~= gm.parts);
            assert(m.part_types =~= gm.part_types);
        }
    }
    Ok(shape)
}

/// Decodes the payload of a record of kind `t` (the bytes after its tag).
pub fn read_payload(t: ShapeType, x: &[u8]) -> (r: Result<Shape, Error>)
    ensures
        decoded(t, x@, r),
{
    if t == ShapeType::NullShape {
        if x.len() == 0 {
            proof {
                let gm = Shape::NullShape.model();
                assert(payload(gm) =~= x@);
                assert forall|m: Model| #[trigger] m.wf() && m.kind == t && payload(m) == x@ implies gm == m by {
                    assert(m.points =~= gm.points);
                    assert(m.zs =~= gm.zs);
                    assert(m.ms =~= gm.ms);
                    assert(m.parts =~= gm.parts);
                    assert(m.part_types =~= gm.part_types);
                }
            }
            Ok(Shape::NullShape)
        } else {
            Err(Error::MalformedRecord)
        }
    } else if t.is_single() {
        read_single(t, x)
    } else if t.is_multipoint() {
        read_multipoint(t, x)
    } else {
        read_multipart(t, x)
    }
}

/// The bytes of a record as found in a file: any record number.
pub open spec fn raw_record(num: i32, m: Model) -> Seq<u8> {
    be32(num) + be32(content_length(m) as i32) + le32(spec_code(m.kind)) + payload(m)
}

pub open spec fn raw_records(nums: Seq<i32>, ms: Seq<Model>) -> Seq<u8>
    decreases ms.len(),
{
    if ms.len() == 0 || nums.len() == 0 {
        Seq::empty()
    } else {
        raw_record(nums[0], ms[0]) + raw_records(nums.drop_first(), ms.drop_first())
    }
}

pub open spec fn models(s: Seq<Shape>) -> Seq<Model> {
    Seq::new(s.len(), |i: int| s[i].model())
}

/// Every shape is well-formed, and null or of type `t`.
pub open spec fn shapes_of_type(ms: Seq<Model>, t: ShapeType) -> bool {
    forall|i: int|
        0 <= i < ms.len() ==> #[trigger] ms[i].wf() && (ms[i].kind == ShapeType::NullShape
            || ms[i].kind == t)
}

proof fn lemma_models_of_type(s: Seq<Shape>, t: ShapeType)
    requires
        forall|i: int|
            0 <= i < s.len() ==> #[trigger] s[i].wf() && (s[i].model().kind == ShapeType::NullShape
                || s[i].model().kind == t),
    ensures
        shapes_of_type(models(s), t),
{
    assert forall|i: int| 0 <= i < models(s).len() implies #[trigger] models(s)[i].wf() && (
    models(s)[i].kind == ShapeType::NullShape || models(s)[i].kind == t) by {
        assert(s[i].wf());
        assert(models(s)[i] == s[i].model());
    }
}

/// The bytes are a file with header `h`, records numbered `nums` and
/// shapes `ms`: every shape is well-formed and null or of the header's
/// type, and the header's length is that of the file.
pub open spec fn file_layout(b: Seq<u8>, h: Header, nums: Seq<i32>, ms: Seq<Model>) -> bool {
    &&& header_read(b, h)
    &&& nums.len() == ms.len()
    &&& shapes_of_type(ms, h.shape_type)
    &&& b.subrange(100, b.len() as int) == raw_records(nums, ms)
    &&& b.len() == 2 * h.file_length
}

proof fn lemma_raw_records_split(nums: Seq<i32>, ms: Seq<Model>, k: int)
    requires
        nums.len() == ms.len(),
        0 <= k <= ms.len(),
    ensures
        raw_records(nums, ms) == raw_records(nums.take(k), ms.take(k)) + raw_records(
            nums.skip(k),
            ms.skip(k),
        ),
    decreases k,
{
    if k == 0 {
        assert(nums.skip(0) =~= nums);
        assert(ms.skip(0) =~= ms);
        assert(raw_records(nums.take(0), ms.take(0)) =~= Seq::<u8>::empty());
        assert(raw_records(nums, ms) =~= Seq::<u8>::empty() + raw_records(nums, ms));
    } else {
        lemma_raw_records_split(nums.drop_first(), ms.drop_first(), k - 1);
        assert(nums.drop_first().take(k - 1) =~= nums.take(k).drop_first());
        assert(ms.drop_first().take(k - 1) =~= ms.take(k).drop_first());
        assert(nums.drop_first().skip(k - 1) =~= nums.skip(k));
        assert(ms.drop_first().skip(k - 1) =~= ms.skip(k));
    }
}

pub(crate) proof fn lemma_raw_records_push(nums: Seq<i32>, ms: Seq<Model>, num: i32, m: Model)
    requires
        nums.len() == ms.len(),
    ensures
        raw_records(nums.push(num), ms.push(m)) == raw_records(nums, ms) + raw_record(num, m),
    decreases ms.len(),
{
    if ms.len() == 0 {
        assert(nums.push(num).drop_first() =~= Seq::<i32>::empty());
        assert(ms.push(m).drop_first() =~= Seq::<Model>::empty());
        assert(nums.push(num)[0] == num);
        assert(ms.push(m)[0] == m);
        assert(raw_records(Seq::<i32>::empty(), Seq::<Model>::empty()) == Seq::<u8>::empty());
        assert(raw_records(nums, ms) == Seq::<u8>::empty());
        assert(raw_records(nums.push(num), ms.push(m)) == raw_record(num, m) + raw_records(
            Seq::<i32>::empty(),
            Seq::<Model>::empty(),
        ));
        assert(raw_records(nums, ms) + raw_record(num, m) =~= raw_record(num, m) + Seq::<u8>::empty());
    } else {
        lemma_raw_records_push(nums.drop_first(), ms.drop_first(), num, m);
        assert(nums.push(num).drop_first() =~= nums.drop_first().push(num));
        assert(ms.push(m).drop_first() =~= ms.drop_first().push(m));
        assert(raw_records(nums.push(num), ms.push(m)) =~= raw_records(nums, ms) + raw_record(num, m));
    }
}

/// No header, record numbers and shapes lay out these bytes.
pub open spec fn no_file(b: Seq<u8>) -> bool {
    forall|h: Header, nums: Seq<i32>, ms: Seq<Model>| !#[trigger] file_layout(b, h, nums, ms)
}

/// Two valid headers of the same bytes agree on length and type.
proof fn lemma_headers_agree(b: Seq<u8>, h: Header, h2: Header)
    requires
        header_read(b, h),
        header_read(b, h2),
    ensures
        h.file_length == h2.file_length,
        h.shape_type == h2.shape_type,
{
    lemma_header_fields(h);
    lemma_header_fields(h2);
    lemma_header_len(h);
    lemma_header_len(h2);
    lemma_injective();
    assert(b.subrange(24, 28) =~= b.subrange(24, 100).subrange(0, 4));
    assert(b.subrange(32, 36) =~= b.subrange(24, 100).subrange(8, 12));
    assert(header_bytes(h).subrange(24, 28) =~= header_bytes(h).subrange(24, 100).subrange(0, 4));
    assert(header_bytes(h).subrange(32, 36) =~= header_bytes(h).subrange(24, 100).subrange(8, 12));
    assert(header_bytes(h2).subrange(24, 28) =~= header_bytes(h2).subrange(24, 100).subrange(0, 4));
    assert(header_bytes(h2).subrange(32, 36) =~= header_bytes(h2).subrange(24, 100).subrange(8, 12));
    lemma_code_injective(h.shape_type, h2.shape_type);
}

/// A record of number `num` and shape `m` lies at `pos`, its shape being
/// null or of type `ht`.
pub open spec fn record_at(b: Seq<u8>, pos: int, ht: ShapeType, num: i32, m: Model) -> bool {
    &&& m.wf()
    &&& (m.kind == ShapeType::NullShape || m.kind == ht)
    &&& content_length(m) <= i32::MAX
    &&& 0 <= pos
    &&& pos + 12 + size(m) <= b.len()
    &&& b.subrange(pos, pos + 12 + size(m)) == raw_record(num, m)
}

proof fn lemma_record_split(b: Seq<u8>, pos: int, num: i32, cl: i32, code: i32, p: Seq<u8>)
    requires
        0 <= pos,
        pos + 12 + p.len() <= b.len(),
        b.subrange(pos, pos + 12 + p.len()) == be32(num) + be32(cl) + le32(code) + p,
    ensures
        b.subrange(pos, pos + 4) == be32(num),
        b.subrange(pos + 4, pos + 8) == be32(cl),
        b.subrange(pos + 8, pos + 12) == le32(code),
        b.subrange(pos + 12, pos + 12 + p.len()) == p,
{
    lemma_sizes();
    let rec = be32(num) + be32(cl) + le32(code) + p;
    let w = b.subrange(pos, pos + 12 + p.len());
    assert(b.subrange(pos, pos + 4) =~= w.subrange(0, 4));
    assert(b.subrange(pos + 4, pos + 8) =~= w.subrange(4, 8));
    assert(b.subrange(pos + 8, pos + 12) =~= w.subrange(8, 12));
    assert(b.subrange(pos + 12, pos + 12 + p.len()) =~= w.subrange(12, 12 + p.len() as int));
    assert(rec.subrange(0, 4) =~= be32(num));
    assert(rec.subrange(4, 8) =~= be32(cl));
    assert(rec.subrange(8, 12) =~= le32(code));
    assert(rec.subrange(12, 12 + p.len() as int) =~= p);
}

proof fn lemma_record_fields(b: Seq<u8>, pos: int, ht: ShapeType, num: i32, m: Model)
    requires
        record_at(b, pos, ht, num, m),
    ensures
        b.subrange(pos, pos + 4) == be32(num),
        b.subrange(pos + 4, pos + 8) == be32(content_length(m) as i32),
        b.subrange(pos + 8, pos + 12) == le32(spec_code(m.kind)),
        b.subrange(pos + 12, pos + 12 + size(m)) == payload(m),
        2 * content_length(m) == 4 + size(m),
{
    lemma_size(m);
    lemma_record_split(b, pos, num, content_length(m) as i32, spec_code(m.kind), payload(m));
}

/// Reads the record at `pos` of a file of type `ht`: its number, its
/// shape and where the next record starts.
#[verifier::rlimit(60)]
#[verifier::spinoff_prover]
pub fn read_record(b: &[u8], pos: usize, ht: ShapeType) -> (r: Result<(i32, Shape, usize), Error>)
    ensures
        match r {
            Ok((num, s, next)) => {
                &&& record_at(b@, pos as int, ht, num, s.model())
                &&& next == pos + 12 + size(s.model())
                &&& forall|num2: i32, m2: Model| #[trigger]
                    record_at(b@, pos as int, ht, num2, m2) ==> num2 == num && m2 == s.model()
            },
            Err(e) => {
                &&& e is MalformedRecord || e is UnsupportedShapeType
                &&& forall|num2: i32, m2: Model| !#[trigger] record_at(b@, pos as int, ht, num2, m2)
            },
        },
{
    let len = b.len();
    if pos > len || len - pos < 12 {
        proof {
            assert forall|num2: i32, m2: Model| !#[trigger] record_at(b@, pos as int, ht, num2, m2) by {
                if record_at(b@, pos as int, ht, num2, m2) {
                    lemma_size(m2);
                }
            }
        }
        return Err(Error::MalformedRecord);
    }
    let num = read_i32_be(b, pos);
    let clen = read_i32_be(b, pos + 4);
    let tag = read_i32_le(b, pos + 8);
    if clen < 2 || (2 * (clen as i64) - 4) as u64 > (len - pos - 12) as u64 {
        proof {
            assert forall|num2: i32, m2: Model| !#[trigger] record_at(b@, pos as int, ht, num2, m2) by {
                if record_at(b@, pos as int, ht, num2, m2) {
                    lemma_record_fields(b@, pos as int, ht, num2, m2);
                    lemma_size(m2);
                    lemma_injective();
                }
            }
        }
        return Err(Error::MalformedRecord);
    }
    let plen = (2 * (clen as i64) - 4) as usize;
    let t = match ShapeType::from_code(tag) {
        Some(t) => t,
        None => {
            proof {
                assert forall|num2: i32, m2: Model| !#[trigger] record_at(b@, pos as int, ht, num2, m2) by {
                    if record_at(b@, pos as int, ht, num2, m2) {
                        lemma_record_fields(b@, pos as int, ht, num2, m2);
                        lemma_injective();
                    }
                }
            }
            return Err(Error::UnsupportedShapeType(tag));
        },
    };
    if t != ShapeType::NullShape && t != ht {
        proof {
            assert forall|num2: i32, m2: Model| !#[trigger] record_at(b@, pos as int, ht, num2, m2) by {
                if record_at(b@, pos as int, ht, num2, m2) {
                    lemma_record_fields(b@, pos as int, ht, num2, m2);
                    lemma_injective();
                    lemma_code_injective(t, m2.kind);
                }
            }
        }
        return Err(Error::MalformedRecord);
    }
    let x = slice_subrange(b, pos + 12, pos + 12 + plen);
    match read_payload(t, x) {
        Ok(shape) => {
            proof {
                let m = shape.model();
                lemma_size(m);
                lemma_sizes();
                assert(b@.subrange(pos as int, pos + 12 + plen) =~= raw_record(num, m));
                assert forall|num2: i32, m2: Model| #[trigger]
                    record_at(b@, pos as int, ht, num2, m2) implies num2 == num && m2 == m by {
                    lemma_record_fields(b@, pos as int, ht, num2, m2);
                    lemma_injective();
                    lemma_code_injective(t, m2.kind);
                }
            }
            Ok((num, shape, pos + 12 + plen))
        },
        Err(_) => {
            proof {
                assert forall|num2: i32, m2: Model| !#[trigger] record_at(b@, pos as int, ht, num2, m2) by {
                    if record_at(b@, pos as int, ht, num2, m2) {
                        lemma_record_fields(b@, pos as int, ht, num2, m2);
                        lemma_injective();
                        lemma_code_injective(t, m2.kind);
                    }
                }
            }
            Err(Error::MalformedRecord)
        },
    }
}

/// In a layout whose first records are those read so far, the next one
/// lies at `pos`, unless the file ends there.
#[verifier::rlimit(60)]
#[verifier::spinoff_prover]
proof fn lemma_next_record(
    b: Seq<u8>,
    pos: int,
    h: Header,
    nums: Seq<i32>,
    ms: Seq<Model>,
    h2: Header,
    nums2: Seq<i32>,
    ms2: Seq<Model>,
)
    requires
        header_read(b, h),
        file_layout(b, h2, nums2, ms2),
        100 <= pos <= b.len(),
        nums.len() == ms.len(),
        ms2.len() >= ms.len(),
        nums2.take(ms.len() as int) == nums,
        ms2.take(ms.len() as int) == ms,
        b.subrange(100, pos) == raw_records(nums, ms),
    ensures
        ms2.len() == ms.len() ==> pos == b.len(),
        ms2.len() > ms.len() ==> record_at(b, pos, h.shape_type, nums2[ms.len() as int], ms2[ms.len() as int]),
        h2.file_length == h.file_length,
{
    let k = ms.len() as int;
    lemma_headers_agree(b, h, h2);
    lemma_raw_records_split(nums2, ms2, k);
    let rest = raw_records(nums2.skip(k), ms2.skip(k));
    assert(b.subrange(100, b.len() as int) =~= b.subrange(100, pos) + b.subrange(pos, b.len() as int));
    lemma_concat_split(b.subrange(100, pos), b.subrange(pos, b.len() as int), raw_records(nums, ms), rest);
    if ms2.len() == k {
        assert(ms2.skip(k).len() == 0);
        assert(rest == Seq::<u8>::empty());
    } else {
        assert(ms2.skip(k)[0] == ms2[k]);
        assert(nums2.skip(k)[0] == nums2[k]);
        let m = ms2[k];
        assert(m.wf());
        lemma_size(m);
        lemma_sizes();
        let rec = raw_record(nums2[k], m);
        assert(rest == rec + raw_records(nums2.skip(k).drop_first(), ms2.skip(k).drop_first()));
        assert(b.subrange(pos, pos + rec.len()) =~= rec);
        assert(rec.len() == 12 + size(m));
    }
}

/// Reads a whole main file: its header and its shapes, in file order.
/// Record numbers are not checked, so files numbered from 0 are read too.
#[verifier::rlimit(80)]
#[verifier::spinoff_prover]
pub fn read(b: &[u8]) -> (r: Result<(Header, Vec<Shape>), Error>)
    ensures
        match r {
            Ok((h, s)) => {
                &&& exists|nums: Seq<i32>| file_layout(b@, h, nums, models(s@))
                &&& forall|h2: Header, nums2: Seq<i32>, ms2: Seq<Model>|
                    #[trigger] file_layout(b@, h2, nums2, ms2) ==> ms2 == models(s@)
            },
            Err(e) => no_file(b@) && !(e is MismatchShapeType),
        },
{
    let h = match Header::read_from(b) {
        Ok(h) => h,
        Err(e) => {
            proof {
                assert forall|h2: Header, nums2: Seq<i32>, ms2: Seq<Model>|
                    !#[trigger] file_layout(b@, h2, nums2, ms2) by {
                    if file_layout(b@, h2, nums2, ms2) {
                        lemma_header_fields(h2);
                        lemma_header_len(h2);
                        lemma_injective();
                        assert(b@.subrange(28, 32) =~= b@.subrange(24, 100).subrange(4, 8));
                        assert(b@.subrange(32, 36) =~= b@.subrange(24, 100).subrange(8, 12));
                        assert(header_bytes(h2).subrange(28, 32) =~= header_bytes(h2).subrange(24, 100).subrange(4, 8));
                        assert(header_bytes(h2).subrange(32, 36) =~= header_bytes(h2).subrange(24, 100).subrange(8, 12));
                    }
                }
            }
            return Err(e);
        },
    };
    let len = b.len();
    let mut pos: usize = 100;
    let mut shapes: Vec<Shape> = Vec::new();
    let ghost mut nums: Seq<i32> = Seq::empty();
    proof {
        assert(b@.subrange(100, 100) =~= raw_records(nums, models(shapes@)));
        assert forall|h2: Header, nums2: Seq<i32>, ms2: Seq<Model>|
            #[trigger] file_layout(b@, h2, nums2, ms2) implies nums2.take(0) == nums && ms2.take(0)
            == models(shapes@) by {
            assert(nums2.take(0) =~= nums);
            assert(ms2.take(0) =~= models(shapes@));
        }
    }
    while pos < len
        invariant
            len == b@.len(),
            100 <= pos <= len,
            header_read(b@, h),
            nums.len() == shapes@.len(),
            b@.subrange(100, pos as int) == raw_records(nums, models(shapes@)),
            forall|h2: Header, nums2: Seq<i32>, ms2: Seq<Model>|
                #[trigger] file_layout(b@, h2, nums2, ms2) ==> ms2.len() >= shapes@.len()
                    && nums2.take(shapes@.len() as int) == nums && ms2.take(shapes@.len() as int)
                    == models(shapes@),
            forall|i: int|
                0 <= i < shapes@.len() ==> #[trigger] shapes@[i].wf() && (shapes@[i].model().kind
                    == ShapeType::NullShape || shapes@[i].model().kind == h.shape_type),
        decreases len - pos,
    {
        let ghost k = shapes@.len() as int;
        let ghost ms = models(shapes@);
        match read_record(b, pos, h.shape_type) {
            Ok((num, shape, next)) => {
                proof {
                    lemma_size(shape.model());
                    lemma_raw_records_push(nums, ms, num, shape.model());
                    assert(models(shapes@.push(shape)) =~= ms.push(shape.model()));
                    assert(b@.subrange(100, next as int) =~= b@.subrange(100, pos as int) + raw_record(
                        num,
                        shape.model(),
                    ));
                    assert forall|h2: Header, nums2: Seq<i32>, ms2: Seq<Model>|
                        #[trigger] file_layout(b@, h2, nums2, ms2) implies ms2.len() >= k + 1
                            && nums2.take(k + 1) == nums.push(num) && ms2.take(k + 1) == ms.push(
                            shape.model(),
                        ) by {
                        lemma_next_record(b@, pos as int, h, nums, ms, h2, nums2, ms2);
                        assert(ms2.take(k + 1) =~= ms2.take(k).push(ms2[k]));
                        assert(nums2.take(k + 1) =~= nums2.take(k).push(nums2[k]));
                    }
                }
                let ghost before = shapes@;
                let ghost sm = shape.model();
                assert(record_at(b@, pos as int, h.shape_type, num, sm));
                shapes.push(shape);
                proof {
                    nums = nums.push(num);
                    assert forall|i: int| 0 <= i < shapes@.len() implies #[trigger] shapes@[i].wf()
                        && (shapes@[i].model().kind == ShapeType::NullShape || shapes@[i].model().kind
                        == h.shape_type) by {
                        if i < k {
                            assert(shapes@[i] == before[i]);
                            assert(before[i].wf());
                        } else {
                            assert(shapes@[i].model() == sm);
                        }
                    }
                }
                pos = next;
            },
            Err(e) => {
                proof {
                    assert forall|h2: Header, nums2: Seq<i32>, ms2: Seq<Model>|
                        !#[trigger] file_layout(b@, h2, nums2, ms2) by {
                        if file_layout(b@, h2, nums2, ms2) {
                            lemma_next_record(b@, pos as int, h, nums, ms, h2, nums2, ms2);
                        }
                    }
                }
                return Err(e);
            },
        }
    }
    if h.file_length < 0 || 2 * (h.file_length as u64) != len as u64 {
        proof {
            assert forall|h2: Header, nums2: Seq<i32>, ms2: Seq<Model>|
                !#[trigger] file_layout(b@, h2, nums2, ms2) by {
                if file_layout(b@, h2, nums2, ms2) {
                    lemma_headers_agree(b@, h, h2);
                }
            }
        }
        return Err(Error::MalformedRecord);
    }
    proof {
        assert forall|i: int| 0 <= i < models(shapes@).len() implies #[trigger] models(shapes@)[i].wf()
            && (models(shapes@)[i].kind == ShapeType::NullShape || models(shapes@)[i].kind
            == h.shape_type) by {
            assert(shapes@[i].wf());
            assert(models(shapes@)[i] == shapes@[i].model());
        }
        assert(len == 2 * h.file_length);
        assert(b@.subrange(100, len as int) == raw_records(nums, models(shapes@)));
        assert(pos == len);
        assert(header_read(b@, h));
        assert(nums.len() == models(shapes@).len());
        assert(b@.subrange(100, b@.len() as int) == raw_records(nums, models(shapes@)));
        assert(b@.len() == 2 * h.file_length);
        lemma_models_of_type(shapes@, h.shape_type);
        assert(file_layout(b@, h, nums, models(shapes@)));
        assert forall|h2: Header, nums2: Seq<i32>, ms2: Seq<Model>|
            #[trigger] file_layout(b@, h2, nums2, ms2) implies ms2 == models(shapes@) by {
            lemma_next_record(b@, pos as int, h, nums, models(shapes@), h2, nums2, ms2);
            if ms2.len() > shapes@.len() {
                lemma_size(ms2[shapes@.len() as int]);
            }
            assert(ms2 =~= ms2.take(shapes@.len() as int));
        }
        assert(exists|nums2: Seq<i32>| file_layout(b@, h, nums2, models(shapes@)));
    }
    let ghost ms_f = models(shapes@);
    let res: (Header, Vec<Shape>) = (h, shapes);
    assert(models(res.1@) =~= ms_f);
    assert(file_layout(b@, res.0, nums, models(res.1@)));
    Ok(res)
}

/// Reads a whole main file whose header declares `requested`, and fails
/// with `MismatchShapeType` when it declares another type.
pub fn read_as(b: &[u8], requested: ShapeType) -> (r: Result<Vec<Shape>, Error>)
    ensures
        match r {
            Ok(s) => {
                &&& !no_file(b@)
                &&& forall|h2: Header, nums2: Seq<i32>, ms2: Seq<Model>|
                    #[trigger] file_layout(b@, h2, nums2, ms2) ==> ms2 == models(s@)
                        && h2.shape_type == requested
            },
            Err(Error::MismatchShapeType { requested: q, actual }) => {
                &&& q == requested
                &&& actual != requested
                &&& exists|h: Header, nums: Seq<i32>, ms: Seq<Model>|
                    #[trigger] file_layout(b@, h, nums, ms) && h.shape_type == actual
            },
            Err(_) => no_file(b@),
        },
{
    match read(b) {
        Ok((h, shapes)) => {
            let ghost nums = choose|nums: Seq<i32>| file_layout(b@, h, nums, models(shapes@));
            assert(file_layout(b@, h, nums, models(shapes@)));
            if h.shape_type == requested {
                let ghost ms = models(shapes@);
                let out: Vec<Shape> = shapes;
                assert(models(out@) =~= ms);
                assert(file_layout(b@, h, nums, models(out@)));
                assert forall|h2: Header, nums2: Seq<i32>, ms2: Seq<Model>|
                    #[trigger] file_layout(b@, h2, nums2, ms2) implies ms2 == models(out@)
                        && h2.shape_type == requested by {
                    lemma_headers_agree(b@, h, h2);
                }
                Ok(out)
            } else {
                Err(Error::MismatchShapeType { requested, actual: h.shape_type })
            }
        },
        Err(e) => Err(e),
    }
}

impl Shape {
    /// Whether the shape satisfies the invariants of its kind (see
    /// `Model::wf`), which the writer asks of every shape.
    pub fn is_valid(&self) -> (r: bool)
        ensures
            r == self.wf(),
    {
        match self {
            Shape::NullShape | Shape::Point(_) | Shape::PointM(_) | Shape::PointZ(_) => {
                proof {
                    assert(self.model().parts =~= Seq::<i32>::empty());
                }
                true
            },
            Shape::Multipoint(g) | Shape::MultipointM(g) | Shape::MultipointZ(g)
            | Shape::Polyline(g) | Shape::Polygon(g) | Shape::PolylineM(g) | Shape::PolygonM(g)
            | Shape::PolylineZ(g) | Shape::PolygonZ(g) | Shape::Multipatch(g) => {
                let t = self.shape_type();
                let n = g.points.len();
                if n > i32::MAX as usize || g.parts.len() > i32::MAX as usize {
                    return false;
                }
                let zn: usize = if t.has_z() { n } else { 0 };
                let mn: usize = if t.has_m() { n } else { 0 };
                let no_trailer = t == ShapeType::MultipointZ && n > 0 && g.ms.len() == 0;
                if g.zs.len() != zn || (g.ms.len() != mn && !no_trailer) {
                    return false;
                }
                if !t.has_z() && (g.z_range.min != 0 || g.z_range.max != 0) {
                    return false;
                }
                if !(t.has_m() && g.ms.len() == n) && (g.m_range.min != 0 || g.m_range.max != 0) {
                    return false;
                }
                let pt: usize = if t == ShapeType::Multipatch { g.parts.len() } else { 0 };
                if g.part_types.len() != pt {
                    return false;
                }
                if t.is_multipoint() {
                    g.parts.len() == 0
                } else {
                    check_parts(&g.parts, n)
                }
            },
        }
    }
}

} // verus!
