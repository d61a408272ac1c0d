//! The writer: bounding-box aggregation, the main file and its index.
use crate::bytes::{be32, le32, lemma_sizes, push_i32_be, push_i32_le};
use crate::codec::{lemma_size, normalized, payload, size};
use crate::dbf::{encode_table, Table, MAX_RECORD_SIZE};
use crate::error::Error;
use crate::float::{
    is_no_data, key, max, min, spec_is_nan, spec_is_no_data, spec_max, spec_min, NEG_INF, POS_INF,
};
use crate::header::{header_bytes, lemma_header_len, Header, VERSION};
use crate::shape::{
    has_m, has_z, is_single, measured, spec_code, zero_extent, BBox, Extent, Model, Shape, ShapeType,
};
use vstd::prelude::*;

verus! {

/// What one shape contributes to the bounds of a file. A shape without
/// a dimension contributes the empty range `[+inf, -inf]` on it.
#[derive(Debug, Clone, Copy, PartialEq, Eq, Structural)]
pub struct Bounds {
    pub xmin: u64,
    pub ymin: u64,
    pub xmax: u64,
    pub ymax: u64,
    pub zmin: u64,
    pub zmax: u64,
    pub mmin: u64,
    pub mmax: u64,
}

pub open spec fn empty_bounds() -> Bounds {
    Bounds {
        xmin: POS_INF,
        ymin: POS_INF,
        xmax: NEG_INF,
        ymax: NEG_INF,
        zmin: POS_INF,
        zmax: NEG_INF,
        mmin: POS_INF,
        mmax: NEG_INF,
    }
}

pub open spec fn shape_bounds(m: Model) -> Bounds {
    let t = m.kind;
    let b = if t == ShapeType::NullShape {
        BBox { xmin: POS_INF, ymin: POS_INF, xmax: NEG_INF, ymax: NEG_INF }
    } else if is_single(t) {
        BBox { xmin: m.points[0].x, ymin: m.points[0].y, xmax: m.points[0].x, ymax: m.points[0].y }
    } else {
        m.bbox
    };
    let z = if !has_z(t) {
        Extent { min: POS_INF, max: NEG_INF }
    } else if is_single(t) {
        Extent { min: m.zs[0], max: m.zs[0] }
    } else {
        m.z_range
    };
    let mm = if !measured(m) || (is_single(t) && spec_is_no_data(m.ms[0])) {
        Extent { min: POS_INF, max: NEG_INF }
    } else if is_single(t) {
        Extent { min: m.ms[0], max: m.ms[0] }
    } else {
        m.m_range
    };
    Bounds {
        xmin: b.xmin,
        ymin: b.ymin,
        xmax: b.xmax,
        ymax: b.ymax,
        zmin: z.min,
        zmax: z.max,
        mmin: mm.min,
        mmax: mm.max,
    }
}

pub open spec fn combine(a: Bounds, b: Bounds) -> Bounds {
    Bounds {
        xmin: spec_min(a.xmin, b.xmin),
        ymin: spec_min(a.ymin, b.ymin),
        xmax: spec_max(a.xmax, b.xmax),
        ymax: spec_max(a.ymax, b.ymax),
        zmin: spec_min(a.zmin, b.zmin),
        zmax: spec_max(a.zmax, b.zmax),
        mmin: spec_min(a.mmin, b.mmin),
        mmax: spec_max(a.mmax, b.mmax),
    }
}

/// Coordinate-wise min/max over the shapes, NaN values left out.
pub open spec fn fold_bounds(s: Seq<Shape>) -> Bounds
    decreases s.len(),
{
    if s.len() == 0 {
        empty_bounds()
    } else {
        combine(fold_bounds(s.drop_last()), shape_bounds(s.last().model()))
    }
}

/// The shape type of a file: that of its first non-null shape.
pub open spec fn file_type(s: Seq<Shape>) -> ShapeType
    decreases s.len(),
{
    if s.len() == 0 {
        ShapeType::NullShape
    } else if file_type(s.drop_last()) != ShapeType::NullShape {
        file_type(s.drop_last())
    } else {
        s.last().kind()
    }
}

/// Every non-null shape has the file's type.
pub open spec fn homogeneous(s: Seq<Shape>) -> bool {
    forall|i: int|
        0 <= i < s.len() ==> #[trigger] s[i].kind() == ShapeType::NullShape || s[i].kind()
            == file_type(s)
}

/// Record content length in 16-bit words: the tag and the payload.
pub open spec fn content_length(m: Model) -> int {
    (4 + size(m)) / 2
}

/// The bytes of record number `i + 1`.
pub open spec fn record_bytes(i: int, m: Model) -> Seq<u8> {
    be32((i + 1) as i32) + be32(content_length(m) as i32) + le32(spec_code(m.kind)) + payload(
        normalized(m),
    )
}

pub open spec fn records_bytes(s: Seq<Shape>) -> Seq<u8>
    decreases s.len(),
{
    if s.len() == 0 {
        Seq::empty()
    } else {
        records_bytes(s.drop_last()) + record_bytes(s.len() - 1, s.last().model())
    }
}

/// Total length in bytes of the records.
pub open spec fn records_len(s: Seq<Shape>) -> int
    decreases s.len(),
{
    if s.len() == 0 {
        0
    } else {
        records_len(s.drop_last()) + 12 + size(s.last().model())
    }
}

/// The file's length in 16-bit words fits in a signed 32-bit integer.
pub open spec fn fits(s: Seq<Shape>) -> bool {
    100 + records_len(s) <= 2 * i32::MAX
}

pub open spec fn range_or_zero(lo: u64, hi: u64) -> Extent {
    if lo == POS_INF {
        zero_extent()
    } else {
        Extent { min: lo, max: hi }
    }
}

/// The header of the main file written for the shapes.
pub open spec fn file_header(s: Seq<Shape>) -> Header {
    let b = fold_bounds(s);
    Header {
        file_length: ((100 + records_len(s)) / 2) as i32,
        version: VERSION,
        shape_type: file_type(s),
        bbox: BBox { xmin: b.xmin, ymin: b.ymin, xmax: b.xmax, ymax: b.ymax },
        z_range: range_or_zero(b.zmin, b.zmax),
        m_range: range_or_zero(b.mmin, b.mmax),
    }
}

/// The main file written for the shapes.
pub open spec fn shp_bytes(s: Seq<Shape>) -> Seq<u8> {
    header_bytes(file_header(s)) + records_bytes(s)
}

/// Offset in 16-bit words of the record that follows the records of `s`.
pub open spec fn offset(s: Seq<Shape>) -> int {
    (100 + records_len(s)) / 2
}

pub open spec fn index_entries(s: Seq<Shape>) -> Seq<u8>
    decreases s.len(),
{
    if s.len() == 0 {
        Seq::empty()
    } else {
        index_entries(s.drop_last()) + be32(offset(s.drop_last()) as i32) + be32(
            content_length(s.last().model()) as i32,
        )
    }
}

/// The header of the index file: that of the main file but for its length.
pub open spec fn index_header(s: Seq<Shape>) -> Header {
    Header { file_length: (50 + 4 * s.len()) as i32, ..file_header(s) }
}

/// The index file written for the shapes.
pub open spec fn shx_bytes(s: Seq<Shape>) -> Seq<u8> {
    header_bytes(index_header(s)) + index_entries(s)
}

pub open spec fn all_wf(s: Seq<Shape>) -> bool {
    forall|i: int| 0 <= i < s.len() ==> #[trigger] s[i].wf()
}

/// `after` is `before` with `b` appended, when there is a buffer.
pub open spec fn appended(before: Option<Vec<u8>>, after: Option<Vec<u8>>, b: Seq<u8>) -> bool {
    match before {
        None => after is None,
        Some(v) => after is Some && after->Some_0@ == v@ + b,
    }
}

pub proof fn lemma_step<T>(s: Seq<T>, i: int)
    requires
        0 <= i < s.len(),
    ensures
        s.take(i + 1).drop_last() == s.take(i),
        s.take(i + 1).last() == s[i],
        s.take(i + 1).len() == i + 1,
{
    assert(s.take(i + 1).drop_last() =~= s.take(i));
}

proof fn lemma_size_bound(m: Model)
    requires
        m.wf(),
    ensures
        0 <= size(m) <= 0x100_0000_0000,
        size(m) % 4 == 0,
{
    lemma_size(m);
}

#[verifier::rlimit(60)]
#[verifier::spinoff_prover]
pub(crate) proof fn lemma_records_len_wf(s: Seq<Shape>, j: int)
    requires
        all_wf(s),
        0 <= j <= s.len(),
    ensures
        records_len(s.take(j)) % 4 == 0,
        records_len(s.take(j)) >= 12 * j,
    decreases j,
{
    if j > 0 {
        lemma_step(s, j - 1);
        assert(s[j - 1].wf());
        lemma_size_bound(s[j - 1].model());
        lemma_records_len_wf(s, j - 1);
    } else {
        assert(s.take(0) =~= Seq::<Shape>::empty());
    }
}

/// The records of a prefix take at least 12 bytes each, and a prefix is
/// no longer than the whole.
proof fn lemma_records_len_mono(s: Seq<Shape>, i: int, j: int)
    requires
        all_wf(s),
        0 <= i <= j <= s.len(),
    ensures
        records_len(s.take(i)) + 12 * (j - i) <= records_len(s.take(j)),
    decreases j,
{
    if i < j {
        lemma_step(s, j - 1);
        assert(s[j - 1].wf());
        lemma_size_bound(s[j - 1].model());
        lemma_records_len_mono(s, i, j - 1);
    }
}

pub(crate) proof fn lemma_records_bytes_len(s: Seq<Shape>)
    requires
        all_wf(s),
    ensures
        records_bytes(s).len() == records_len(s),
    decreases s.len(),
{
    lemma_sizes();
    if s.len() > 0 {
        assert(all_wf(s.drop_last())) by {
            assert forall|i: int| 0 <= i < s.drop_last().len() implies #[trigger] s.drop_last()[i].wf() by {
                assert(s.drop_last()[i] == s[i]);
            }
        }
        lemma_records_bytes_len(s.drop_last());
        assert(s[s.len() - 1].wf());
        lemma_size(s.last().model());
        lemma_size(normalized(s.last().model()));
    }
}

impl Shape {
    /// What the shape contributes to the bounds of a file.
    pub fn bounds(&self) -> (r: Bounds)
        requires
            self.wf(),
        ensures
            r == shape_bounds(self.model()),
    {
        let t = self.shape_type();
        match self {
            Shape::NullShape => Bounds {
                xmin: POS_INF,
                ymin: POS_INF,
                xmax: NEG_INF,
                ymax: NEG_INF,
                zmin: POS_INF,
                zmax: NEG_INF,
                mmin: POS_INF,
                mmax: NEG_INF,
            },
            Shape::Point(p) => Bounds {
                xmin: p.x,
                ymin: p.y,
                xmax: p.x,
                ymax: p.y,
                zmin: POS_INF,
                zmax: NEG_INF,
                mmin: POS_INF,
                mmax: NEG_INF,
            },
            Shape::PointM(p) => {
                let (mmin, mmax) = if is_no_data(p.m) {
                    (POS_INF, NEG_INF)
                } else {
                    (p.m, p.m)
                };
                Bounds {
                    xmin: p.x,
                    ymin: p.y,
                    xmax: p.x,
                    ymax: p.y,
                    zmin: POS_INF,
                    zmax: NEG_INF,
                    mmin,
                    mmax,
                }
            },
            Shape::PointZ(p) => {
                let (mmin, mmax) = if is_no_data(p.m) {
                    (POS_INF, NEG_INF)
                } else {
                    (p.m, p.m)
                };
                Bounds {
                    xmin: p.x,
                    ymin: p.y,
                    xmax: p.x,
                    ymax: p.y,
                    zmin: p.z,
                    zmax: p.z,
                    mmin,
                    mmax,
                }
            },
            Shape::Multipoint(g) | Shape::MultipointM(g) | Shape::MultipointZ(g)
            | Shape::Polyline(g) | Shape::Polygon(g) | Shape::PolylineM(g) | Shape::PolygonM(g)
            | Shape::PolylineZ(g) | Shape::PolygonZ(g) | Shape::Multipatch(g) => {
                let (zmin, zmax) = if t.has_z() {
                    (g.z_range.min, g.z_range.max)
                } else {
                    (POS_INF, NEG_INF)
                };
                let (mmin, mmax) = if t.has_m() && g.ms.len() == g.points.len() {
                    (g.m_range.min, g.m_range.max)
                } else {
                    (POS_INF, NEG_INF)
                };
                Bounds {
                    xmin: g.bbox.xmin,
                    ymin: g.bbox.ymin,
                    xmax: g.bbox.xmax,
                    ymax: g.bbox.ymax,
                    zmin,
                    zmax,
                    mmin,
                    mmax,
                }
            },
        }
    }
}

fn combine_bounds(a: &Bounds, b: &Bounds) -> (r: Bounds)
    ensures
        r == combine(*a, *b),
{
    Bounds {
        xmin: min(a.xmin, b.xmin),
        ymin: min(a.ymin, b.ymin),
        xmax: max(a.xmax, b.xmax),
        ymax: max(a.ymax, b.ymax),
        zmin: min(a.zmin, b.zmin),
        zmax: max(a.zmax, b.zmax),
        mmin: min(a.mmin, b.mmin),
        mmax: max(a.mmax, b.mmax),
    }
}

proof fn lemma_file_type_prefix(s: Seq<Shape>, i: int, j: int)
    requires
        0 <= i <= j <= s.len(),
        file_type(s.take(i)) != ShapeType::NullShape,
    ensures
        file_type(s.take(j)) == file_type(s.take(i)),
    decreases j,
{
    if i < j {
        lemma_step(s, j - 1);
        lemma_file_type_prefix(s, i, j - 1);
    }
}

/// Facts on the prefix of `i + 1` shapes, from those on the prefix of `i`.
proof fn lemma_prefix_step(s: Seq<Shape>, i: int)
    requires
        all_wf(s),
        fits(s),
        0 <= i < s.len(),
    ensures
        s[i].wf(),
        i + 1 <= i32::MAX,
        offset(s.take(i)) >= 50,
        offset(s.take(i)) + 4 + content_length(s[i].model()) == offset(s.take(i + 1)),
        offset(s.take(i + 1)) <= i32::MAX,
        records_bytes(s.take(i + 1)) == records_bytes(s.take(i)) + record_bytes(i, s[i].model()),
        index_entries(s.take(i + 1)) == index_entries(s.take(i)) + be32(offset(s.take(i)) as i32)
            + be32(content_length(s[i].model()) as i32),
{
    lemma_step(s, i);
    assert(s[i].wf());
    lemma_size_bound(s[i].model());
    lemma_records_len_mono(s, i + 1, s.len() as int);
    lemma_records_len_wf(s, i);
    lemma_records_len_wf(s, i + 1);
    assert(s.take(s.len() as int) =~= s);
}

/// Appends record number `i + 1` to `dest` and its index entry to `idx`.
fn write_record(dest: &mut Vec<u8>, idx: &mut Vec<u8>, i: usize, pos: i32, shape: &Shape) -> (clen:
    i32)
    requires
        shape.wf(),
        i + 1 <= i32::MAX,
        pos >= 0,
        pos + 4 + content_length(shape.model()) <= i32::MAX,
    ensures
        clen == content_length(shape.model()),
        final(dest)@ == old(dest)@ + record_bytes(i as int, shape.model()),
        final(idx)@ == old(idx)@ + be32(pos) + be32(clen),
{
    proof {
        lemma_size_bound(shape.model());
    }
    let sz = shape.size_in_bytes();
    let clen = ((4 + sz) / 2) as i32;
    push_i32_be(idx, pos);
    push_i32_be(idx, clen);
    push_i32_be(dest, (i + 1) as i32);
    push_i32_be(dest, clen);
    push_i32_le(dest, shape.shape_type().code());
    shape.write_to(dest);
    proof {
        assert(final(idx)@ =~= old(idx)@ + be32(pos) + be32(clen));
        assert(final(dest)@ =~= old(dest)@ + record_bytes(i as int, shape.model()));
    }
    clen
}

/// Writes shapes as a main file, and its index when a buffer for it was
/// given. Each file is appended to its byte buffer.
pub struct Writer {
    /// The main (.shp) file.
    pub dest: Vec<u8>,
    index_dest: Option<Vec<u8>>,
    dbase_dest: Option<Vec<u8>>,
}

impl Writer {
    pub closed spec fn main_sink(&self) -> Vec<u8> {
        self.dest
    }

    pub closed spec fn index_sink(&self) -> Option<Vec<u8>> {
        self.index_dest
    }

    pub closed spec fn dbase_sink(&self) -> Option<Vec<u8>> {
        self.dbase_dest
    }

    /// A writer whose main file goes to `dest`, with no index and no
    /// attribute table.
    pub fn new(dest: Vec<u8>) -> (r: Self)
        ensures
            r.main_sink() == dest,
            r.index_sink() is None,
            r.dbase_sink() is None,
    {
        Writer { dest, index_dest: None, dbase_dest: None }
    }

    /// Adds `dest` as the buffer where the index (.shx) file is written.
    pub fn add_index_dest(&mut self, dest: Vec<u8>)
        ensures
            final(self).index_sink() == Some(dest),
            final(self).main_sink() == old(self).main_sink(),
            final(self).dbase_sink() == old(self).dbase_sink(),
    {
        self.index_dest = Some(dest);
    }

    /// Adds `dest` as the buffer where the attribute (.dbf) table is written.
    pub fn add_dbase_dest(&mut self, dest: Vec<u8>)
        ensures
            final(self).dbase_sink() == Some(dest),
            final(self).main_sink() == old(self).main_sink(),
            final(self).index_sink() == old(self).index_sink(),
    {
        self.dbase_dest = Some(dest);
    }

    /// The three buffers: main file, index, attribute table.
    pub fn into_parts(self) -> (r: (Vec<u8>, Option<Vec<u8>>, Option<Vec<u8>>))
        ensures
            r == (self.main_sink(), self.index_sink(), self.dbase_sink()),
    {
        (self.dest, self.index_dest, self.dbase_dest)
    }

    /// Writes the shapes: the main file, and the index when there is a
    /// buffer for it. Fails, writing nothing, when a non-null shape is not
    /// of the type of the first non-null one, or when the file would be
    /// longer than a signed 32-bit count of 16-bit words.
    pub fn write_shapes(&mut self, shapes: Vec<Shape>) -> (r: Result<(), Error>)
        requires
            all_wf(shapes@),
        ensures
            final(self).dbase_sink() == old(self).dbase_sink(),
            match r {
                Ok(()) => {
                    &&& homogeneous(shapes@)
                    &&& fits(shapes@)
                    &&& final(self).main_sink()@ == old(self).main_sink()@ + shp_bytes(shapes@)
                    &&& appended(old(self).index_sink(), final(self).index_sink(), shx_bytes(shapes@))
                },
                Err(Error::MismatchShapeType { requested, actual }) => {
                    &&& !homogeneous(shapes@)
                    &&& requested == file_type(shapes@)
                    &&& exists|i: int| 0 <= i < shapes@.len() && #[trigger] shapes@[i].kind() == actual
                    &&& actual != ShapeType::NullShape
                    &&& actual != requested
                    &&& final(self).main_sink() == old(self).main_sink()
                    &&& final(self).index_sink() == old(self).index_sink()
                },
                Err(Error::FileTooLarge) => {
                    &&& homogeneous(shapes@)
                    &&& !fits(shapes@)
                    &&& final(self).main_sink() == old(self).main_sink()
                    &&& final(self).index_sink() == old(self).index_sink()
                },
                Err(_) => false,
            },
    {
        let n = shapes.len();
        let mut t = ShapeType::NullShape;
        let mut acc = Bounds {
            xmin: POS_INF,
            ymin: POS_INF,
            xmax: NEG_INF,
            ymax: NEG_INF,
            zmin: POS_INF,
            zmax: NEG_INF,
            mmin: POS_INF,
            mmax: NEG_INF,
        };
        let mut total: u128 = 0;
        let mut i: usize = 0;
        proof {
            assert(shapes@.take(0) =~= Seq::<Shape>::empty());
        }
        while i < n
            invariant
                n == shapes@.len(),
                i <= n,
                all_wf(shapes@),
                t == file_type(shapes@.take(i as int)),
                forall|j: int|
                    0 <= j < i ==> #[trigger] shapes@[j].kind() == ShapeType::NullShape
                        || shapes@[j].kind() == t,
                acc == fold_bounds(shapes@.take(i as int)),
                total == records_len(shapes@.take(i as int)),
                total <= i * 0x200_0000_0000,
            decreases n - i,
        {
            proof {
                lemma_step(shapes@, i as int);
                assert(shapes@[i as int].wf());
                lemma_size_bound(shapes@[i as int].model());
            }
            let k = shapes[i].shape_type();
            if k != ShapeType::NullShape {
                if t == ShapeType::NullShape {
                    t = k;
                } else if k != t {
                    proof {
                        lemma_file_type_prefix(shapes@, i as int, n as int);
                        assert(shapes@.take(n as int) =~= shapes@);
                        assert(shapes@[i as int].kind() == k);
                    }
                    return Err(Error::MismatchShapeType { requested: t, actual: k });
                }
            }
            let b = shapes[i].bounds();
            acc = combine_bounds(&acc, &b);
            let sz = shapes[i].size_in_bytes();
            total = total + 12 + sz as u128;
            i = i + 1;
        }
        proof {
            assert(shapes@.take(n as int) =~= shapes@);
        }
        if total + 100 > 0xffff_fffe {
            return Err(Error::FileTooLarge);
        }
        proof {
            lemma_records_len_wf(shapes@, n as int);
        }
        let z_range = if acc.zmin == POS_INF {
            Extent { min: 0, max: 0 }
        } else {
            Extent { min: acc.zmin, max: acc.zmax }
        };
        let m_range = if acc.mmin == POS_INF {
            Extent { min: 0, max: 0 }
        } else {
            Extent { min: acc.mmin, max: acc.mmax }
        };
        let header = Header {
            file_length: ((total + 100) / 2) as i32,
            version: VERSION,
            shape_type: t,
            bbox: BBox { xmin: acc.xmin, ymin: acc.ymin, xmax: acc.xmax, ymax: acc.ymax },
            z_range,
            m_range,
        };
        assert(header == file_header(shapes@));
        let ghost dest0 = self.dest@;
        header.write_to(&mut self.dest);
        let mut idx: Vec<u8> = Vec::new();
        let mut pos: i32 = 50;
        let mut i: usize = 0;
        while i < n
            invariant
                n == shapes@.len(),
                i <= n,
                all_wf(shapes@),
                fits(shapes@),
                self.dest@ == dest0 + header_bytes(header) + records_bytes(shapes@.take(i as int)),
                idx@ == index_entries(shapes@.take(i as int)),
                pos == offset(shapes@.take(i as int)),
                self.index_dest == old(self).index_dest,
                self.dbase_dest == old(self).dbase_dest,
            decreases n - i,
        {
            proof {
                lemma_prefix_step(shapes@, i as int);
            }
            let clen = write_record(&mut self.dest, &mut idx, i, pos, &shapes[i]);
            pos = pos + 4 + clen;
            i = i + 1;
        }
        proof {
            assert(shapes@.take(n as int) =~= shapes@);
        }
        let mut taken: Option<Vec<u8>> = None;
        std::mem::swap(&mut self.index_dest, &mut taken);
        if let Some(mut ix) = taken {
            let shx_header = Header { file_length: 50 + 4 * (n as i32), ..header };
            shx_header.write_to(&mut ix);
            ix.append(&mut idx);
            self.index_dest = Some(ix);
            assert(shx_header == index_header(shapes@));
            assert(ix@ =~= taken->Some_0@ + shx_bytes(shapes@));
        }
        assert(self.dest@ =~= old(self).dest@ + shp_bytes(shapes@));
        Ok(())
    }

    /// Writes the shapes as `write_shapes` does, then, when there is a
    /// buffer for it, the attribute records as a dBase table with the
    /// fields of `table`. There must be one record per shape.
    pub fn write_shapes_and_records(
        &mut self,
        shapes: Vec<Shape>,
        records: Vec<dbase::Record>,
        table: Table,
    ) -> (r: Result<(), Error>)
        requires
            all_wf(shapes@),
        ensures
            shapes@.len() != records@.len() <==> r matches Err(Error::MismatchedSinkLengths),
            shapes@.len() == records@.len() ==> {
                &&& (r matches Err(Error::MismatchShapeType { .. })) <==> !homogeneous(shapes@)
                &&& (r matches Err(Error::FileTooLarge)) <==> homogeneous(shapes@) && !fits(shapes@)
                &&& (r is Ok || (r matches Err(Error::DbaseError(_)))) <==> homogeneous(shapes@)
                    && fits(shapes@)
                &&& homogeneous(shapes@) && fits(shapes@) && old(self).dbase_sink() is None ==> r is Ok
            },
            r is Ok || (r matches Err(Error::MismatchedSinkLengths)) || (r matches Err(
                Error::MismatchShapeType { .. },
            )) || (r matches Err(Error::FileTooLarge)) || (r matches Err(Error::DbaseError(_))),
            match r {
                Err(Error::MismatchShapeType { requested, actual }) => {
                    &&& requested == file_type(shapes@)
                    &&& exists|i: int| 0 <= i < shapes@.len() && #[trigger] shapes@[i].kind() == actual
                    &&& actual != ShapeType::NullShape
                    &&& actual != requested
                },
                _ => true,
            },
            (r matches Err(Error::MismatchedSinkLengths)) || (r matches Err(
                Error::MismatchShapeType { .. },
            )) || (r matches Err(Error::FileTooLarge)) ==> {
                &&& final(self).main_sink() == old(self).main_sink()
                &&& final(self).index_sink() == old(self).index_sink()
                &&& final(self).dbase_sink() == old(self).dbase_sink()
            },
            (r is Ok || (r matches Err(Error::DbaseError(_)))) ==> {
                &&& final(self).main_sink()@ == old(self).main_sink()@ + shp_bytes(shapes@)
                &&& appended(old(self).index_sink(), final(self).index_sink(), shx_bytes(shapes@))
            },
            r matches Err(Error::DbaseError(_)) ==> {
                &&& old(self).dbase_sink() is Some
                &&& final(self).dbase_sink() == old(self).dbase_sink()
            },
            r is Ok ==> match old(self).dbase_sink() {
                None => final(self).dbase_sink() is None,
                Some(v) => final(self).dbase_sink() is Some && final(self).dbase_sink()->Some_0@.take(
                    v@.len() as int,
                ) == v@,
            },
    {
        if shapes.len() != records.len() {
            return Err(Error::MismatchedSinkLengths);
        }
        let written = self.write_shapes(shapes);
        match written {
            Ok(()) => {},
            Err(e) => {
                return Err(e);
            },
        }
        let mut taken: Option<Vec<u8>> = None;
        std::mem::swap(&mut self.dbase_dest, &mut taken);
        match taken {
            None => Ok(()),
            Some(mut d) => {
                let ghost before = d@;
                let record_size = table.record_size();
                assert(record_size <= MAX_RECORD_SIZE);
                match encode_table(table, &records) {
                    Ok(mut table_bytes) => {
                        d.append(&mut table_bytes);
                        assert(d@.take(before.len() as int) =~= before);
                        self.dbase_dest = Some(d);
                        Ok(())
                    },
                    Err(msg) => {
                        self.dbase_dest = Some(d);
                        Err(Error::DbaseError(msg))
                    },
                }
            },
        }
    }
}

} // verus!
