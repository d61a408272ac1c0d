//! Properties that relate the writer, the index and the reader.
use crate::bytes::{be32, ints_bytes, le32, lemma_sizes};
use crate::codec::{lemma_size, normalized, payload, size};
use crate::float::{key, spec_is_nan, NEG_INF, POS_INF};
use crate::header::{header_bytes, header_read, lemma_header_len, Header, FILE_CODE};
use crate::reader::{
    file_layout, lemma_multipart_fields, lemma_raw_records_push, models, no_file, raw_record,
    raw_records, shapes_of_type,
};
use crate::shape::{is_multipart, parts_valid, spec_code, Model, Shape, ShapeType};
use crate::writer::{
    all_wf, combine, content_length, file_header, file_type, fits, fold_bounds, homogeneous,
    index_entries, index_header, lemma_records_bytes_len, lemma_records_len_wf, lemma_step, offset,
    record_bytes, records_bytes, records_len, shape_bounds, shp_bytes, shx_bytes, Bounds,
};
use vstd::prelude::*;

verus! {

/// The header's length, in 16-bit words, is half the number of bytes
/// written to the main file.
pub proof fn lemma_length_consistency(s: Seq<Shape>)
    requires
        all_wf(s),
        fits(s),
    ensures
        file_header(s).file_length * 2 == shp_bytes(s).len(),
{
    lemma_header_len(file_header(s));
    lemma_records_bytes_len(s);
    lemma_records_len_wf(s, s.len() as int);
    assert(s.take(s.len() as int) =~= s);
}

/// `a` is below or equal to `b` as doubles, NaN left aside.
pub open spec fn le_or_nan(a: u64, b: u64) -> bool {
    spec_is_nan(a) || spec_is_nan(b) || key(a) <= key(b)
}

/// The bounds `outer` enclose `inner` on every coordinate that is not NaN.
pub open spec fn encloses(outer: Bounds, inner: Bounds) -> bool {
    &&& le_or_nan(outer.xmin, inner.xmin)
    &&& le_or_nan(outer.ymin, inner.ymin)
    &&& le_or_nan(inner.xmax, outer.xmax)
    &&& le_or_nan(inner.ymax, outer.ymax)
    &&& le_or_nan(outer.zmin, inner.zmin)
    &&& le_or_nan(inner.zmax, outer.zmax)
    &&& le_or_nan(outer.mmin, inner.mmin)
    &&& le_or_nan(inner.mmax, outer.mmax)
}

/// No field of the bounds is NaN.
pub open spec fn no_nan(b: Bounds) -> bool {
    &&& !spec_is_nan(b.xmin)
    &&& !spec_is_nan(b.ymin)
    &&& !spec_is_nan(b.xmax)
    &&& !spec_is_nan(b.ymax)
    &&& !spec_is_nan(b.zmin)
    &&& !spec_is_nan(b.zmax)
    &&& !spec_is_nan(b.mmin)
    &&& !spec_is_nan(b.mmax)
}

/// The aggregate never holds a NaN: it starts at the infinities and a NaN
/// value is never taken in.
pub proof fn lemma_fold_no_nan(s: Seq<Shape>)
    ensures
        no_nan(fold_bounds(s)),
    decreases s.len(),
{
    if s.len() == 0 {
        assert(!spec_is_nan(POS_INF)) by (bit_vector);
        assert(!spec_is_nan(NEG_INF)) by (bit_vector);
    } else {
        lemma_fold_no_nan(s.drop_last());
    }
}

proof fn lemma_combine_encloses(a: Bounds, b: Bounds, c: Bounds)
    requires
        no_nan(a),
        encloses(a, c),
    ensures
        encloses(combine(a, b), c),
{
}

proof fn lemma_combine_encloses_new(a: Bounds, b: Bounds)
    ensures
        encloses(combine(a, b), b),
{
}

/// The aggregated bounds enclose those of every shape, coordinate-wise,
/// NaN coordinates left aside.
pub proof fn lemma_bbox_dominance(s: Seq<Shape>, i: int)
    requires
        0 <= i < s.len(),
    ensures
        encloses(fold_bounds(s), shape_bounds(s[i].model())),
    decreases s.len(),
{
    if i == s.len() - 1 {
        lemma_combine_encloses_new(fold_bounds(s.drop_last()), shape_bounds(s.last().model()));
    } else {
        lemma_bbox_dominance(s.drop_last(), i);
        lemma_fold_no_nan(s.drop_last());
        assert(s.drop_last()[i] == s[i]);
        lemma_combine_encloses(fold_bounds(s.drop_last()), shape_bounds(s.last().model()), shape_bounds(s[i].model()));
    }
}

/// Entry `i` of the index holds the offset, in 16-bit words, at which
/// record `i` starts in the main file, and that record's content length;
/// the main file holds, at that offset, the record's header with the same
/// content length.
pub proof fn lemma_index_coherence(s: Seq<Shape>, i: int)
    requires
        all_wf(s),
        fits(s),
        0 <= i < s.len(),
    ensures
        2 * offset(s.take(i)) == 100 + records_bytes(s.take(i)).len(),
        shx_bytes(s).subrange(100 + 8 * i, 108 + 8 * i) == be32(offset(s.take(i)) as i32) + be32(
            content_length(s[i].model()) as i32,
        ),
        shp_bytes(s).subrange(2 * offset(s.take(i)), 2 * offset(s.take(i)) + 8) == be32(
            (i + 1) as i32,
        ) + be32(content_length(s[i].model()) as i32),
{
    lemma_index_entry(s, i);
    lemma_record_entry(s, i);
}

#[verifier::rlimit(60)]
#[verifier::spinoff_prover]
proof fn lemma_index_entry(s: Seq<Shape>, i: int)
    requires
        0 <= i < s.len(),
    ensures
        shx_bytes(s).subrange(100 + 8 * i, 108 + 8 * i) == be32(offset(s.take(i)) as i32) + be32(
            content_length(s[i].model()) as i32,
        ),
{
    lemma_sizes();
    lemma_step(s, i);
    lemma_index_prefix(s, i + 1, s.len() as int);
    lemma_index_len(s.take(i));
    lemma_index_len(s.take(i + 1));
    let e = index_entries(s.take(i + 1));
    assert(e == index_entries(s.take(i)) + be32(offset(s.take(i)) as i32) + be32(content_length(s[i].model()) as i32));
    assert(s.take(s.len() as int) =~= s);
    lemma_header_len(crate::writer::index_header(s));
    assert(shx_bytes(s).subrange(100 + 8 * i, 108 + 8 * i) =~= e.subrange(8 * i, 8 * i + 8));
}

#[verifier::rlimit(60)]
#[verifier::spinoff_prover]
proof fn lemma_record_entry(s: Seq<Shape>, i: int)
    requires
        all_wf(s),
        fits(s),
        0 <= i < s.len(),
    ensures
        2 * offset(s.take(i)) == 100 + records_bytes(s.take(i)).len(),
        shp_bytes(s).subrange(2 * offset(s.take(i)), 2 * offset(s.take(i)) + 8) == be32(
            (i + 1) as i32,
        ) + be32(content_length(s[i].model()) as i32),
{
    lemma_sizes();
    assert(all_wf(s.take(i))) by {
        assert forall|j: int| 0 <= j < s.take(i).len() implies #[trigger] s.take(i)[j].wf() by {
            assert(s.take(i)[j] == s[j]);
        }
    }
    lemma_records_bytes_len(s.take(i));
    lemma_records_len_wf(s, i);
    lemma_step(s, i);
    lemma_records_prefix(s, i + 1, s.len() as int);
    assert(s.take(s.len() as int) =~= s);
    lemma_header_len(file_header(s));
    let r = records_bytes(s.take(i + 1));
    assert(r == records_bytes(s.take(i)) + record_bytes(i, s[i].model()));
    let rb = records_bytes(s.take(i)).len() as int;
    assert(shp_bytes(s).subrange(100 + rb, 108 + rb) =~= r.subrange(rb, rb + 8));
}

proof fn lemma_index_len(s: Seq<Shape>)
    ensures
        index_entries(s).len() == 8 * s.len(),
    decreases s.len(),
{
    lemma_sizes();
    if s.len() > 0 {
        lemma_index_len(s.drop_last());
    }
}

proof fn lemma_index_prefix(s: Seq<Shape>, i: int, j: int)
    requires
        0 <= i <= j <= s.len(),
    ensures
        index_entries(s.take(i)).len() <= index_entries(s.take(j)).len(),
        index_entries(s.take(j)).subrange(0, index_entries(s.take(i)).len() as int) == index_entries(
            s.take(i),
        ),
    decreases j,
{
    if i < j {
        lemma_index_prefix(s, i, j - 1);
        lemma_step(s, j - 1);
        let a = index_entries(s.take(j - 1));
        let t = index_entries(s.take(i));
        assert(index_entries(s.take(j)).len() >= a.len());
        assert(index_entries(s.take(j)).subrange(0, t.len() as int) =~= a.subrange(0, t.len() as int));
    } else {
        assert(index_entries(s.take(j)).subrange(0, index_entries(s.take(i)).len() as int) =~= index_entries(s.take(i)));
    }
}

proof fn lemma_records_prefix(s: Seq<Shape>, i: int, j: int)
    requires
        0 <= i <= j <= s.len(),
    ensures
        records_bytes(s.take(i)).len() <= records_bytes(s.take(j)).len(),
        records_bytes(s.take(j)).subrange(0, records_bytes(s.take(i)).len() as int) == records_bytes(
            s.take(i),
        ),
    decreases j,
{
    if i < j {
        lemma_records_prefix(s, i, j - 1);
        lemma_step(s, j - 1);
        let a = records_bytes(s.take(j - 1));
        let t = records_bytes(s.take(i));
        assert(records_bytes(s.take(j)).len() >= a.len());
        assert(records_bytes(s.take(j)).subrange(0, t.len() as int) =~= a.subrange(0, t.len() as int));
    } else {
        assert(records_bytes(s.take(j)).subrange(0, records_bytes(s.take(i)).len() as int) =~= records_bytes(s.take(i)));
    }
}

/// The models of the shapes, with z and m values as the writer stores them.
pub open spec fn stored_models(s: Seq<Shape>) -> Seq<Model> {
    Seq::new(s.len(), |i: int| normalized(s[i].model()))
}

/// Record numbers from 1.
pub open spec fn record_numbers(n: nat) -> Seq<i32> {
    Seq::new(n, |i: int| (i + 1) as i32)
}

proof fn lemma_records_raw(s: Seq<Shape>, k: int)
    requires
        all_wf(s),
        0 <= k <= s.len(),
    ensures
        records_bytes(s.take(k)) == raw_records(record_numbers(s.len()).take(k), stored_models(s).take(k)),
    decreases k,
{
    if k == 0 {
        assert(s.take(0).len() == 0);
        assert(stored_models(s).take(0).len() == 0);
    } else {
        lemma_records_raw(s, k - 1);
        lemma_step(s, k - 1);
        let nums = record_numbers(s.len());
        let ms = stored_models(s);
        lemma_raw_records_push(nums.take(k - 1), ms.take(k - 1), nums[k - 1], ms[k - 1]);
        assert(nums.take(k) =~= nums.take(k - 1).push(nums[k - 1]));
        assert(ms.take(k) =~= ms.take(k - 1).push(ms[k - 1]));
        let m = s[k - 1].model();
        assert(s[k - 1].wf());
        lemma_size(m);
        assert(ms[k - 1] == normalized(m));
        assert(record_bytes(k - 1, m) == raw_record(nums[k - 1], normalized(m)));
    }
}

proof fn lemma_stored_of_type(s: Seq<Shape>)
    requires
        all_wf(s),
        homogeneous(s),
    ensures
        shapes_of_type(stored_models(s), file_type(s)),
{
    assert forall|i: int| 0 <= i < stored_models(s).len() implies #[trigger] stored_models(s)[i].wf()
        && (stored_models(s)[i].kind == ShapeType::NullShape || stored_models(s)[i].kind
        == file_type(s)) by {
        assert(s[i].wf());
        lemma_size(s[i].model());
        assert(stored_models(s)[i] == normalized(s[i].model()));
        assert(s[i].kind() == ShapeType::NullShape || s[i].kind() == file_type(s));
        assert(s[i].kind() == s[i].model().kind) by {
            match s[i] {
                Shape::NullShape => {},
                Shape::Point(_) => {},
                Shape::PointM(_) => {},
                Shape::PointZ(_) => {},
                Shape::Multipoint(_) => {},
                Shape::MultipointM(_) => {},
                Shape::MultipointZ(_) => {},
                Shape::Polyline(_) => {},
                Shape::Polygon(_) => {},
                Shape::PolylineM(_) => {},
                Shape::PolygonM(_) => {},
                Shape::PolylineZ(_) => {},
                Shape::PolygonZ(_) => {},
                Shape::Multipatch(_) => {},
            }
        }
    }
}

/// Reading what the writer wrote gives back the shapes in order, with z
/// and m values as stored: the written bytes are a valid file, and any
/// reading of them (every layout of the bytes, which is what `read`
/// returns) yields exactly the stored models.
#[verifier::rlimit(60)]
#[verifier::spinoff_prover]
pub proof fn lemma_round_trip(s: Seq<Shape>, out: Seq<Shape>)
    requires
        all_wf(s),
        homogeneous(s),
        fits(s),
        forall|h2: Header, nums2: Seq<i32>, ms2: Seq<Model>|
            #[trigger] file_layout(shp_bytes(s), h2, nums2, ms2) ==> ms2 == models(out),
    ensures
        !no_file(shp_bytes(s)),
        models(out) == stored_models(s),
{
    let b = shp_bytes(s);
    let h = file_header(s);
    let nums = record_numbers(s.len());
    let ms = stored_models(s);
    lemma_sizes();
    lemma_header_len(h);
    lemma_length_consistency(s);
    lemma_records_raw(s, s.len() as int);
    assert(s.take(s.len() as int) =~= s);
    assert(nums.take(s.len() as int) =~= nums);
    assert(ms.take(s.len() as int) =~= ms);
    assert(b.subrange(0, 4) =~= header_bytes(h).subrange(0, 4));
    assert(header_bytes(h).subrange(0, 4) =~= be32(FILE_CODE));
    assert(b.subrange(24, 100) =~= header_bytes(h).subrange(24, 100));
    assert(header_read(b, h));
    assert(b.subrange(100, b.len() as int) =~= records_bytes(s));
    lemma_stored_of_type(s);
    assert(file_layout(b, h, nums, ms));
}

/// The index file is twice as many bytes as its header's length says.
pub proof fn lemma_index_length(s: Seq<Shape>)
    requires
        all_wf(s),
        fits(s),
    ensures
        index_header(s).file_length * 2 == shx_bytes(s).len(),
        index_header(s).file_length == 50 + 4 * s.len(),
{
    lemma_header_len(index_header(s));
    lemma_index_len(s);
    lemma_records_len_wf(s, s.len() as int);
    assert(s.take(s.len() as int) =~= s);
}

/// Every record carries, after its header, the tag of its shape's type,
/// and that type is null or the file's.
pub proof fn lemma_type_homogeneity(s: Seq<Shape>, i: int)
    requires
        homogeneous(s),
        0 <= i < s.len(),
    ensures
        record_bytes(i, s[i].model()).subrange(8, 12) == le32(spec_code(s[i].kind())),
        s[i].kind() == ShapeType::NullShape || spec_code(s[i].kind()) == spec_code(
            file_header(s).shape_type,
        ),
{
    lemma_sizes();
    lemma_kind(s[i]);
    assert(record_bytes(i, s[i].model()).subrange(8, 12) =~= le32(spec_code(s[i].kind())));
}

/// The part starts written in a record of a kind with parts are those of
/// the shape: at least one, the first 0, strictly increasing, the last
/// below the point count written beside them.
pub proof fn lemma_parts_written(m: Model)
    requires
        m.wf(),
        is_multipart(m.kind),
    ensures
        ({
            let x = payload(normalized(m));
            &&& x.subrange(32, 36) == le32(m.parts.len() as i32)
            &&& x.subrange(36, 40) == le32(m.points.len() as i32)
            &&& x.subrange(40, 40 + 4 * m.parts.len() as int) == ints_bytes(m.parts)
            &&& parts_valid(m.parts, m.points.len() as int)
        }),
{
    lemma_size(m);
    lemma_multipart_fields(normalized(m), payload(normalized(m)));
}

proof fn lemma_kind(s: Shape)
    ensures
        s.kind() == s.model().kind,
{
    match s {
        Shape::NullShape => {},
        Shape::Point(_) => {},
        Shape::PointM(_) => {},
        Shape::PointZ(_) => {},
        Shape::Multipoint(_) => {},
        Shape::MultipointM(_) => {},
        Shape::MultipointZ(_) => {},
        Shape::Polyline(_) => {},
        Shape::Polygon(_) => {},
        Shape::PolylineM(_) => {},
        Shape::PolygonM(_) => {},
        Shape::PolylineZ(_) => {},
        Shape::PolygonZ(_) => {},
        Shape::Multipatch(_) => {},
    }
}

/// Field `k` of the bounds, in the order xmin, ymin, xmax, ymax, zmin,
/// zmax, mmin, mmax.
pub open spec fn bound_field(b: Bounds, k: int) -> u64 {
    if k == 0 {
        b.xmin
    } else if k == 1 {
        b.ymin
    } else if k == 2 {
        b.xmax
    } else if k == 3 {
        b.ymax
    } else if k == 4 {
        b.zmin
    } else if k == 5 {
        b.zmax
    } else if k == 6 {
        b.mmin
    } else {
        b.mmax
    }
}

/// The aggregated bounds are tight: each of them is either still its
/// starting infinity (no shape contributed) or the bound of some shape.
pub proof fn lemma_bbox_tight(s: Seq<Shape>, k: int)
    requires
        0 <= k < 8,
    ensures
        bound_field(fold_bounds(s), k) == bound_field(crate::writer::empty_bounds(), k) || exists|i: int|
            0 <= i < s.len() && bound_field(fold_bounds(s), k) == #[trigger] bound_field(
                shape_bounds(s[i].model()),
                k,
            ),
    decreases s.len(),
{
    if s.len() > 0 {
        let p = s.drop_last();
        lemma_bbox_tight(p, k);
        let last = s.len() - 1;
        assert(s[last] == s.last());
        if bound_field(fold_bounds(s), k) != bound_field(shape_bounds(s[last].model()), k) {
            assert(bound_field(fold_bounds(s), k) == bound_field(fold_bounds(p), k));
            if bound_field(fold_bounds(p), k) != bound_field(crate::writer::empty_bounds(), k) {
                let i = choose|i: int|
                    0 <= i < p.len() && bound_field(fold_bounds(p), k) == #[trigger] bound_field(
                        shape_bounds(p[i].model()),
                        k,
                    );
                assert(p[i] == s[i]);
            }
        }
    }
}

} // verus!
