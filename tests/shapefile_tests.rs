use shapefile::bytes::{push_i32_be, push_i32_le, push_u64_le, read_i32_be};
use shapefile::float::{is_nan, is_no_data, lt, max, min, stored, stored_z, NO_DATA};
use shapefile::{
    FieldKind, Table, read, read_as, read_payload, BBox, Error, Extent, Geometry, PatchType, Point, PointM, PointZ,
    Shape, ShapeType, Writer,
};

fn b(v: f64) -> u64 {
    v.to_bits()
}

fn pt(x: f64, y: f64) -> Point {
    Point { x: b(x), y: b(y) }
}

fn bbox(xmin: f64, ymin: f64, xmax: f64, ymax: f64) -> BBox {
    BBox { xmin: b(xmin), ymin: b(ymin), xmax: b(xmax), ymax: b(ymax) }
}

fn ext(min: f64, max: f64) -> Extent {
    Extent { min: b(min), max: b(max) }
}

fn zero() -> Extent {
    Extent { min: 0, max: 0 }
}

fn write(shapes: Vec<Shape>) -> Vec<u8> {
    let mut w = Writer::new(Vec::new());
    w.write_shapes(shapes).unwrap();
    w.dest
}

fn polyline() -> Shape {
    Shape::Polyline(Geometry {
        bbox: bbox(1.0, 1.0, 5.0, 6.0),
        z_range: zero(),
        m_range: zero(),
        parts: vec![0, 5],
        part_types: vec![],
        points: vec![
            pt(1.0, 5.0),
            pt(5.0, 5.0),
            pt(5.0, 1.0),
            pt(3.0, 3.0),
            pt(1.0, 1.0),
            pt(3.0, 2.0),
            pt(2.0, 6.0),
        ],
        zs: vec![],
        ms: vec![],
    })
}

fn polyline_z() -> Shape {
    let xy = [
        (1.0, 5.0),
        (5.0, 5.0),
        (5.0, 1.0),
        (3.0, 3.0),
        (1.0, 1.0),
        (3.0, 2.0),
        (2.0, 6.0),
        (3.0, 2.0),
        (2.0, 6.0),
        (1.0, 9.0),
    ];
    let zs = [18.0, 20.0, 22.0, 0.0, 0.0, 0.0, 0.0, 15.0, 13.0, 14.0];
    let nd = f64::from_bits(NO_DATA);
    let ms = [nd, nd, nd, nd, nd, nd, nd, 0.0, 3.0, 2.0];
    Shape::PolylineZ(Geometry {
        bbox: bbox(1.0, 1.0, 5.0, 9.0),
        z_range: ext(0.0, 22.0),
        m_range: ext(0.0, 3.0),
        parts: vec![0, 5, 7],
        part_types: vec![],
        points: xy.iter().map(|&(x, y)| pt(x, y)).collect(),
        zs: zs.iter().map(|&z| b(z)).collect(),
        ms: ms.iter().map(|&m| b(m)).collect(),
    })
}

fn points_m() -> Vec<Shape> {
    vec![
        Shape::PointM(PointM { x: b(160477.9000324604), y: b(5403959.561417906), m: b(0.0) }),
        Shape::PointM(PointM { x: b(160467.63787299366), y: b(5403971.985031904), m: b(0.0) }),
    ]
}

fn points_z() -> Vec<Shape> {
    vec![
        Shape::PointZ(PointZ {
            x: b(1422464.3681007193),
            y: b(4188962.3364355816),
            z: b(72.40956470558095),
            m: NO_DATA,
        }),
        Shape::PointZ(PointZ {
            x: b(1422459.0908050265),
            y: b(4188942.211755641),
            z: b(72.58286959604922),
            m: NO_DATA,
        }),
    ]
}

fn point_file() -> Vec<u8> {
    write(vec![Shape::Point(pt(122.0, 37.0))])
}

#[test]
fn point_file_header_and_shape() {
    let bytes = point_file();
    assert_eq!(bytes.len(), 128);
    let (h, shapes) = read(&bytes).unwrap();
    assert_eq!(h.file_length, 64);
    assert_eq!(h.version, 1000);
    assert_eq!(h.shape_type, ShapeType::Point);
    assert_eq!(h.bbox, bbox(122.0, 37.0, 122.0, 37.0));
    assert_eq!(h.z_range, zero());
    assert_eq!(h.m_range, zero());
    assert_eq!(shapes, vec![Shape::Point(pt(122.0, 37.0))]);
}

#[test]
fn polyline_file_length() {
    let bytes = write(vec![polyline()]);
    let (h, shapes) = read(&bytes).unwrap();
    assert_eq!(h.file_length, 136);
    assert_eq!(h.shape_type, ShapeType::Polyline);
    assert_eq!(h.bbox, bbox(1.0, 1.0, 5.0, 6.0));
    assert_eq!(h.z_range, zero());
    assert_eq!(h.m_range, zero());
    assert_eq!(shapes, vec![polyline()]);
}

#[test]
fn polyline_z_header() {
    let bytes = write(vec![polyline_z()]);
    let (h, shapes) = read(&bytes).unwrap();
    assert_eq!(h.file_length, 258);
    assert_eq!(h.shape_type, ShapeType::PolylineZ);
    assert_eq!(h.bbox, bbox(1.0, 1.0, 5.0, 9.0));
    assert_eq!(h.z_range, ext(0.0, 22.0));
    assert_eq!(h.m_range, ext(0.0, 3.0));
    assert_eq!(shapes, vec![polyline_z()]);
    if let Shape::PolylineZ(g) = &shapes[0] {
        assert_eq!(g.parts, vec![0, 5, 7]);
    } else {
        panic!("not a PolylineZ");
    }
}

#[test]
fn point_m_pair_file_length() {
    let bytes = write(points_m());
    let (h, shapes) = read(&bytes).unwrap();
    assert_eq!(h.file_length, 86);
    assert_eq!(h.shape_type, ShapeType::PointM);
    assert_eq!(h.bbox, bbox(160467.63787299366, 5403959.561417906, 160477.9000324604, 5403971.985031904));
    assert_eq!(h.m_range, zero());
    assert_eq!(shapes, points_m());
}

#[test]
fn read_as_point() {
    let points = read_as(&point_file(), ShapeType::Point);
    assert_eq!(points.is_ok(), true);
    let points = points.unwrap();
    assert_eq!(points.len(), 1);
    assert_eq!(points[0], Shape::Point(pt(122.0, 37.0)));
}

#[test]
fn read_as_point_m() {
    let points_m_read = read_as(&write(points_m()), ShapeType::PointM);
    assert_eq!(points_m_read.is_ok(), true);
    let points_m_read = points_m_read.unwrap();
    assert_eq!(points_m_read.len(), 2);
    assert_eq!(points_m_read, points_m());
}

#[test]
fn read_as_point_z() {
    let bytes = write(points_z());
    let (h, _) = read(&bytes).unwrap();
    assert_eq!(h.file_length, 94);
    assert_eq!(h.z_range, ext(72.40956470558095, 72.58286959604922));
    let points_z_read = read_as(&bytes, ShapeType::PointZ).unwrap();
    assert_eq!(points_z_read.len(), 2);
    assert_eq!(points_z_read, points_z());
}

#[test]
fn read_point_as_wrong_type() {
    let points = read_as(&point_file(), ShapeType::PointM);
    if let Err(error) = points {
        match error {
            Error::MismatchShapeType { requested: ShapeType::PointM, actual: ShapeType::Point } => {}
            _ => assert!(false),
        }
    } else {
        assert!(false);
    }
}

fn multipatch() -> Shape {
    let points: Vec<Point> = (0..16).map(|i| pt(i as f64, (i % 5) as f64)).collect();
    Shape::Multipatch(Geometry {
        bbox: bbox(0.0, 0.0, 15.0, 4.0),
        z_range: ext(0.0, 5.0),
        m_range: ext(0.0, 0.0),
        parts: vec![0, 10],
        part_types: vec![PatchType::TriangleStrip, PatchType::TriangleFan],
        points,
        zs: (0..16).map(|i| b((i % 6) as f64)).collect(),
        ms: vec![b(0.0); 16],
    })
}

#[test]
fn multipatch_round_trip() {
    let bytes = write(vec![multipatch()]);
    let (h, shapes) = read(&bytes).unwrap();
    assert_eq!(h.shape_type, ShapeType::Multipatch);
    assert_eq!(h.file_length as usize * 2, bytes.len());
    assert_eq!(shapes, vec![multipatch()]);
}

#[test]
fn multipoint_kinds_round_trip() {
    let pts = vec![pt(122.0, 37.0), pt(124.0, 32.0)];
    let mp = Shape::Multipoint(Geometry {
        bbox: bbox(122.0, 32.0, 124.0, 37.0),
        z_range: zero(),
        m_range: zero(),
        parts: vec![],
        part_types: vec![],
        points: pts.clone(),
        zs: vec![],
        ms: vec![],
    });
    let bytes = write(vec![mp.clone()]);
    let (h, shapes) = read(&bytes).unwrap();
    assert_eq!(h.file_length, 90);
    assert_eq!(shapes, vec![mp]);
    let mz = Shape::MultipointZ(Geometry {
        bbox: bbox(122.0, 32.0, 124.0, 37.0),
        z_range: ext(1.0, 2.0),
        m_range: ext(0.0, 0.0),
        parts: vec![],
        part_types: vec![],
        points: pts,
        zs: vec![b(1.0), b(2.0)],
        ms: vec![b(0.0), b(0.0)],
    });
    let bytes = write(vec![mz.clone(), Shape::NullShape, mz.clone()]);
    let (h, shapes) = read(&bytes).unwrap();
    assert_eq!(h.shape_type, ShapeType::MultipointZ);
    assert_eq!(h.z_range, ext(1.0, 2.0));
    assert_eq!(shapes, vec![mz.clone(), Shape::NullShape, mz]);
}

#[test]
fn multipoint_z_layout_puts_z_range_before_count() {
    let mz = Shape::MultipointZ(Geometry {
        bbox: bbox(0.0, 0.0, 1.0, 1.0),
        z_range: ext(7.0, 8.0),
        m_range: zero(),
        parts: vec![],
        part_types: vec![],
        points: vec![pt(0.0, 0.0)],
        zs: vec![b(7.0)],
        ms: vec![b(0.0)],
    });
    let mut payload = Vec::new();
    mz.write_to(&mut payload);
    assert_eq!(mz.size_in_bytes() as usize, payload.len());
    assert_eq!(&payload[32..40], &7.0f64.to_le_bytes());
    assert_eq!(&payload[48..52], &1i32.to_le_bytes());
    assert_eq!(read_payload(ShapeType::MultipointZ, &payload).unwrap(), mz);
}

#[test]
fn index_file_entries() {
    let mut w = Writer::new(Vec::new());
    w.add_index_dest(Vec::new());
    w.write_shapes(vec![polyline(), polyline()]).unwrap();
    let (shp, shx, dbf) = w.into_parts();
    let shx = shx.unwrap();
    assert!(dbf.is_none());
    assert_eq!(shx.len(), 100 + 16);
    assert_eq!(read_i32_be(&shx, 24), 50 + 4 * 2);
    assert_eq!(&shx[0..24], &shp[0..24]);
    assert_eq!(&shx[28..100], &shp[28..100]);
    for i in 0..2usize {
        let offset = read_i32_be(&shx, 100 + 8 * i);
        let clen = read_i32_be(&shx, 104 + 8 * i);
        assert_eq!(offset, 50 + (i as i32) * (4 + 82));
        assert_eq!(clen, 82);
        let pos = 2 * offset as usize;
        assert_eq!(read_i32_be(&shp, pos), i as i32 + 1);
        assert_eq!(read_i32_be(&shp, pos + 4), clen);
    }
}

#[test]
fn bbox_aggregates_and_skips_nan() {
    let a = Shape::Point(pt(3.0, -2.0));
    let c = Shape::Point(Point { x: b(f64::NAN), y: b(10.0) });
    let d = Shape::Point(pt(-1.0, 4.0));
    let bytes = write(vec![a, c, d]);
    let (h, _) = read(&bytes).unwrap();
    assert_eq!(h.bbox, bbox(-1.0, -2.0, 3.0, 10.0));
}

#[test]
fn measures_are_stored_as_no_data() {
    let s = Shape::PointM(PointM { x: b(1.0), y: b(2.0), m: b(f64::NAN) });
    let (_, shapes) = read(&write(vec![s])).unwrap();
    assert_eq!(shapes, vec![Shape::PointM(PointM { x: b(1.0), y: b(2.0), m: NO_DATA })]);
    let s = Shape::PointM(PointM { x: b(1.0), y: b(2.0), m: b(-5e38) });
    let (_, shapes) = read(&write(vec![s])).unwrap();
    assert_eq!(shapes, vec![Shape::PointM(PointM { x: b(1.0), y: b(2.0), m: NO_DATA })]);
}

#[test]
fn empty_file() {
    let bytes = write(vec![]);
    assert_eq!(bytes.len(), 100);
    let (h, shapes) = read(&bytes).unwrap();
    assert_eq!(h.file_length, 50);
    assert_eq!(h.shape_type, ShapeType::NullShape);
    assert!(shapes.is_empty());
}

#[test]
fn write_rejects_mixed_types() {
    let mut w = Writer::new(Vec::new());
    let r = w.write_shapes(vec![Shape::NullShape, Shape::Point(pt(1.0, 1.0)), points_m()[0].clone()]);
    assert!(matches!(
        r,
        Err(Error::MismatchShapeType { requested: ShapeType::Point, actual: ShapeType::PointM })
    ));
    assert!(w.dest.is_empty());
}

#[test]
fn read_errors() {
    assert!(matches!(read(&[0u8; 10]), Err(Error::UnexpectedEof)));
    assert!(matches!(read(&[0u8; 100]), Err(Error::InvalidFileCode(0))));
    let good = point_file();
    let mut bad = good.clone();
    bad[28] = 0;
    assert!(matches!(read(&bad), Err(Error::UnsupportedVersion(_))));
    let mut bad = good.clone();
    bad[32] = 2;
    assert!(matches!(read(&bad), Err(Error::UnsupportedShapeType(2))));
    let mut bad = good.clone();
    bad[108] = 2;
    assert!(matches!(read(&bad), Err(Error::UnsupportedShapeType(2))));
    let mut bad = good.clone();
    bad.pop();
    assert!(matches!(read(&bad), Err(Error::MalformedRecord)));
    let mut bad = good.clone();
    bad[24..28].copy_from_slice(&65i32.to_be_bytes());
    assert!(matches!(read(&bad), Err(Error::MalformedRecord)));
}

#[test]
fn malformed_parts_are_rejected() {
    let mut payload = Vec::new();
    polyline().write_to(&mut payload);
    payload[40..44].copy_from_slice(&1i32.to_le_bytes());
    assert!(matches!(read_payload(ShapeType::Polyline, &payload), Err(Error::MalformedRecord)));
    let mut payload = Vec::new();
    polyline().write_to(&mut payload);
    payload[44..48].copy_from_slice(&7i32.to_le_bytes());
    assert!(matches!(read_payload(ShapeType::Polyline, &payload), Err(Error::MalformedRecord)));
}

#[test]
fn records_need_matching_lengths() {
    let mut w = Writer::new(Vec::new());
    w.add_dbase_dest(Vec::new());
    let r = w.write_shapes_and_records(vec![Shape::Point(pt(1.0, 1.0))], vec![], Table::new());
    assert!(matches!(r, Err(Error::MismatchedSinkLengths)));
    assert!(w.dest.is_empty());
}

#[test]
fn records_are_written_to_the_table() {
    let mut w = Writer::new(Vec::new());
    w.add_dbase_dest(Vec::new());
    let r = w.write_shapes_and_records(
        vec![Shape::Point(pt(1.0, 1.0))],
        vec![dbase::Record::default()],
        Table::new(),
    );
    assert!(r.is_ok());
    let (shp, _, dbf) = w.into_parts();
    assert_eq!(shp.len(), 128);
    assert!(!dbf.unwrap().is_empty());
}

#[test]
fn float_order_on_bits() {
    assert!(lt(b(1.0), b(2.0)));
    assert!(lt(b(-3.0), b(-1.0)));
    assert!(lt(b(-1.0), b(0.5)));
    assert!(!lt(b(-0.0), b(0.0)));
    assert!(!lt(b(f64::NAN), b(1.0)));
    assert!(!lt(b(1.0), b(f64::NAN)));
    assert_eq!(min(b(2.0), b(f64::NAN)), b(2.0));
    assert_eq!(min(b(2.0), b(-7.0)), b(-7.0));
    assert_eq!(max(b(2.0), b(7.0)), b(7.0));
    assert_eq!(max(b(f64::NEG_INFINITY), b(-7.0)), b(-7.0));
    assert!(is_nan(b(f64::NAN)));
    assert!(!is_nan(b(f64::INFINITY)));
    assert!(is_no_data(b(-2e38)));
    assert!(!is_no_data(b(-1e38)));
    assert_eq!(f64::from_bits(NO_DATA), -10e38);
    assert_eq!(stored(b(f64::NAN)), NO_DATA);
    assert_eq!(stored(b(-3e38)), NO_DATA);
    assert_eq!(stored(b(4.0)), b(4.0));
    assert_eq!(stored_z(b(f64::NAN)), NO_DATA);
    assert_eq!(stored_z(b(-3e38)), b(-3e38));
}

#[test]
fn byte_primitives() {
    let mut v = Vec::new();
    push_i32_be(&mut v, 9994);
    push_i32_le(&mut v, 1000);
    push_u64_le(&mut v, b(1.5));
    assert_eq!(&v[0..4], &[0, 0, 0x27, 0x0a]);
    assert_eq!(&v[4..8], &[0xe8, 0x03, 0, 0]);
    assert_eq!(&v[8..16], &1.5f64.to_le_bytes());
    assert_eq!(read_i32_be(&v, 0), 9994);
}

#[test]
fn shape_type_codes() {
    assert_eq!(ShapeType::Multipatch.code(), 31);
    assert_eq!(ShapeType::from_code(23), Some(ShapeType::PolylineM));
    assert_eq!(ShapeType::from_code(2), None);
    assert_eq!(PatchType::from_code(5), Some(PatchType::Ring));
    assert_eq!(PatchType::FirstRing.code(), 4);
}

#[test]
fn validity_check() {
    assert!(polyline().is_valid());
    assert!(multipatch().is_valid());
    assert!(Shape::NullShape.is_valid());
    let mut g = match polyline() {
        Shape::Polyline(g) => g,
        _ => unreachable!(),
    };
    g.parts = vec![0, 9];
    assert!(!Shape::Polyline(g.clone()).is_valid());
    g.parts = vec![];
    assert!(!Shape::Polyline(g.clone()).is_valid());
    g.parts = vec![0];
    g.ms = vec![0];
    assert!(!Shape::Polyline(g).is_valid());
}

#[test]
fn table_fields_are_bounded() {
    let mut t = Table::new();
    assert_eq!(t.record_size(), 1);
    for i in 0..256 {
        t = t.add_field(&format!("F{}", i), FieldKind::Character(255)).unwrap();
    }
    assert_eq!(t.record_size(), 1 + 255 * 256);
    let r = t.add_field("LAST", FieldKind::Character(255));
    assert!(matches!(r, Err(Error::RecordTooLarge)));
}

#[test]
fn table_rejects_long_names() {
    let r = Table::new().add_field("A_NAME_FAR_TOO_LONG", FieldKind::Logical);
    assert!(matches!(r, Err(Error::DbaseError(_))));
}

#[test]
fn records_with_fields_are_written() {
    let t = Table::new()
        .add_field("NAME", FieldKind::Character(10))
        .unwrap()
        .add_field("COUNT", FieldKind::Numeric(5, 0))
        .unwrap();
    assert_eq!(t.record_size(), 16);
    let mut rec = dbase::Record::default();
    rec.insert("NAME".to_string(), dbase::FieldValue::Character(Some("pt".to_string())));
    rec.insert("COUNT".to_string(), dbase::FieldValue::Numeric(Some(3.0)));
    let mut w = Writer::new(Vec::new());
    w.add_dbase_dest(Vec::new());
    let r = w.write_shapes_and_records(vec![Shape::Point(pt(1.0, 1.0))], vec![rec], t);
    assert!(r.is_ok());
    let (_, _, dbf) = w.into_parts();
    let dbf = dbf.unwrap();
    assert_eq!(u16::from_le_bytes([dbf[10], dbf[11]]), 16);
}

#[test]
fn missing_point_measures_leave_the_m_range_empty() {
    let s = vec![
        Shape::PointM(PointM { x: b(1.0), y: b(2.0), m: NO_DATA }),
        Shape::PointM(PointM { x: b(3.0), y: b(4.0), m: b(f64::NAN) }),
    ];
    let (h, _) = read(&write(s)).unwrap();
    assert_eq!(h.m_range, zero());
    let s = vec![
        Shape::PointM(PointM { x: b(1.0), y: b(2.0), m: NO_DATA }),
        Shape::PointM(PointM { x: b(3.0), y: b(4.0), m: b(5.0) }),
    ];
    let (h, _) = read(&write(s)).unwrap();
    assert_eq!(h.m_range, ext(5.0, 5.0));
}

#[test]
fn min_max_skip_nan_and_prefer_new_on_ties() {
    assert_eq!(min(b(f64::NAN), b(0.0)), b(0.0));
    assert_eq!(max(b(f64::NAN), b(0.0)), b(0.0));
    assert_eq!(min(b(0.0), b(-0.0)), b(-0.0));
    assert_eq!(max(b(-0.0), b(0.0)), b(0.0));
    assert_eq!(max(b(0.0), b(f64::NAN)), b(0.0));
}

#[test]
fn multipoint_z_without_measures() {
    let full = Shape::MultipointZ(Geometry {
        bbox: bbox(0.0, 0.0, 2.0, 2.0),
        z_range: ext(1.0, 3.0),
        m_range: ext(0.0, 0.0),
        parts: vec![],
        part_types: vec![],
        points: vec![pt(0.0, 0.0), pt(2.0, 2.0)],
        zs: vec![b(1.0), b(3.0)],
        ms: vec![b(0.0), b(0.0)],
    });
    let mut payload = Vec::new();
    full.write_to(&mut payload);
    assert_eq!(payload.len(), 36 + 16 + 32 + 16 + 16 + 16);
    payload.truncate(payload.len() - 32);
    let short = read_payload(ShapeType::MultipointZ, &payload).unwrap();
    let expected = Shape::MultipointZ(Geometry {
        bbox: bbox(0.0, 0.0, 2.0, 2.0),
        z_range: ext(1.0, 3.0),
        m_range: zero(),
        parts: vec![],
        part_types: vec![],
        points: vec![pt(0.0, 0.0), pt(2.0, 2.0)],
        zs: vec![b(1.0), b(3.0)],
        ms: vec![],
    });
    assert_eq!(short, expected);
    assert!(short.is_valid());
    assert_eq!(short.size_in_bytes() as usize, payload.len());
    let bytes = write(vec![short.clone()]);
    let (h, shapes) = read(&bytes).unwrap();
    assert_eq!(h.m_range, zero());
    assert_eq!(h.z_range, ext(1.0, 3.0));
    assert_eq!(shapes, vec![short]);
}
