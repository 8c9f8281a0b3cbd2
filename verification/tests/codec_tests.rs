use erff::bitmap::build_null_bitmap;
use erff::error::ErffError;
use erff::index::{
    build_index, index_section_readable, level_offsets, level_sizes, node_count, search_index,
    xy_to_hilbert,
};
use erff::reader::{
    deserialize_feature, deserialize_schema, read_bytes_u32, read_i16, read_i32, read_i64, read_i8,
    read_string_u16, read_string_u32, read_u16, read_u32, read_u64, read_u8, read_value,
};
use erff::types::{
    AttributeColumnDef, ColumnType, CoordType, Feature, GeometryColumnDef, GeometryType, Schema,
    Value,
};
use erff::wkb::{
    decode_geom_type, encode_linestring_wkb, encode_point_wkb, encode_polygon_wkb, wkb_shape,
    WkbShape,
};
use erff::writer::{serialize_feature, serialize_schema};

#[test]
fn test_schema_serialization_roundtrip() {
    let schema = Schema {
        crs: r#"{"type":"GeographicCRS"}"#.to_string(),
        geometry_columns: vec![GeometryColumnDef {
            name: "geom".into(),
            geom_type: GeometryType::Point,
            coord_type: CoordType::XY,
        }],
        attribute_columns: vec![
            AttributeColumnDef {
                name: "name".into(),
                col_type: ColumnType::String,
                nullable: true,
            },
            AttributeColumnDef {
                name: "pop".into(),
                col_type: ColumnType::Int64,
                nullable: false,
            },
        ],
        metadata: vec![("creator".into(), "test".into())],
    };

    let bytes = serialize_schema(&schema).unwrap();
    // Verify it's non-empty and starts with the CRS length
    assert!(bytes.len() > 10);
    let crs_len = u32::from_le_bytes(bytes[0..4].try_into().unwrap());
    assert_eq!(crs_len as usize, schema.crs.len());
}

fn sample_schema() -> Schema {
    Schema {
        crs: "EPSG:4326".to_string(),
        geometry_columns: vec![
            GeometryColumnDef {
                name: "a".into(),
                geom_type: GeometryType::Polygon,
                coord_type: CoordType::XYZ,
            },
            GeometryColumnDef {
                name: "b".into(),
                geom_type: GeometryType::GeometryCollection,
                coord_type: CoordType::XYZM,
            },
        ],
        attribute_columns: vec![
            AttributeColumnDef { name: "flag".into(), col_type: ColumnType::Bool, nullable: false },
            AttributeColumnDef { name: "i8".into(), col_type: ColumnType::Int8, nullable: true },
            AttributeColumnDef { name: "u8".into(), col_type: ColumnType::UInt8, nullable: true },
            AttributeColumnDef { name: "i16".into(), col_type: ColumnType::Int16, nullable: true },
            AttributeColumnDef { name: "u16".into(), col_type: ColumnType::UInt16, nullable: true },
            AttributeColumnDef { name: "i32".into(), col_type: ColumnType::Int32, nullable: true },
            AttributeColumnDef { name: "u32".into(), col_type: ColumnType::UInt32, nullable: true },
            AttributeColumnDef { name: "u64".into(), col_type: ColumnType::UInt64, nullable: true },
            AttributeColumnDef { name: "f32".into(), col_type: ColumnType::Float32, nullable: true },
            AttributeColumnDef { name: "bin".into(), col_type: ColumnType::Binary, nullable: true },
            AttributeColumnDef { name: "day".into(), col_type: ColumnType::Date, nullable: true },
            AttributeColumnDef { name: "at".into(), col_type: ColumnType::DateTime, nullable: true },
            AttributeColumnDef { name: "doc".into(), col_type: ColumnType::Json, nullable: true },
        ],
        metadata: vec![("k".into(), "v".into()), ("é".into(), "ü".into())],
    }
}

#[test]
fn schema_bytes_read_back_as_the_schema() {
    let schema = sample_schema();
    let mut bytes = serialize_schema(&schema).unwrap();
    let len = bytes.len();
    bytes.extend_from_slice(&[9, 9, 9]);
    let (back, end) = deserialize_schema(&bytes, 0).unwrap();
    assert_eq!(end, len);
    assert_eq!(back.crs, schema.crs);
    assert_eq!(back.metadata, schema.metadata);
    assert_eq!(back.geometry_columns.len(), 2);
    assert_eq!(back.geometry_columns[1].name, "b");
    assert_eq!(back.geometry_columns[1].geom_type, GeometryType::GeometryCollection);
    assert_eq!(back.geometry_columns[1].coord_type, CoordType::XYZM);
    for (a, b) in back.attribute_columns.iter().zip(schema.attribute_columns.iter()) {
        assert_eq!(a.name, b.name);
        assert_eq!(a.col_type, b.col_type);
        assert_eq!(a.nullable, b.nullable);
    }
}

#[test]
fn schema_layout_is_exact() {
    let schema = Schema {
        crs: "C".into(),
        geometry_columns: vec![GeometryColumnDef {
            name: "g".into(),
            geom_type: GeometryType::LineString,
            coord_type: CoordType::XYM,
        }],
        attribute_columns: vec![AttributeColumnDef {
            name: "n".into(),
            col_type: ColumnType::Json,
            nullable: true,
        }],
        metadata: vec![("a".into(), "bc".into())],
    };
    let bytes = serialize_schema(&schema).unwrap();
    assert_eq!(
        bytes,
        vec![
            1, 0, 0, 0, b'C', // crs
            1, 0, 1, 0, b'g', 2, 2, // geometry column
            1, 0, 1, 0, b'n', 15, 1, // attribute column
            1, 0, 0, 0, 1, 0, b'a', 2, 0, 0, 0, b'b', b'c', // metadata
        ]
    );
}

#[test]
fn schema_errors_are_reported() {
    // bad geometry type code
    let bad_geom = vec![0, 0, 0, 0, 1, 0, 0, 0, 9, 0];
    assert!(matches!(deserialize_schema(&bad_geom, 0), Err(ErffError::InvalidGeometryType(9))));
    let bad_coord = vec![0, 0, 0, 0, 1, 0, 0, 0, 1, 4];
    assert!(matches!(deserialize_schema(&bad_coord, 0), Err(ErffError::InvalidCoordType(4))));
    let bad_col = vec![0, 0, 0, 0, 0, 0, 1, 0, 0, 0, 16, 0];
    assert!(matches!(deserialize_schema(&bad_col, 0), Err(ErffError::InvalidColumnType(16))));
    let bad_utf8 = vec![2, 0, 0, 0, 0xff, 0xfe, 0, 0, 0, 0, 0, 0, 0, 0];
    assert!(matches!(deserialize_schema(&bad_utf8, 0), Err(ErffError::InvalidUtf8(_))));
    let short = vec![5, 0, 0, 0, b'a'];
    assert!(matches!(deserialize_schema(&short, 0), Err(ErffError::Io(_))));
}

#[test]
fn type_codes_roundtrip() {
    for v in 0u8..=255 {
        match GeometryType::from_u8(v) {
            Ok(t) => assert_eq!(t.to_u8(), v),
            Err(e) => {
                assert!(v > 7);
                assert!(matches!(e, ErffError::InvalidGeometryType(x) if x == v));
            }
        }
        match CoordType::from_u8(v) {
            Ok(t) => assert_eq!(t.to_u8(), v),
            Err(e) => {
                assert!(v > 3);
                assert!(matches!(e, ErffError::InvalidCoordType(x) if x == v));
            }
        }
        match ColumnType::from_u8(v) {
            Ok(t) => assert_eq!(t.to_u8(), v),
            Err(e) => {
                assert!(v > 15);
                assert!(matches!(e, ErffError::InvalidColumnType(x) if x == v));
            }
        }
    }
    assert_eq!(GeometryType::from_u8(6).unwrap(), GeometryType::MultiPolygon);
    assert_eq!(CoordType::from_u8(2).unwrap(), CoordType::XYM);
    assert_eq!(ColumnType::from_u8(13).unwrap(), ColumnType::Date);
}

#[test]
fn fixed_sizes_match_encodings() {
    assert_eq!(ColumnType::Bool.fixed_size(), Some(1));
    assert_eq!(ColumnType::Int16.fixed_size(), Some(2));
    assert_eq!(ColumnType::Float32.fixed_size(), Some(4));
    assert_eq!(ColumnType::Date.fixed_size(), Some(4));
    assert_eq!(ColumnType::DateTime.fixed_size(), Some(8));
    assert_eq!(ColumnType::String.fixed_size(), None);
    assert_eq!(ColumnType::Binary.fixed_size(), None);
    assert_eq!(ColumnType::Json.fixed_size(), None);
    let schema = Schema {
        crs: String::new(),
        geometry_columns: vec![],
        attribute_columns: vec![AttributeColumnDef {
            name: "x".into(),
            col_type: ColumnType::Int16,
            nullable: false,
        }],
        metadata: vec![],
    };
    let f = Feature { geometries: vec![], attributes: vec![Value::Int16(-2)] };
    let rec = serialize_feature(&f, &schema).unwrap();
    // size, bitmap byte, then exactly the fixed size of an i16
    assert_eq!(rec.len(), 4 + 1 + 2);
    assert_eq!(&rec[5..], &(-2i16).to_le_bytes());
}

#[test]
fn schema_column_counts() {
    let schema = sample_schema();
    assert_eq!(schema.total_columns(), 15);
    assert_eq!(schema.null_bitmap_bytes(), 2);
    let empty = Schema { crs: String::new(), geometry_columns: vec![], attribute_columns: vec![], metadata: vec![] };
    assert_eq!(empty.null_bitmap_bytes(), 0);
    assert!(Value::Null.is_null());
    assert!(!Value::Bool(false).is_null());
}

fn full_feature() -> Feature {
    Feature {
        geometries: vec![None, Some(vec![1, 7, 0, 0, 0, 0, 0, 0, 0])],
        attributes: vec![
            Value::Bool(true),
            Value::Int8(-5),
            Value::Null,
            Value::Int16(-300),
            Value::UInt16(65000),
            Value::Int32(-70000),
            Value::UInt32(4_000_000_000),
            Value::UInt64(u64::MAX),
            Value::Float32(1.5f32.to_bits()),
            Value::Binary(vec![0, 1, 2]),
            Value::Date(19000),
            Value::DateTime(-1),
            Value::Json("{}".into()),
        ],
    }
}

#[test]
fn feature_record_reads_back_as_the_feature() {
    let schema = sample_schema();
    let f = full_feature();
    let mut rec = serialize_feature(&f, &schema).unwrap();
    let len = rec.len();
    // size field: the rest of the record
    assert_eq!(u32::from_le_bytes(rec[0..4].try_into().unwrap()) as usize, len - 4);
    // bitmap: columns 1, 2, 3, 5, 6, 7 in byte 0; columns 8 to 14 in byte 1
    assert_eq!(rec[4], 0b1110_1110);
    assert_eq!(rec[5], 0b0111_1111);
    rec.extend_from_slice(&[1, 2, 3]);
    let (back, end) = deserialize_feature(&rec, 0, &schema).unwrap();
    assert_eq!(end, len);
    assert_eq!(back.geometries, f.geometries);
    assert_eq!(back.attributes, f.attributes);
}

#[test]
fn truncated_feature_fails_with_io() {
    let schema = sample_schema();
    let rec = serialize_feature(&full_feature(), &schema).unwrap();
    for cut in [0, 3, 5, 10, rec.len() - 1] {
        assert!(matches!(deserialize_feature(&rec[..cut], 0, &schema), Err(ErffError::Io(_))));
    }
}

#[test]
fn primitive_reads() {
    let data = vec![0xfe, 0x01, 0x02, 0x03, 0x04, 0x05, 0x06, 0x07, 0x08];
    assert_eq!(read_u8(&data, 0).unwrap(), (0xfe, 1));
    assert_eq!(read_i8(&data, 0).unwrap(), (-2, 1));
    assert_eq!(read_u16(&data, 1).unwrap(), (0x0201, 3));
    assert_eq!(read_i16(&data, 0).unwrap(), (0x01fe, 2));
    assert_eq!(read_u32(&data, 1).unwrap(), (0x04030201, 5));
    assert_eq!(read_i32(&data, 1).unwrap(), (0x04030201, 5));
    assert_eq!(read_u64(&data, 1).unwrap(), (0x0807060504030201, 9));
    assert_eq!(read_i64(&data, 1).unwrap(), (0x0807060504030201, 9));
    assert!(matches!(read_u64(&data, 2), Err(ErffError::Io(_))));
    assert!(matches!(read_u8(&data, 9), Err(ErffError::Io(_))));
    let s = vec![2, 0, b'h', b'i', 3, 0, 0, 0, b'a', b'b', b'c'];
    assert_eq!(read_string_u16(&s, 0).unwrap(), ("hi".to_string(), 4));
    assert_eq!(read_string_u32(&s, 4).unwrap(), ("abc".to_string(), 11));
    assert_eq!(read_bytes_u32(&s, 4).unwrap(), (b"abc".to_vec(), 11));
    assert!(matches!(read_string_u16(&[1, 0, 0xc3], 0), Err(ErffError::InvalidUtf8(_))));
    assert!(matches!(read_bytes_u32(&[4, 0, 0, 0, 1], 0), Err(ErffError::Io(_))));
    let (v, p) = read_value(&[0, 0, 0xc0, 0x3f], 0, ColumnType::Float32).unwrap();
    assert_eq!(v, Value::Float32(1.5f32.to_bits()));
    assert_eq!(p, 4);
    assert_eq!(read_value(&[2], 0, ColumnType::Bool).unwrap().0, Value::Bool(true));
}

#[test]
fn null_bitmap_bits() {
    let present = vec![true, false, false, true, false, false, false, false, true];
    assert_eq!(build_null_bitmap(&present, 2), vec![0b0000_1001, 0b0000_0001]);
    assert_eq!(build_null_bitmap(&vec![], 1), vec![0]);
}

// ── WKB ───────────────────────────────────────────────────────────────────

#[test]
fn wkb_encoders_are_exact() {
    let p = encode_point_wkb(1.0f64.to_bits(), 2.0f64.to_bits());
    let mut expected = vec![1, 1, 0, 0, 0];
    expected.extend_from_slice(&1.0f64.to_le_bytes());
    expected.extend_from_slice(&2.0f64.to_le_bytes());
    assert_eq!(p, expected);
    let l = encode_linestring_wkb(&[(3, 4)]);
    assert_eq!(&l[0..9], &[1, 2, 0, 0, 0, 1, 0, 0, 0]);
    assert_eq!(l.len(), 25);
    let poly = encode_polygon_wkb(&[vec![(1, 2), (3, 4)], vec![]]);
    assert_eq!(&poly[0..13], &[1, 3, 0, 0, 0, 2, 0, 0, 0, 2, 0, 0, 0]);
    assert_eq!(poly.len(), 13 + 32 + 4);
}

#[test]
fn wkb_shapes_read_back_as_encoded() {
    let p = encode_point_wkb(5, 6);
    assert_eq!(wkb_shape(&p).unwrap(), WkbShape::Single(vec![(5, 6)]));
    let l = encode_linestring_wkb(&[(1, 2), (3, 4), (5, 6)]);
    assert_eq!(wkb_shape(&l).unwrap(), WkbShape::Single(vec![(1, 2), (3, 4), (5, 6)]));
    let poly = encode_polygon_wkb(&[vec![(1, 2), (3, 4)], vec![(7, 8)]]);
    assert_eq!(wkb_shape(&poly).unwrap(), WkbShape::Single(vec![(1, 2), (3, 4), (7, 8)]));
    assert_eq!(wkb_shape(&[]).unwrap(), WkbShape::Empty);
}

fn be_u32(v: u32) -> [u8; 4] {
    v.to_be_bytes()
}

#[test]
fn wkb_big_endian_ewkb_and_collections() {
    // Big-endian ISO PointZ: x, y, z
    let mut pz = vec![0];
    pz.extend_from_slice(&be_u32(1001));
    pz.extend_from_slice(&1.5f64.to_be_bytes());
    pz.extend_from_slice(&2.5f64.to_be_bytes());
    pz.extend_from_slice(&9.0f64.to_be_bytes());
    assert_eq!(
        wkb_shape(&pz).unwrap(),
        WkbShape::Single(vec![(1.5f64.to_bits(), 2.5f64.to_bits())])
    );
    // EWKB point with Z and an SRID, little-endian
    let mut ew = vec![1];
    ew.extend_from_slice(&(0x8000_0001u32 | 0x2000_0000).to_le_bytes());
    ew.extend_from_slice(&4326u32.to_le_bytes());
    ew.extend_from_slice(&3u64.to_le_bytes());
    ew.extend_from_slice(&4u64.to_le_bytes());
    ew.extend_from_slice(&5u64.to_le_bytes());
    assert_eq!(wkb_shape(&ew).unwrap(), WkbShape::Single(vec![(3, 4)]));
    // A collection of a point and a multipoint of two points
    let mut gc = vec![1];
    gc.extend_from_slice(&7u32.to_le_bytes());
    gc.extend_from_slice(&2u32.to_le_bytes());
    gc.extend_from_slice(&encode_point_wkb(1, 1));
    gc.push(1);
    gc.extend_from_slice(&4u32.to_le_bytes());
    gc.extend_from_slice(&2u32.to_le_bytes());
    gc.extend_from_slice(&encode_point_wkb(2, 2));
    gc.extend_from_slice(&encode_point_wkb(3, 3));
    assert_eq!(
        wkb_shape(&gc).unwrap(),
        WkbShape::Collection(vec![vec![(1, 1)], vec![(2, 2)], vec![(3, 3)]])
    );
}

#[test]
fn wkb_errors() {
    match wkb_shape(&[2, 1, 0, 0, 0]) {
        Err(ErffError::InvalidWkb(m)) => assert_eq!(m, "bad byte order"),
        other => panic!("unexpected {other:?}"),
    }
    match wkb_shape(&[1, 9, 0, 0, 0]) {
        Err(ErffError::InvalidWkb(m)) => assert_eq!(m, "unknown geometry type 9"),
        other => panic!("unexpected {other:?}"),
    }
    match wkb_shape(&[1, 0xe8, 0x03, 0, 0]) {
        Err(ErffError::InvalidWkb(m)) => assert_eq!(m, "unknown geometry type 0"),
        other => panic!("unexpected {other:?}"),
    }
    assert!(matches!(wkb_shape(&[1, 1, 0, 0, 0, 1]), Err(ErffError::Io(_))));
    assert!(matches!(wkb_shape(&[1]), Err(ErffError::Io(_))));
}

#[test]
fn geometry_type_words() {
    assert_eq!(decode_geom_type(3), (3, 2));
    assert_eq!(decode_geom_type(1003), (3, 3));
    assert_eq!(decode_geom_type(2002), (2, 3));
    assert_eq!(decode_geom_type(3001), (1, 4));
    assert_eq!(decode_geom_type(5007), (7, 2));
    assert_eq!(decode_geom_type(0x8000_0002), (2, 3));
    assert_eq!(decode_geom_type(0xC000_0003), (3, 4));
    assert_eq!(decode_geom_type(0x2000_0001), (1, 2));
}

// ── The packed R-tree ─────────────────────────────────────────────────────

#[test]
fn hilbert_values() {
    assert_eq!(xy_to_hilbert(0, 0), 0);
    assert_eq!(xy_to_hilbert(65535, 0), 65536u64 * 65536 - 1);
    assert_eq!(xy_to_hilbert(1, 0), 1);
    assert_eq!(xy_to_hilbert(1, 1), 2);
    assert_eq!(xy_to_hilbert(0, 1), 3);
    assert_eq!(xy_to_hilbert(65535, 65535), 2863311530);
    assert_eq!(xy_to_hilbert(0, 65535), 1431655765);
    assert_eq!(xy_to_hilbert(12345, 54321), 1555040834);
    assert_eq!(xy_to_hilbert(655, 655), 557226);
    assert_eq!(xy_to_hilbert(32767, 32768), 2147483647);
    let mut seen = std::collections::HashSet::new();
    for x in 0..32 {
        for y in 0..32 {
            assert!(seen.insert(xy_to_hilbert(x * 2048, y * 2048)));
        }
    }
}

#[test]
fn level_layout() {
    assert_eq!(level_sizes(100, 16), vec![100, 7, 1]);
    assert_eq!(level_sizes(1, 16), vec![1]);
    assert_eq!(level_sizes(0, 16), vec![0]);
    assert_eq!(level_sizes(17, 2), vec![17, 9, 5, 3, 2, 1]);
    assert_eq!(level_offsets(&[100, 7, 1]), vec![0, 100, 107]);
    assert_eq!(node_count(100, 16), Some(108));
    assert_eq!(node_count(0, 16), Some(0));
    assert_eq!(node_count(1, 0), Some(1));
    assert_eq!(node_count(u64::MAX, 2), None);
}

#[test]
fn index_sections_with_unusable_node_sizes() {
    // node size 1 with two items, both feature indices present
    let mut sec = vec![1, 0, 2, 0, 0, 0, 0, 0, 0, 0];
    sec.extend_from_slice(&[0; 16]);
    assert!(!index_section_readable(&sec, 0));
    // the same with a feature index missing: the read fails before the tree
    assert!(index_section_readable(&sec[..20], 0));
    // node size 0 with one item is fine
    let one = vec![0, 0, 1, 0, 0, 0, 0, 0, 0, 0, 0, 0, 0, 0, 0, 0, 0, 0];
    assert!(index_section_readable(&one, 0));
    assert!(index_section_readable(&[], 0));
}

#[test]
fn build_index_orders_by_hilbert_then_index() {
    let (indices, ranges) = build_index(&[5, 1, 5, 0, 1], 2);
    assert_eq!(indices, vec![3, 1, 4, 0, 2]);
    // levels 5, 3, 2, 1: nodes 5..8 cover items, 8..10 cover 5..8, 10 covers 8..10
    assert_eq!(ranges, vec![(0, 2), (2, 4), (4, 5), (5, 7), (7, 8), (8, 10)]);
    let (indices, ranges) = build_index(&[], 16);
    assert!(indices.is_empty());
    assert!(ranges.is_empty());
}

#[test]
fn search_follows_the_hits() {
    // 5 items, node size 2: nodes 0..5 items, 5..8 level 1, 8..10 level 2, 10 root
    let indices = vec![3, 1, 4, 0, 2];
    let mut hits = vec![false; 11];
    for j in [1, 3, 5, 6, 8] {
        hits[j] = true;
    }
    assert_eq!(search_index(&hits, &indices, 5, 2), vec![1, 0]);
    // an item whose parent is not hit is not reached
    hits[6] = false;
    assert_eq!(search_index(&hits, &indices, 5, 2), vec![1]);
    // a single item is tested directly
    assert_eq!(search_index(&[true], &[7], 1, 16), vec![7]);
    assert_eq!(search_index(&[false], &[7], 1, 16), Vec::<u64>::new());
    assert_eq!(search_index(&[], &[], 0, 16), Vec::<u64>::new());
}
