use erff::error::ErffError;
use erff::index::{build_index, read_index, search_index, write_index, xy_to_hilbert};
use erff::reader::ErffReader;
use erff::types::{
    AttributeColumnDef, ColumnType, CoordType, EnvelopeBits, Feature, GeometryColumnDef,
    GeometryType, Schema, Value,
};
use erff::wkb::{encode_linestring_wkb, encode_point_wkb, encode_polygon_wkb, wkb_shape, WkbShape};
use erff::writer::ErffWriter;

// ── Floating-point side: boxes, Hilbert scaling, node boxes, queries ─────

#[derive(Debug, Clone, Copy, PartialEq)]
struct Envelope {
    min_x: f64,
    min_y: f64,
    max_x: f64,
    max_y: f64,
}

const EMPTY: Envelope = Envelope {
    min_x: f64::INFINITY,
    min_y: f64::INFINITY,
    max_x: f64::NEG_INFINITY,
    max_y: f64::NEG_INFINITY,
};

impl Envelope {
    fn new(min_x: f64, min_y: f64, max_x: f64, max_y: f64) -> Self {
        Envelope { min_x, min_y, max_x, max_y }
    }

    fn is_empty(&self) -> bool {
        self.min_x > self.max_x || self.min_y > self.max_y
    }

    fn expand(&mut self, other: &Envelope) {
        if other.is_empty() {
            return;
        }
        self.min_x = self.min_x.min(other.min_x);
        self.min_y = self.min_y.min(other.min_y);
        self.max_x = self.max_x.max(other.max_x);
        self.max_y = self.max_y.max(other.max_y);
    }

    fn expand_xy(&mut self, x: f64, y: f64) {
        self.min_x = self.min_x.min(x);
        self.min_y = self.min_y.min(y);
        self.max_x = self.max_x.max(x);
        self.max_y = self.max_y.max(y);
    }

    fn intersects(&self, other: &Envelope) -> bool {
        self.min_x <= other.max_x
            && self.max_x >= other.min_x
            && self.min_y <= other.max_y
            && self.max_y >= other.min_y
    }

    fn center_x(&self) -> f64 {
        (self.min_x + self.max_x) * 0.5
    }

    fn center_y(&self) -> f64 {
        (self.min_y + self.max_y) * 0.5
    }

    fn to_bits(&self) -> EnvelopeBits {
        EnvelopeBits {
            min_x: self.min_x.to_bits(),
            min_y: self.min_y.to_bits(),
            max_x: self.max_x.to_bits(),
            max_y: self.max_y.to_bits(),
        }
    }

    fn from_bits(b: &EnvelopeBits) -> Envelope {
        Envelope {
            min_x: f64::from_bits(b.min_x),
            min_y: f64::from_bits(b.min_y),
            max_x: f64::from_bits(b.max_x),
            max_y: f64::from_bits(b.max_y),
        }
    }
}

fn coords_envelope(coords: &[(u64, u64)]) -> Envelope {
    let mut env = EMPTY;
    for &(x, y) in coords {
        env.expand_xy(f64::from_bits(x), f64::from_bits(y));
    }
    env
}

fn shape_envelope(shape: &WkbShape) -> Envelope {
    match shape {
        WkbShape::Empty => EMPTY,
        WkbShape::Single(coords) => coords_envelope(coords),
        WkbShape::Collection(parts) => {
            let mut env = EMPTY;
            for part in parts {
                env.expand(&coords_envelope(part));
            }
            env
        }
    }
}

fn wkb_envelope(wkb: &[u8]) -> Result<Envelope, ErffError> {
    Ok(shape_envelope(&wkb_shape(wkb)?))
}

fn point(x: f64, y: f64) -> Vec<u8> {
    encode_point_wkb(x.to_bits(), y.to_bits())
}

fn bits(coords: &[(f64, f64)]) -> Vec<(u64, u64)> {
    coords.iter().map(|&(x, y)| (x.to_bits(), y.to_bits())).collect()
}

const HILBERT_N: u32 = 65536;

fn hilbert_index(env: &Envelope, x: f64, y: f64) -> u64 {
    let width = env.max_x - env.min_x;
    let height = env.max_y - env.min_y;
    if width <= 0.0 || height <= 0.0 {
        return 0;
    }
    let max = (HILBERT_N - 1) as f64;
    let hx = (((x - env.min_x) / width) * max).clamp(0.0, max) as i64;
    let hy = (((y - env.min_y) / height) * max).clamp(0.0, max) as i64;
    xy_to_hilbert(hx, hy)
}

/// The packed tree over the boxes: feature indices in Hilbert order and the
/// box of every node, items first.
fn build_tree(bboxes: &[Envelope], extent: &Envelope, node_size: u16) -> (Vec<u64>, Vec<Envelope>) {
    let hilbert: Vec<u64> = bboxes
        .iter()
        .map(|b| hilbert_index(extent, b.center_x(), b.center_y()))
        .collect();
    let (indices, ranges) = build_index(&hilbert, node_size);
    let mut nodes: Vec<Envelope> = indices.iter().map(|&i| bboxes[i as usize]).collect();
    for &(start, end) in &ranges {
        let mut env = EMPTY;
        for c in start..end {
            env.expand(&nodes[c as usize]);
        }
        nodes.push(env);
    }
    (indices, nodes)
}

fn search(query: &Envelope, indices: &[u64], nodes: &[Envelope], num_items: u64, node_size: u16) -> Vec<u64> {
    let hits: Vec<bool> = nodes.iter().map(|n| n.intersects(query)).collect();
    search_index(&hits, indices, num_items, node_size)
}

/// Write a whole file: header and schema, each record, then the tail and
/// the final header fields.
fn write_file(schema: Schema, features: &[Feature], node_size: Option<u16>) -> Vec<u8> {
    let (mut writer, mut buf) = ErffWriter::new(schema).unwrap();
    if let Some(ns) = node_size {
        writer.set_node_size(ns);
    }
    let mut bboxes = Vec::new();
    let mut envelope = EMPTY;
    for f in features {
        let (record, shapes) = writer.add_feature(f).unwrap();
        let mut feature_env = EMPTY;
        for s in &shapes {
            feature_env.expand(&shape_envelope(s));
        }
        bboxes.push(feature_env);
        envelope.expand(&feature_env);
        buf.extend_from_slice(&record);
    }
    let (indices, nodes) = build_tree(&bboxes, &envelope, writer.node_size());
    let node_bits: Vec<EnvelopeBits> = nodes.iter().map(|n| n.to_bits()).collect();
    let (tail, patch) = writer.finish(&indices, &node_bits, envelope.to_bits()).unwrap();
    buf.extend_from_slice(&tail);
    buf[8..8 + patch.len()].copy_from_slice(&patch);
    buf
}

fn node_hits(reader: &mut ErffReader, query: &Envelope) -> Vec<bool> {
    reader.ensure_index().unwrap();
    reader
        .index_nodes()
        .unwrap()
        .iter()
        .map(|n| Envelope::from_bits(n).intersects(query))
        .collect()
}

fn query(reader: &mut ErffReader, q: &Envelope) -> Vec<Feature> {
    let hits = node_hits(reader, q);
    reader.query(&hits).unwrap()
}

fn query_indices(reader: &mut ErffReader, q: &Envelope) -> Vec<u64> {
    let hits = node_hits(reader, q);
    reader.query_indices(&hits).unwrap()
}

fn test_schema() -> Schema {
    Schema {
        crs: r#"{"$schema":"https://proj.org/schemas/v0.7/projjson.schema.json","type":"GeographicCRS","name":"WGS 84","datum":{"type":"GeodeticReferenceFrame","name":"World Geodetic System 1984","ellipsoid":{"name":"WGS 84","semi_major_axis":6378137,"inverse_flattening":298.257223563}},"coordinate_system":{"subtype":"ellipsoidal","axis":[{"name":"Geodetic latitude","abbreviation":"Lat","direction":"north","unit":"degree"},{"name":"Geodetic longitude","abbreviation":"Lon","direction":"east","unit":"degree"}]},"id":{"authority":"EPSG","code":4326}}"#.to_string(),
        geometry_columns: vec![GeometryColumnDef {
            name: "geometry".into(),
            geom_type: GeometryType::Point,
            coord_type: CoordType::XY,
        }],
        attribute_columns: vec![
            AttributeColumnDef { name: "name".into(), col_type: ColumnType::String, nullable: true },
            AttributeColumnDef { name: "population".into(), col_type: ColumnType::Int64, nullable: false },
            AttributeColumnDef { name: "elevation".into(), col_type: ColumnType::Float64, nullable: true },
        ],
        metadata: vec![
            ("creator".into(), "erff-rs".into()),
            ("description".into(), "Test dataset".into()),
        ],
    }
}

fn city_features() -> Vec<Feature> {
    let cities = [
        ("London", -0.1276, 51.5074, 8_982_000i64, 11.0f64),
        ("Paris", 2.3522, 48.8566, 2_161_000, 35.0),
        ("Berlin", 13.4050, 52.5200, 3_748_000, 34.0),
        ("Madrid", -3.7038, 40.4168, 3_223_000, 667.0),
        ("Rome", 12.4964, 41.9028, 2_873_000, 21.0),
    ];
    cities
        .iter()
        .map(|(name, lon, lat, pop, elev)| Feature {
            geometries: vec![Some(point(*lon, *lat))],
            attributes: vec![
                Value::String(name.to_string()),
                Value::Int64(*pop),
                Value::Float64(elev.to_bits()),
            ],
        })
        .collect()
}

fn names(features: &[Feature]) -> Vec<String> {
    features
        .iter()
        .map(|f| match &f.attributes[0] {
            Value::String(s) => s.clone(),
            _ => String::new(),
        })
        .collect()
}

// ── Scenarios ─────────────────────────────────────────────────────────────

#[test]
fn test_hilbert_roundtrip_order() {
    // Points along a diagonal should have monotonically increasing Hilbert values
    // when mapped in a well-behaved extent.
    let extent = Envelope::new(0.0, 0.0, 100.0, 100.0);
    let h1 = hilbert_index(&extent, 1.0, 1.0);
    let h2 = hilbert_index(&extent, 50.0, 50.0);
    // Distinct points should produce distinct Hilbert values
    assert_ne!(h1, h2);
}

#[test]
fn test_build_and_search() {
    let bboxes: Vec<Envelope> = (0..100)
        .map(|i| {
            let x = (i % 10) as f64;
            let y = (i / 10) as f64;
            Envelope::new(x, y, x + 0.5, y + 0.5)
        })
        .collect();
    let extent = Envelope::new(0.0, 0.0, 10.0, 10.0);
    let (indices, nodes) = build_tree(&bboxes, &extent, 16);

    // Query a small area that should contain a few features
    let query = Envelope::new(2.0, 3.0, 4.0, 5.0);
    let results = search(&query, &indices, &nodes, 100, 16);

    // Features at (2,3), (3,3), (2,4), (3,4) and their +0.5 extents
    assert!(!results.is_empty());
    for &idx in &results {
        let bbox = &bboxes[idx as usize];
        assert!(bbox.intersects(&query));
    }

    // Verify that all truly intersecting features are found
    for (i, bbox) in bboxes.iter().enumerate() {
        if bbox.intersects(&query) {
            assert!(results.contains(&(i as u64)), "Missing feature {i}");
        }
    }
}

#[test]
fn test_index_serialization() {
    let bboxes: Vec<Envelope> = (0..50)
        .map(|i| {
            let x = i as f64;
            Envelope::new(x, 0.0, x + 1.0, 1.0)
        })
        .collect();
    let extent = Envelope::new(0.0, 0.0, 51.0, 1.0);
    let (indices, nodes) = build_tree(&bboxes, &extent, 8);
    let node_bits: Vec<EnvelopeBits> = nodes.iter().map(|n| n.to_bits()).collect();

    let mut buf = Vec::new();
    write_index(&mut buf, &indices, &node_bits, 8, 50);

    let (indices2, nodes2, ns2, ni2) = read_index(&buf, 0).unwrap();

    assert_eq!(indices, indices2);
    assert_eq!(nodes.len(), nodes2.len());
    assert_eq!(ns2, 8);
    assert_eq!(ni2, 50);
}

#[test]
fn test_write_read_roundtrip() {
    let schema = test_schema();
    let buf = write_file(schema.clone(), &city_features(), None);

    let mut reader = ErffReader::open(buf).unwrap();

    assert_eq!(reader.feature_count(), 5);
    assert_eq!(reader.schema().geometry_columns.len(), 1);
    assert_eq!(reader.schema().attribute_columns.len(), 3);
    assert!(reader.schema().crs.contains("WGS 84"));
    assert_eq!(reader.schema().metadata.len(), 2);

    // Sequential read
    let features = reader.features().unwrap();
    assert_eq!(features.len(), 5);
    assert_eq!(features[0].attributes[0], Value::String("London".into()));
    assert_eq!(features[0].attributes[1], Value::Int64(8_982_000));

    // Random access
    let f2 = reader.read_feature(2).unwrap();
    assert_eq!(f2.attributes[0], Value::String("Berlin".into()));

    // Spatial query: area around London/Paris
    let results = query(&mut reader, &Envelope::new(-1.0, 48.0, 3.0, 52.0));
    let names: Vec<&str> = results
        .iter()
        .map(|f| match &f.attributes[0] {
            Value::String(s) => s.as_str(),
            _ => "",
        })
        .collect();
    assert!(names.contains(&"London"));
    assert!(names.contains(&"Paris"));
    assert!(!names.contains(&"Madrid"));
}

#[test]
fn test_null_values() {
    let schema = test_schema();
    let features = vec![Feature {
        geometries: vec![Some(point(0.0, 0.0))],
        attributes: vec![
            Value::Null, // nullable name
            Value::Int64(0),
            Value::Null, // nullable elevation
        ],
    }];
    let buf = write_file(schema, &features, None);

    let mut reader = ErffReader::open(buf).unwrap();
    let features = reader.features().unwrap();
    assert_eq!(features[0].attributes[0], Value::Null);
    assert_eq!(features[0].attributes[1], Value::Int64(0));
    assert_eq!(features[0].attributes[2], Value::Null);
}

#[test]
fn test_point_bbox() {
    let wkb = point(1.0, 2.0);
    let env = wkb_envelope(&wkb).unwrap();
    assert_eq!(env, Envelope::new(1.0, 2.0, 1.0, 2.0));
}

#[test]
fn test_linestring_bbox() {
    let wkb = encode_linestring_wkb(&bits(&[(0.0, 0.0), (10.0, 5.0), (3.0, 8.0)]));
    let env = wkb_envelope(&wkb).unwrap();
    assert_eq!(env, Envelope::new(0.0, 0.0, 10.0, 8.0));
}

#[test]
fn test_polygon_bbox() {
    let ring = [(0.0, 0.0), (10.0, 0.0), (10.0, 10.0), (0.0, 10.0), (0.0, 0.0)];
    let wkb = encode_polygon_wkb(&[bits(&ring)]);
    let env = wkb_envelope(&wkb).unwrap();
    assert_eq!(env, Envelope::new(0.0, 0.0, 10.0, 10.0));
}

#[test]
fn test_empty() {
    let env = wkb_envelope(&[]).unwrap();
    assert!(env.is_empty());
}

// ── Whole files ───────────────────────────────────────────────────────────

#[test]
fn file_roundtrip_gives_back_every_feature() {
    let written = city_features();
    let buf = write_file(test_schema(), &written, None);
    let mut reader = ErffReader::open(buf).unwrap();
    let read = reader.features().unwrap();
    assert_eq!(read.len(), written.len());
    for (a, b) in read.iter().zip(written.iter()) {
        assert_eq!(a.geometries, b.geometries);
        assert_eq!(a.attributes, b.attributes);
    }
    for i in 0..written.len() {
        let f = reader.read_feature(i as u64).unwrap();
        assert_eq!(f.attributes, written[i].attributes);
        assert_eq!(f.geometries, written[i].geometries);
    }
    let schema = reader.schema().clone();
    assert_eq!(schema.metadata, test_schema().metadata);
    assert_eq!(schema.attribute_columns[2].name, "elevation");
    assert_eq!(schema.attribute_columns[2].col_type, ColumnType::Float64);
    assert!(schema.attribute_columns[0].nullable);
    assert!(!schema.attribute_columns[1].nullable);
}

#[test]
fn file_header_holds_count_envelope_and_schema_size() {
    let buf = write_file(test_schema(), &city_features(), None);
    assert_eq!(&buf[0..4], b"ERFF");
    assert_eq!(buf[4], 1);
    assert_eq!(buf[5], 0);
    assert_eq!(buf[6], 3);
    assert_eq!(u64::from_le_bytes(buf[8..16].try_into().unwrap()), 5);
    let min_x = f64::from_le_bytes(buf[16..24].try_into().unwrap());
    let max_y = f64::from_le_bytes(buf[40..48].try_into().unwrap());
    assert_eq!(min_x, -3.7038);
    assert_eq!(max_y, 52.52);
    assert_eq!(&buf[buf.len() - 8..buf.len() - 4], b"ERFF");
    let reader = ErffReader::open(buf).unwrap();
    let env = reader.envelope();
    assert_eq!(f64::from_bits(env.min_x), -3.7038);
    assert_eq!(f64::from_bits(env.min_y), 40.4168);
    assert_eq!(f64::from_bits(env.max_x), 13.405);
    assert_eq!(f64::from_bits(env.max_y), 52.52);
}

#[test]
fn empty_file_roundtrip() {
    let buf = write_file(test_schema(), &[], None);
    let mut reader = ErffReader::open(buf).unwrap();
    assert_eq!(reader.feature_count(), 0);
    assert!(reader.features().unwrap().is_empty());
    assert!(query(&mut reader, &Envelope::new(-180.0, -90.0, 180.0, 90.0)).is_empty());
    assert!(matches!(reader.read_feature(0), Err(ErffError::FeatureOutOfRange(0, 0))));
}

#[test]
fn query_finds_exactly_the_intersecting_features() {
    let schema = Schema {
        crs: String::new(),
        geometry_columns: vec![GeometryColumnDef {
            name: "g".into(),
            geom_type: GeometryType::Point,
            coord_type: CoordType::XY,
        }],
        attribute_columns: vec![AttributeColumnDef {
            name: "id".into(),
            col_type: ColumnType::UInt32,
            nullable: false,
        }],
        metadata: vec![],
    };
    let features: Vec<Feature> = (0..300u32)
        .map(|i| Feature {
            geometries: vec![Some(point((i % 20) as f64, (i / 20) as f64))],
            attributes: vec![Value::UInt32(i)],
        })
        .collect();
    let buf = write_file(schema, &features, Some(4));
    let mut reader = ErffReader::open(buf).unwrap();
    let q = Envelope::new(3.5, 2.5, 7.0, 5.0);
    let mut found = query_indices(&mut reader, &q);
    found.sort();
    let expected: Vec<u64> = (0..300u64)
        .filter(|i| {
            let (x, y) = ((i % 20) as f64, (i / 20) as f64);
            x >= 3.5 && x <= 7.0 && y >= 2.5 && y <= 5.0
        })
        .collect();
    assert_eq!(found, expected);
    let feats = query(&mut reader, &q);
    assert_eq!(feats.len(), expected.len());
}

#[test]
fn open_rejects_bad_magic_and_version() {
    let buf = write_file(test_schema(), &city_features(), None);
    let mut bad = buf.clone();
    bad[0] = b'X';
    assert!(matches!(ErffReader::open(bad), Err(ErffError::InvalidMagic)));
    let mut bad = buf.clone();
    bad[4] = 2;
    bad[5] = 7;
    assert!(matches!(
        ErffReader::open(bad),
        Err(ErffError::UnsupportedVersion { major: 2, minor: 7 })
    ));
    let mut bad = buf.clone();
    let n = bad.len();
    bad[n - 8] = b'Z';
    assert!(matches!(ErffReader::open(bad), Err(ErffError::InvalidMagic)));
    assert!(matches!(ErffReader::open(vec![b'E', b'R']), Err(ErffError::Io(_))));
    assert!(matches!(ErffReader::open(buf[..70].to_vec()), Err(ErffError::Io(_))));
}

#[test]
fn reader_reports_out_of_range_and_missing_index() {
    let buf = write_file(test_schema(), &city_features(), None);
    let mut no_index = buf.clone();
    no_index[6] = 2;
    let mut reader = ErffReader::open(no_index).unwrap();
    assert!(matches!(reader.read_feature(5), Err(ErffError::FeatureOutOfRange(5, 5))));
    assert!(reader.index_is_readable());
    assert!(matches!(reader.ensure_index(), Err(ErffError::NoSpatialIndex)));
    assert!(matches!(reader.query_indices(&[]), Err(ErffError::NoSpatialIndex)));
}

#[test]
fn truncated_records_fail_with_io() {
    let buf = write_file(test_schema(), &city_features(), None);
    let mut reader = ErffReader::open(buf.clone()).unwrap();
    let first = reader.read_feature(0).unwrap();
    assert_eq!(first.attributes[1], Value::Int64(8_982_000));
    // Point the offset table's first entry past the end of the data.
    let otp = u64::from_le_bytes(buf[buf.len() - 32..buf.len() - 24].try_into().unwrap()) as usize;
    let mut bad = buf.clone();
    bad[otp..otp + 8].copy_from_slice(&u64::MAX.to_le_bytes());
    let mut reader = ErffReader::open(bad).unwrap();
    assert!(matches!(reader.read_feature(0), Err(ErffError::Io(_))));
    assert!(reader.read_feature(1).is_ok());
}

#[test]
fn writer_refuses_mismatched_and_invalid_features() {
    let (mut writer, header) = ErffWriter::new(test_schema()).unwrap();
    assert_eq!(header.len(), 64 + u32::from_le_bytes(header[48..52].try_into().unwrap()) as usize);
    let short = Feature { geometries: vec![], attributes: vec![] };
    assert!(matches!(
        writer.add_feature(&short),
        Err(ErffError::SchemaMismatch { expected: 1, got: 0 })
    ));
    let few = Feature { geometries: vec![None], attributes: vec![Value::Null] };
    assert!(matches!(
        writer.add_feature(&few),
        Err(ErffError::SchemaMismatch { expected: 3, got: 1 })
    ));
    let bad_wkb = Feature {
        geometries: vec![Some(vec![7, 1, 0, 0, 0])],
        attributes: vec![Value::Null, Value::Int64(1), Value::Null],
    };
    assert!(matches!(writer.add_feature(&bad_wkb), Err(ErffError::InvalidWkb(_))));
    assert_eq!(writer.feature_count(), 0);
    let ok = Feature {
        geometries: vec![None],
        attributes: vec![Value::Null, Value::Int64(1), Value::Null],
    };
    let (record, shapes) = writer.add_feature(&ok).unwrap();
    assert!(shapes.is_empty());
    assert_eq!(writer.feature_count(), 1);
    // size field, one bitmap byte (only column 2 present), then the i64
    assert_eq!(u32::from_le_bytes(record[0..4].try_into().unwrap()), 9);
    assert_eq!(record[4], 0b0000_0100);
    assert_eq!(record.len(), 13);
}
