//! Writing the format: primitive fields, the schema section, feature
//! records, and the writer of a whole file.

use crate::error::{invalid_input, ErffError, ErrorCase};
use crate::index::{enc_envelope, index_bytes, put_envelope, u64_encoder};
use crate::reader::magic_bytes;
use crate::wkb::{parse_wkb, WkbShape, WkbShapeView};
use crate::layout::{
    lemma_enc_lens, enc_bytes_u32, enc_repeat, enc_string_u16, enc_string_u32, enc_u16, enc_u32, enc_u64, enc_u8,
};
use crate::bitmap::{bitmap_of, build_null_bitmap};
use crate::types::{
    empty_envelope, AttributeColumnDef, AttributeColumnView, EnvelopeBits, Feature, FeatureView,
    GeometryColumnDef, GeometryColumnView, Schema, SchemaView, Value, ValueView,
    DEFAULT_NODE_SIZE, FLAG_HAS_OFFSET_TABLE, FLAG_HAS_SPATIAL_INDEX, HEADER_SIZE, MAGIC,
    VERSION_MAJOR, VERSION_MINOR,
};
use vstd::bytes::*;
use vstd::prelude::*;
use vstd::utf8::*;

verus! {

// ── Specification of the schema section ───────────────────────────────────

pub open spec fn enc_geometry_column(c: GeometryColumnView) -> Seq<u8> {
    enc_string_u16(c.name) + enc_u8(c.geom_type.code()) + enc_u8(c.coord_type.code())
}

pub open spec fn enc_attribute_column(c: AttributeColumnView) -> Seq<u8> {
    enc_string_u16(c.name) + enc_u8(c.col_type.code()) + enc_u8(
        if c.nullable {
            1u8
        } else {
            0u8
        },
    )
}

pub open spec fn enc_metadata_entry(kv: (Seq<char>, Seq<char>)) -> Seq<u8> {
    enc_string_u16(kv.0) + enc_string_u32(kv.1)
}

pub open spec fn geometry_column_encoder() -> spec_fn(GeometryColumnView) -> Seq<u8> {
    |c: GeometryColumnView| enc_geometry_column(c)
}

pub open spec fn attribute_column_encoder() -> spec_fn(AttributeColumnView) -> Seq<u8> {
    |c: AttributeColumnView| enc_attribute_column(c)
}

pub open spec fn metadata_encoder() -> spec_fn((Seq<char>, Seq<char>)) -> Seq<u8> {
    |kv: (Seq<char>, Seq<char>)| enc_metadata_entry(kv)
}

/// The schema section: CRS, then each list preceded by its count. Counts and
/// lengths that do not fit their fields are written truncated.
pub open spec fn schema_bytes(s: SchemaView) -> Seq<u8> {
    enc_string_u32(s.crs) + enc_u16(s.geometry_columns.len() as u16) + enc_repeat(
        s.geometry_columns,
        geometry_column_encoder(),
    ) + enc_u16(s.attribute_columns.len() as u16) + enc_repeat(
        s.attribute_columns,
        attribute_column_encoder(),
    ) + enc_u32(s.metadata.len() as u32) + enc_repeat(s.metadata, metadata_encoder())
}

// ── Writing the primitive fields ──────────────────────────────────────────

/// Append bytes.
pub fn put_bytes(buf: &mut Vec<u8>, b: &[u8])
    ensures
        final(buf)@ == old(buf)@ + b@,
{
    let ghost start = buf@;
    let mut i: usize = 0;
    while i < b.len()
        invariant
            i <= b.len(),
            buf@ == start + b@.subrange(0, i as int),
        decreases b.len() - i,
    {
        buf.push(b[i]);
        i = i + 1;
        assert(buf@ =~= start + b@.subrange(0, i as int));
    }
    assert(b@.subrange(0, b.len() as int) =~= b@);
}

pub fn put_u8(buf: &mut Vec<u8>, v: u8)
    ensures
        final(buf)@ == old(buf)@ + enc_u8(v),
{
    buf.push(v);
    assert(buf@ =~= old(buf)@ + enc_u8(v));
}

pub fn put_u16(buf: &mut Vec<u8>, v: u16)
    ensures
        final(buf)@ == old(buf)@ + enc_u16(v),
{
    let b = u16_to_le_bytes(v);
    put_bytes(buf, b.as_slice());
}

pub fn put_u32(buf: &mut Vec<u8>, v: u32)
    ensures
        final(buf)@ == old(buf)@ + enc_u32(v),
{
    let b = u32_to_le_bytes(v);
    put_bytes(buf, b.as_slice());
}

pub fn put_u64(buf: &mut Vec<u8>, v: u64)
    ensures
        final(buf)@ == old(buf)@ + enc_u64(v),
{
    let b = u64_to_le_bytes(v);
    put_bytes(buf, b.as_slice());
}

/// Bytes with a `u32` length prefix (the length truncated to 32 bits).
pub fn put_bytes_u32(buf: &mut Vec<u8>, b: &[u8])
    ensures
        final(buf)@ == old(buf)@ + enc_bytes_u32(b@),
{
    put_u32(buf, b.len() as u32);
    put_bytes(buf, b);
    assert(buf@ =~= old(buf)@ + enc_bytes_u32(b@));
}

/// A string as UTF-8 with a `u16` length prefix (truncated to 16 bits).
pub fn put_string_u16(buf: &mut Vec<u8>, s: &String)
    ensures
        final(buf)@ == old(buf)@ + enc_string_u16(s@),
{
    let b = s.as_str().as_bytes();
    put_u16(buf, b.len() as u16);
    put_bytes(buf, b);
    assert(buf@ =~= old(buf)@ + enc_string_u16(s@));
}

/// A string as UTF-8 with a `u32` length prefix (truncated to 32 bits).
pub fn put_string_u32(buf: &mut Vec<u8>, s: &String)
    ensures
        final(buf)@ == old(buf)@ + enc_string_u32(s@),
{
    let b = s.as_str().as_bytes();
    put_bytes_u32(buf, b);
}

// ── Schema serialization ───────────────────────────────────────────────────

/// Serialize the schema section. It never fails.
pub fn serialize_schema(schema: &Schema) -> (res: Result<Vec<u8>, ErffError>)
    ensures
        res matches Ok(b) && b@ == schema_bytes(schema@),
{
    let ghost sv = schema@;
    let mut buf: Vec<u8> = Vec::new();

    // CRS (u32 length + UTF-8)
    put_string_u32(&mut buf, &schema.crs);

    // Geometry columns
    put_u16(&mut buf, schema.geometry_columns.len() as u16);
    let ghost base = buf@;
    let mut i: usize = 0;
    while i < schema.geometry_columns.len()
        invariant
            sv == schema@,
            i <= schema.geometry_columns.len(),
            buf@ == base + enc_repeat(sv.geometry_columns.take(i as int), geometry_column_encoder()),
        decreases schema.geometry_columns.len() - i,
    {
        let col = &schema.geometry_columns[i];
        put_string_u16(&mut buf, &col.name);
        put_u8(&mut buf, col.geom_type.to_u8());
        put_u8(&mut buf, col.coord_type.to_u8());
        proof {
            let t = sv.geometry_columns.take(i + 1);
            assert(t.drop_last() =~= sv.geometry_columns.take(i as int));
            assert(t.last() == col@);
        }
        i = i + 1;
        assert(buf@ =~= base + enc_repeat(
            sv.geometry_columns.take(i as int),
            geometry_column_encoder(),
        ));
    }
    assert(sv.geometry_columns.take(i as int) =~= sv.geometry_columns);

    // Attribute columns
    put_u16(&mut buf, schema.attribute_columns.len() as u16);
    let ghost base = buf@;
    let mut i: usize = 0;
    while i < schema.attribute_columns.len()
        invariant
            sv == schema@,
            i <= schema.attribute_columns.len(),
            buf@ == base + enc_repeat(
                sv.attribute_columns.take(i as int),
                attribute_column_encoder(),
            ),
        decreases schema.attribute_columns.len() - i,
    {
        let col = &schema.attribute_columns[i];
        put_string_u16(&mut buf, &col.name);
        put_u8(&mut buf, col.col_type.to_u8());
        put_u8(
            &mut buf,
            if col.nullable {
                1u8
            } else {
                0u8
            },
        );
        proof {
            let t = sv.attribute_columns.take(i + 1);
            assert(t.drop_last() =~= sv.attribute_columns.take(i as int));
            assert(t.last() == col@);
        }
        i = i + 1;
        assert(buf@ =~= base + enc_repeat(
            sv.attribute_columns.take(i as int),
            attribute_column_encoder(),
        ));
    }
    assert(sv.attribute_columns.take(i as int) =~= sv.attribute_columns);

    // Metadata
    put_u32(&mut buf, schema.metadata.len() as u32);
    let ghost base = buf@;
    let mut i: usize = 0;
    while i < schema.metadata.len()
        invariant
            sv == schema@,
            i <= schema.metadata.len(),
            buf@ == base + enc_repeat(sv.metadata.take(i as int), metadata_encoder()),
        decreases schema.metadata.len() - i,
    {
        let kv = &schema.metadata[i];
        put_string_u16(&mut buf, &kv.0);
        put_string_u32(&mut buf, &kv.1);
        proof {
            let t = sv.metadata.take(i + 1);
            assert(t.drop_last() =~= sv.metadata.take(i as int));
            assert(t.last() == (kv.0@, kv.1@));
        }
        i = i + 1;
        assert(buf@ =~= base + enc_repeat(sv.metadata.take(i as int), metadata_encoder()));
    }
    assert(sv.metadata.take(i as int) =~= sv.metadata);
    assert(buf@ =~= schema_bytes(sv));
    Ok(buf)
}

// ── Specification of feature records ─────────────────────────────────────

/// Which columns of a feature hold a value: its geometry columns first, then
/// its attribute columns.
pub open spec fn presence(f: FeatureView) -> Seq<bool> {
    f.geometries.map_values(|g: Option<Seq<u8>>| g is Some) + f.attributes.map_values(
        |v: ValueView| !(v is Null),
    )
}

/// A geometry value: its WKB with a `u32` length, or nothing when null.
pub open spec fn enc_geometry(g: Option<Seq<u8>>) -> Seq<u8> {
    match g {
        Some(b) => enc_bytes_u32(b),
        None => Seq::empty(),
    }
}

/// An attribute value: fixed-size types as their little-endian bytes,
/// strings and binaries with a `u32` length, nothing when null.
pub open spec fn enc_value(v: ValueView) -> Seq<u8> {
    match v {
        ValueView::Null => Seq::empty(),
        ValueView::Bool(b) => enc_u8(
            if b {
                1u8
            } else {
                0u8
            },
        ),
        ValueView::Int8(x) => enc_u8(x as u8),
        ValueView::UInt8(x) => enc_u8(x),
        ValueView::Int16(x) => enc_u16(x as u16),
        ValueView::UInt16(x) => enc_u16(x),
        ValueView::Int32(x) => enc_u32(x as u32),
        ValueView::UInt32(x) => enc_u32(x),
        ValueView::Int64(x) => enc_u64(x as u64),
        ValueView::UInt64(x) => enc_u64(x),
        ValueView::Float32(bits) => enc_u32(bits),
        ValueView::Float64(bits) => enc_u64(bits),
        ValueView::String(c) => enc_string_u32(c),
        ValueView::Binary(b) => enc_bytes_u32(b),
        ValueView::Date(x) => enc_u32(x as u32),
        ValueView::DateTime(x) => enc_u64(x as u64),
        ValueView::Json(c) => enc_string_u32(c),
    }
}

pub open spec fn geometry_encoder() -> spec_fn(Option<Seq<u8>>) -> Seq<u8> {
    |g: Option<Seq<u8>>| enc_geometry(g)
}

pub open spec fn value_encoder() -> spec_fn(ValueView) -> Seq<u8> {
    |v: ValueView| enc_value(v)
}

/// A feature record without its size field: the null bitmap, then the
/// present geometries, then the present attributes.
pub open spec fn feature_body(f: FeatureView, nbytes: nat) -> Seq<u8> {
    bitmap_of(presence(f), nbytes) + enc_repeat(f.geometries, geometry_encoder()) + enc_repeat(
        f.attributes,
        value_encoder(),
    )
}

/// A feature record: the size of the rest (truncated to 32 bits), then the
/// rest.
pub open spec fn feature_bytes(f: FeatureView, sv: SchemaView) -> Seq<u8> {
    enc_u32(feature_body(f, sv.null_bitmap_bytes()).len() as u32) + feature_body(
        f,
        sv.null_bitmap_bytes(),
    )
}

// ── Feature serialization ──────────────────────────────────────────────────

fn put_value(buf: &mut Vec<u8>, val: &Value)
    ensures
        final(buf)@ == old(buf)@ + enc_value(val@),
{
    match val {
        Value::Null => {
            assert(buf@ =~= old(buf)@ + enc_value(val@));
        },
        Value::Bool(v) => put_u8(
            buf,
            if *v {
                1
            } else {
                0
            },
        ),
        Value::Int8(v) => put_u8(buf, *v as u8),
        Value::UInt8(v) => put_u8(buf, *v),
        Value::Int16(v) => put_u16(buf, *v as u16),
        Value::UInt16(v) => put_u16(buf, *v),
        Value::Int32(v) => put_u32(buf, *v as u32),
        Value::UInt32(v) => put_u32(buf, *v),
        Value::Int64(v) => put_u64(buf, *v as u64),
        Value::UInt64(v) => put_u64(buf, *v),
        Value::Float32(v) => put_u32(buf, *v),
        Value::Float64(v) => put_u64(buf, *v),
        Value::String(v) => put_string_u32(buf, v),
        Value::Binary(v) => put_bytes_u32(buf, v.as_slice()),
        Value::Date(v) => put_u32(buf, *v as u32),
        Value::DateTime(v) => put_u64(buf, *v as u64),
        Value::Json(v) => put_string_u32(buf, v),
    }
}

/// Serialize a feature record for the given schema. The feature has one
/// value per column of the schema (the writer checks this first); it never
/// fails.
pub fn serialize_feature(feature: &Feature, schema: &Schema) -> (res: Result<Vec<u8>, ErffError>)
    requires
        feature.geometries.len() == schema.geometry_columns.len(),
        feature.attributes.len() == schema.attribute_columns.len(),
        schema.geometry_columns.len() + schema.attribute_columns.len() <= usize::MAX,
    ensures
        res matches Ok(b) && b@ == feature_bytes(feature@, schema@),
{
    let ghost fv = feature@;
    let bitmap_bytes = schema.null_bitmap_bytes();

    // Null bitmap
    let mut present: Vec<bool> = Vec::new();
    let mut i: usize = 0;
    while i < feature.geometries.len()
        invariant
            fv == feature@,
            i <= feature.geometries.len(),
            present@ == fv.geometries.take(i as int).map_values(|g: Option<Seq<u8>>| g is Some),
        decreases feature.geometries.len() - i,
    {
        let ghost before = present@;
        present.push(feature.geometries[i].is_some());
        i = i + 1;
        assert(present@ =~= fv.geometries.take(i as int).map_values(
            |g: Option<Seq<u8>>| g is Some,
        ));
    }
    assert(fv.geometries.take(i as int) =~= fv.geometries);
    let ghost geom_part = present@;
    let mut j: usize = 0;
    while j < feature.attributes.len()
        invariant
            fv == feature@,
            j <= feature.attributes.len(),
            present@ == geom_part + fv.attributes.take(j as int).map_values(
                |v: ValueView| !(v is Null),
            ),
        decreases feature.attributes.len() - j,
    {
        present.push(!feature.attributes[j].is_null());
        j = j + 1;
        assert(present@ =~= geom_part + fv.attributes.take(j as int).map_values(
            |v: ValueView| !(v is Null),
        ));
    }
    assert(fv.attributes.take(j as int) =~= fv.attributes);
    assert(present@ =~= presence(fv));
    let bitmap = build_null_bitmap(&present, bitmap_bytes);
    let mut body: Vec<u8> = Vec::new();
    put_bytes(&mut body, bitmap.as_slice());

    // Geometry columns
    let ghost base = body@;
    let mut i: usize = 0;
    while i < feature.geometries.len()
        invariant
            fv == feature@,
            i <= feature.geometries.len(),
            body@ == base + enc_repeat(fv.geometries.take(i as int), geometry_encoder()),
        decreases feature.geometries.len() - i,
    {
        match &feature.geometries[i] {
            Some(wkb_data) => put_bytes_u32(&mut body, wkb_data.as_slice()),
            None => {},
        }
        proof {
            let t = fv.geometries.take(i + 1);
            assert(t.drop_last() =~= fv.geometries.take(i as int));
            assert(t.last() == fv.geometries[i as int]);
        }
        i = i + 1;
        assert(body@ =~= base + enc_repeat(fv.geometries.take(i as int), geometry_encoder()));
    }
    assert(fv.geometries.take(i as int) =~= fv.geometries);

    // Attribute columns
    let ghost base = body@;
    let mut j: usize = 0;
    while j < feature.attributes.len()
        invariant
            fv == feature@,
            j <= feature.attributes.len(),
            body@ == base + enc_repeat(fv.attributes.take(j as int), value_encoder()),
        decreases feature.attributes.len() - j,
    {
        put_value(&mut body, &feature.attributes[j]);
        proof {
            let t = fv.attributes.take(j + 1);
            assert(t.drop_last() =~= fv.attributes.take(j as int));
            assert(t.last() == fv.attributes[j as int]);
        }
        j = j + 1;
        assert(body@ =~= base + enc_repeat(fv.attributes.take(j as int), value_encoder()));
    }
    assert(fv.attributes.take(j as int) =~= fv.attributes);
    assert(body@ =~= feature_body(fv, schema@.null_bitmap_bytes()));

    // Size (excludes the 4-byte size field itself), then the rest
    let mut buf: Vec<u8> = Vec::new();
    put_u32(&mut buf, body.len() as u32);
    put_bytes(&mut buf, body.as_slice());
    assert(buf@ =~= feature_bytes(fv, schema@));
    Ok(buf)
}

// ── The file ──────────────────────────────────────────────────────────────

/// The 64-byte header: magic, version, flags (spatial index and offset
/// table), a reserved byte, the feature count, the envelope, the size of
/// the schema section, and twelve reserved bytes.
pub open spec fn header_bytes(count: u64, env: EnvelopeBits, schema_size: u32) -> Seq<u8> {
    magic_bytes() + seq![
        VERSION_MAJOR,
        VERSION_MINOR,
        FLAG_HAS_SPATIAL_INDEX | FLAG_HAS_OFFSET_TABLE,
        0u8,
    ] + enc_u64(count) + enc_envelope(env) + enc_u32(schema_size) + Seq::new(12, |i: int| 0u8)
}

/// The header as first written: no features and the empty envelope.
pub open spec fn placeholder_header(sv: SchemaView) -> Seq<u8> {
    header_bytes(0, empty_envelope(), schema_bytes(sv).len() as u32)
}

pub open spec fn feature_encoder(sv: SchemaView) -> spec_fn(FeatureView) -> Seq<u8> {
    |f: FeatureView| feature_bytes(f, sv)
}

/// The feature records, one after the other.
pub open spec fn records(fs: Seq<FeatureView>, sv: SchemaView) -> Seq<u8> {
    enc_repeat(fs, feature_encoder(sv))
}

/// Where the feature records start: after the header and the schema.
pub open spec fn data_start(sv: SchemaView) -> int {
    HEADER_SIZE + schema_bytes(sv).len()
}

/// What a writer has written once these features were added.
pub open spec fn written_bytes(sv: SchemaView, fs: Seq<FeatureView>) -> Seq<u8> {
    placeholder_header(sv) + schema_bytes(sv) + records(fs, sv)
}

/// Where each feature record starts.
pub open spec fn record_offsets(sv: SchemaView, fs: Seq<FeatureView>) -> Seq<u64> {
    Seq::new(fs.len(), |i: int| (data_start(sv) + records(fs.take(i), sv).len()) as u64)
}

/// The 32-byte footer: offset table position, index position, data start,
/// the magic and four reserved bytes.
pub open spec fn footer_bytes(otp: u64, ip: u64, ds: u64) -> Seq<u8> {
    enc_u64(otp) + enc_u64(ip) + enc_u64(ds) + magic_bytes() + seq![0u8, 0u8, 0u8, 0u8]
}

/// What finishing appends: the offset table, the spatial index with these
/// feature indices and node boxes, and the footer.
pub open spec fn tail_bytes(
    sv: SchemaView,
    fs: Seq<FeatureView>,
    fi: Seq<u64>,
    nodes: Seq<EnvelopeBits>,
    ns: u16,
) -> Seq<u8> {
    let n = fs.len() as u64;
    let p = written_bytes(sv, fs).len();
    enc_repeat(record_offsets(sv, fs), u64_encoder()) + index_bytes(fi, nodes, ns, n)
        + footer_bytes(p as u64, (p + 8 * n) as u64, data_start(sv) as u64)
}

/// What finishing writes over the header at offset 8: the feature count and
/// the envelope.
pub open spec fn header_patch(n: u64, env: EnvelopeBits) -> Seq<u8> {
    enc_u64(n) + enc_envelope(env)
}

/// `s` with the bytes at `pos` replaced by `p`.
pub open spec fn overwrite(s: Seq<u8>, pos: int, p: Seq<u8>) -> Seq<u8> {
    s.take(pos) + p + s.skip(pos + p.len())
}

/// The finished file.
pub open spec fn file_bytes(
    sv: SchemaView,
    fs: Seq<FeatureView>,
    fi: Seq<u64>,
    nodes: Seq<EnvelopeBits>,
    ns: u16,
    env: EnvelopeBits,
) -> Seq<u8> {
    overwrite(
        written_bytes(sv, fs) + tail_bytes(sv, fs, fi, nodes, ns),
        8,
        header_patch(fs.len() as u64, env),
    )
}

/// A writer as contracts see it.
pub struct WriterView {
    pub schema: SchemaView,
    /// The features added so far.
    pub features: Seq<FeatureView>,
    pub node_size: u16,
    pub finalized: bool,
}

/// The shapes of the present geometries, in order, or the first error.
pub open spec fn shapes_spec(gs: Seq<Option<Seq<u8>>>) -> Result<Seq<WkbShapeView>, ErrorCase>
    decreases gs.len(),
{
    if gs.len() == 0 {
        Ok(Seq::empty())
    } else {
        match shapes_spec(gs.drop_last()) {
            Ok(ss) => match gs.last() {
                Some(b) => match parse_wkb(b) {
                    Ok(sh) => Ok(ss.push(sh)),
                    Err(e) => Err(e),
                },
                None => Ok(ss),
            },
            Err(e) => Err(e),
        }
    }
}

pub open spec fn shapes_view(v: Seq<WkbShape>) -> Seq<WkbShapeView> {
    v.map_values(|s: WkbShape| s@)
}

/// Adding a feature: the shapes of its geometries, or why it is refused.
pub open spec fn add_feature_spec(w: WriterView, f: FeatureView) -> Result<
    Seq<WkbShapeView>,
    ErrorCase,
> {
    if w.finalized {
        Err(ErrorCase::AlreadyFinalized)
    } else if f.geometries.len() != w.schema.geometry_columns.len() {
        Err(
            ErrorCase::SchemaMismatch {
                expected: w.schema.geometry_columns.len() as usize,
                got: f.geometries.len() as usize,
            },
        )
    } else if f.attributes.len() != w.schema.attribute_columns.len() {
        Err(
            ErrorCase::SchemaMismatch {
                expected: w.schema.attribute_columns.len() as usize,
                got: f.attributes.len() as usize,
            },
        )
    } else {
        match shapes_spec(f.geometries) {
            Ok(sh) => if written_bytes(w.schema, w.features).len() + feature_bytes(
                f,
                w.schema,
            ).len() > u64::MAX {
                Err(ErrorCase::Io)
            } else {
                Ok(sh)
            },
            Err(e) => Err(e),
        }
    }
}

/// Finishing is refused once finished, and when the index would start
/// beyond the largest file position.
pub open spec fn finish_ok(w: WriterView) -> Result<(), ErrorCase> {
    if w.finalized {
        Err(ErrorCase::AlreadyFinalized)
    } else if written_bytes(w.schema, w.features).len() + 8 * w.features.len() > u64::MAX {
        Err(ErrorCase::Io)
    } else {
        Ok(())
    }
}

/// Once reading a shape fails, the shapes of a longer list fail the same way.
pub proof fn lemma_shapes_err_persists(gs: Seq<Option<Seq<u8>>>, k: nat)
    requires
        k <= gs.len(),
        shapes_spec(gs.take(k as int)) is Err,
    ensures
        shapes_spec(gs) == shapes_spec(gs.take(k as int)),
    decreases gs.len() - k,
{
    if k < gs.len() {
        let t = gs.take((k + 1) as int);
        assert(t.drop_last() =~= gs.take(k as int));
        lemma_shapes_err_persists(gs, k + 1);
    } else {
        assert(gs.take(k as int) =~= gs);
    }
}

/// Each record takes at least one byte (its size field takes four).
pub proof fn lemma_records_len(fs: Seq<FeatureView>, sv: SchemaView)
    ensures
        records(fs, sv).len() >= fs.len(),
    decreases fs.len(),
{
    if fs.len() > 0 {
        lemma_records_len(fs.drop_last(), sv);
        lemma_enc_lens(0, 0, 0);
    }
}

/// Writes an ERFF file: the header and schema first, then each feature
/// record, then on finishing the offset table, the spatial index, the
/// footer, and the final feature count and envelope over the header.
/// Each step hands back the bytes to write.
pub struct ErffWriter {
    schema: Schema,
    feature_count: u64,
    feature_offsets: Vec<u64>,
    position: u64,
    data_start_offset: u64,
    finalized: bool,
    node_size: u16,
    features: Ghost<Seq<FeatureView>>,
}

impl View for ErffWriter {
    type V = WriterView;

    closed spec fn view(&self) -> WriterView {
        WriterView {
            schema: self.schema@,
            features: self.features@,
            node_size: self.node_size,
            finalized: self.finalized,
        }
    }
}

impl ErffWriter {
    /// The position is the length of what was written, and each offset is
    /// where its record starts.
    pub closed spec fn wf(&self) -> bool {
        &&& self.position == written_bytes(self.schema@, self.features@).len()
        &&& self.data_start_offset == data_start(self.schema@)
        &&& self.feature_offsets@ == record_offsets(self.schema@, self.features@)
        &&& self.feature_count == self.features@.len()
        &&& self.schema.geometry_columns.len() + self.schema.attribute_columns.len() <= usize::MAX
    }

    /// Create a writer; the header (with placeholders) and the schema
    /// section are the bytes to write first.
    pub fn new(schema: Schema) -> (res: Result<(ErffWriter, Vec<u8>), ErffError>)
        requires
            schema.geometry_columns.len() + schema.attribute_columns.len() <= usize::MAX,
        ensures
            (res is Ok) <==> data_start(schema@) <= u64::MAX,
            res matches Ok((w, b)) ==> {
                &&& w.wf()
                &&& w@ == (WriterView {
                    schema: schema@,
                    features: Seq::empty(),
                    node_size: DEFAULT_NODE_SIZE,
                    finalized: false,
                })
                &&& b@ == written_bytes(schema@, Seq::empty())
            },
            res matches Err(e) ==> e.case() == ErrorCase::Io,
    {
        let ghost sv = schema@;
        let schema_bytes = serialize_schema(&schema)?;
        let len = schema_bytes.len();
        if len as u64 > u64::MAX - HEADER_SIZE {
            return Err(ErffError::Io(invalid_input()));
        }
        let data_start_offset = HEADER_SIZE + len as u64;

        // File header (64 bytes) with placeholders
        let mut buf: Vec<u8> = Vec::new();
        put_u8(&mut buf, MAGIC[0]);
        put_u8(&mut buf, MAGIC[1]);
        put_u8(&mut buf, MAGIC[2]);
        put_u8(&mut buf, MAGIC[3]);
        put_u8(&mut buf, VERSION_MAJOR);
        put_u8(&mut buf, VERSION_MINOR);
        put_u8(&mut buf, FLAG_HAS_SPATIAL_INDEX | FLAG_HAS_OFFSET_TABLE);
        put_u8(&mut buf, 0);
        put_u64(&mut buf, 0);
        let empty = EnvelopeBits::empty();
        put_envelope(&mut buf, &empty);
        put_u32(&mut buf, len as u32);
        let ghost before = buf@;
        let mut i: usize = 0;
        while i < 12
            invariant
                i <= 12,
                buf@ == before + Seq::new(i as nat, |j: int| 0u8),
            decreases 12 - i,
        {
            put_u8(&mut buf, 0);
            i = i + 1;
            assert(buf@ =~= before + Seq::new(i as nat, |j: int| 0u8));
        }
        assert(buf@ =~= placeholder_header(sv));
        proof {
            lemma_enc_lens(0, 0, 0);
        }
        assert(buf@.len() == HEADER_SIZE);
        put_bytes(&mut buf, schema_bytes.as_slice());
        assert(records(Seq::empty(), sv) =~= Seq::<u8>::empty());
        assert(buf@ =~= written_bytes(sv, Seq::empty()));
        let writer = ErffWriter {
            schema,
            feature_count: 0,
            feature_offsets: Vec::new(),
            position: HEADER_SIZE + len as u64,
            data_start_offset,
            finalized: false,
            node_size: DEFAULT_NODE_SIZE,
            features: Ghost(Seq::empty()),
        };
        assert(writer.feature_offsets@ =~= record_offsets(sv, Seq::empty()));
        Ok((writer, buf))
    }
}

impl ErffWriter {
    /// Set the R-tree node size (default: 16). Must be called before adding
    /// features.
    pub fn set_node_size(&mut self, node_size: u16)
        requires
            old(self).wf(),
        ensures
            final(self).wf(),
            final(self)@ == (WriterView { node_size, ..old(self)@ }),
    {
        self.node_size = node_size;
    }

    pub fn node_size(&self) -> (ns: u16)
        ensures
            ns == self@.node_size,
    {
        self.node_size
    }

    pub fn feature_count(&self) -> (n: u64)
        requires
            self.wf(),
        ensures
            n == self@.features.len(),
    {
        self.feature_count
    }

    /// Add a feature: check it against the schema and read the shapes of
    /// its geometries, then record where it starts. The record is the
    /// bytes to write; the shapes give the feature's bounding box.
    #[verifier::loop_isolation(false)]
    pub fn add_feature(&mut self, feature: &Feature) -> (res: Result<
        (Vec<u8>, Vec<WkbShape>),
        ErffError,
    >)
        requires
            old(self).wf(),
        ensures
            final(self).wf(),
            match add_feature_spec(old(self)@, feature@) {
                Ok(sh) => res matches Ok((b, shapes)) && b@ == feature_bytes(
                    feature@,
                    old(self)@.schema,
                ) && shapes_view(shapes@) == sh && final(self)@ == (WriterView {
                    features: old(self)@.features.push(feature@),
                    ..old(self)@
                }),
                Err(c) => res matches Err(e) && e.case() == c && final(self)@ == old(self)@,
            },
    {
        let ghost sv = self.schema@;
        let ghost fs = self.features@;
        let ghost fv = feature@;
        if self.finalized {
            return Err(ErffError::AlreadyFinalized);
        }
        // Validate column counts
        if feature.geometries.len() != self.schema.geometry_columns.len() {
            return Err(
                ErffError::SchemaMismatch {
                    expected: self.schema.geometry_columns.len(),
                    got: feature.geometries.len(),
                },
            );
        }
        if feature.attributes.len() != self.schema.attribute_columns.len() {
            return Err(
                ErffError::SchemaMismatch {
                    expected: self.schema.attribute_columns.len(),
                    got: feature.attributes.len(),
                },
            );
        }

        // The shapes of the geometries, which give the feature's bbox
        let mut shapes: Vec<WkbShape> = Vec::new();
        let mut i: usize = 0;
        assert(fv.geometries.take(0) =~= Seq::<Option<Seq<u8>>>::empty());
        assert(shapes_view(shapes@) =~= Seq::<WkbShapeView>::empty());
        while i < feature.geometries.len()
            invariant
                i <= feature.geometries.len(),
                fv == feature@,
                shapes_spec(fv.geometries.take(i as int)) == Ok::<_, ErrorCase>(
                    shapes_view(shapes@),
                ),
            decreases feature.geometries.len() - i,
        {
            let ghost before = shapes_view(shapes@);
            let ghost t = fv.geometries.take(i + 1);
            assert(t.drop_last() =~= fv.geometries.take(i as int));
            assert(t.last() == crate::types::geometry_view(feature.geometries[i as int]));
            match &feature.geometries[i] {
                Some(wkb_data) => {
                    let sh = match crate::wkb::wkb_shape(wkb_data.as_slice()) {
                        Ok(sh) => sh,
                        Err(e) => {
                            proof {
                                lemma_shapes_err_persists(fv.geometries, (i + 1) as nat);
                                assert(fv.geometries.take(fv.geometries.len() as int)
                                    =~= fv.geometries);
                            }
                            return Err(e);
                        },
                    };
                    shapes.push(sh);
                    assert(shapes_view(shapes@) =~= before.push(sh@));
                },
                None => {},
            }
            i = i + 1;
        }
        assert(fv.geometries.take(i as int) =~= fv.geometries);

        // Serialize; the record starts at the current position
        let buf = match serialize_feature(feature, &self.schema) {
            Ok(b) => b,
            Err(e) => {
                return Err(e);
            },
        };
        let len = buf.len();
        if len as u64 > u64::MAX - self.position {
            return Err(ErffError::Io(invalid_input()));
        }
        proof {
            lemma_records_len(fs, sv);
            lemma_enc_lens(0, 0, 0);
            assert(placeholder_header(sv).len() == HEADER_SIZE);
        }
        let offset = self.position;
        self.feature_offsets.push(offset);
        self.position = self.position + len as u64;
        self.feature_count = self.feature_count + 1;
        self.features = Ghost(fs.push(fv));
        proof {
            let nfs = fs.push(fv);
            assert(nfs.drop_last() =~= fs);
            assert(records(nfs, sv) == records(fs, sv) + feature_bytes(fv, sv));
            assert(written_bytes(sv, nfs) =~= written_bytes(sv, fs) + feature_bytes(fv, sv));
            assert forall|k: int| 0 <= k < nfs.len() implies #[trigger] nfs.take(k) == if k
                < fs.len() {
                fs.take(k)
            } else {
                fs
            } by {
                if k < fs.len() {
                    assert(nfs.take(k) =~= fs.take(k));
                } else {
                    assert(nfs.take(k) =~= fs);
                }
            }
            assert forall|k: int| 0 <= k < nfs.len() implies self.feature_offsets@[k]
                == #[trigger] record_offsets(sv, nfs)[k] by {
                if k < fs.len() {
                    assert(self.feature_offsets@[k] == record_offsets(sv, fs)[k]);
                }
            }
            assert(self.feature_offsets@ =~= record_offsets(sv, nfs));
        }
        Ok((buf, shapes))
    }

    /// Finish the file. `feature_indices` and `nodes` are the spatial index
    /// built over the features' boxes; `envelope` covers them all. Returns
    /// the bytes to append (offset table, index, footer) and the bytes to
    /// write over the header at offset 8 (feature count and envelope).
    pub fn finish(
        self,
        feature_indices: &[u64],
        nodes: &[EnvelopeBits],
        envelope: EnvelopeBits,
    ) -> (res: Result<(Vec<u8>, Vec<u8>), ErffError>)
        requires
            self.wf(),
        ensures
            match finish_ok(self@) {
                Ok(_) => res matches Ok((tail, patch)) && tail@ == tail_bytes(
                    self@.schema,
                    self@.features,
                    feature_indices@,
                    nodes@,
                    self@.node_size,
                ) && patch@ == header_patch(self@.features.len() as u64, envelope),
                Err(c) => res matches Err(e) && e.case() == c,
            },
    {
        let ghost sv = self.schema@;
        let ghost fs = self.features@;
        if self.finalized {
            return Err(ErffError::AlreadyFinalized);
        }
        if self.feature_count > (u64::MAX - self.position) / 8 {
            assert(8 * self.feature_count > u64::MAX - self.position) by (nonlinear_arith)
                requires
                    self.feature_count > (u64::MAX - self.position) / 8,
            ;
            return Err(ErffError::Io(invalid_input()));
        }
        assert(8 * self.feature_count <= u64::MAX - self.position) by (nonlinear_arith)
            requires
                self.feature_count <= (u64::MAX - self.position) / 8,
        ;

        // Feature offset table
        let offset_table_pos = self.position;
        let mut tail: Vec<u8> = Vec::new();
        let mut i: usize = 0;
        assert(self.feature_offsets@.take(0) =~= Seq::<u64>::empty());
        while i < self.feature_offsets.len()
            invariant
                i <= self.feature_offsets.len(),
                tail@ == enc_repeat(self.feature_offsets@.take(i as int), u64_encoder()),
            decreases self.feature_offsets.len() - i,
        {
            put_u64(&mut tail, self.feature_offsets[i]);
            proof {
                let t = self.feature_offsets@.take(i + 1);
                assert(t.drop_last() =~= self.feature_offsets@.take(i as int));
            }
            i = i + 1;
        }
        assert(self.feature_offsets@.take(i as int) =~= self.feature_offsets@);

        // Spatial index
        let index_pos = self.position + 8 * self.feature_count;
        crate::index::write_index(
            &mut tail,
            feature_indices,
            nodes,
            self.node_size,
            self.feature_count,
        );

        // Footer (32 bytes)
        put_u64(&mut tail, offset_table_pos);
        put_u64(&mut tail, index_pos);
        put_u64(&mut tail, self.data_start_offset);
        put_u8(&mut tail, MAGIC[0]);
        put_u8(&mut tail, MAGIC[1]);
        put_u8(&mut tail, MAGIC[2]);
        put_u8(&mut tail, MAGIC[3]);
        put_u8(&mut tail, 0);
        put_u8(&mut tail, 0);
        put_u8(&mut tail, 0);
        put_u8(&mut tail, 0);
        assert(tail@ =~= tail_bytes(sv, fs, feature_indices@, nodes@, self.node_size));

        // What goes over the header at offset 8
        let mut patch: Vec<u8> = Vec::new();
        put_u64(&mut patch, self.feature_count);
        put_envelope(&mut patch, &envelope);
        assert(patch@ =~= header_patch(fs.len() as u64, envelope));
        Ok((tail, patch))
    }
}

} // verus!
