//! The laws of the format: what a reader gives back of what a writer wrote,
//! stated over the specifications that the readers' and writers' contracts
//! use, and proved here.

use crate::layout::{
    at, enc_repeat, enc_string_u16, enc_string_u32, enc_u16, enc_u32, enc_u8, lemma_at_split,
    lemma_enc_lens, lemma_repeat_at, lemma_string_u16_at, lemma_string_u32_at, lemma_u16_at,
    lemma_u32_at, lemma_u8_at,
};
use crate::reader::{
    attribute_column_item, geometry_column_item, metadata_item, parse_attribute_column,
    parse_geometry_column, parse_metadata_entry, parse_schema,
};
use crate::bitmap::{bit_set, bitmap_of, lemma_bit_set};
use crate::layout::{enc_bytes_u32, enc_u64, lemma_bytes_u32_at, lemma_take_at, lemma_u64_at};
use crate::reader::{
    parse_attributes, parse_feature, parse_geometries, parse_take, parse_u32, parse_u8,
    parse_value,
};
use crate::types::{
    AttributeColumnView, ColumnType, CoordType, FeatureView, GeometryType, GeometryColumnView, SchemaView, ValueView,
};
use crate::writer::{
    enc_geometry, enc_value, feature_body, feature_bytes, geometry_encoder, presence,
    value_encoder,
};
use crate::writer::{
    attribute_column_encoder, enc_attribute_column, enc_geometry_column, enc_metadata_entry,
    geometry_column_encoder, metadata_encoder, schema_bytes,
};
use crate::error::ErrorCase;
use crate::wkb::{
    coord_encoder, enc_coord, enc_ring, has_srid, linestring_wkb, parse_coord, parse_coords,
    parse_geom, parse_rings, parse_wkb, parse_word32, parse_word64, point_wkb, polygon_wkb,
    ring_encoder, spec_decode_geom_type, WkbShapeView,
};
use crate::index::{
    hits_monotone, law_search_finds_exactly_the_hits, search_scan, enc_envelope, envelope_encoder, envelope_item, index_bytes, parse_envelope, parse_index,
    total_nodes, u64_encoder, u64_item,
};
use crate::types::{
    empty_envelope, EnvelopeBits, FLAG_HAS_OFFSET_TABLE, FLAG_HAS_SPATIAL_INDEX, HEADER_SIZE,
    VERSION_MAJOR, VERSION_MINOR,
};
use crate::layout::{
    lemma_at_self, lemma_overwrite_at, lemma_overwrite_self, lemma_repeat_item_at,
};
use crate::reader::{
    fetch_features, query_indices_spec, query_spec, feature_item, features_spec, index_spec, magic_bytes, offsets_spec, parse_footer,
    parse_header_fields, parse_open, parse_preamble, read_feature_spec, FileInfo, ReaderView,
};
use crate::writer::{
    data_start, feature_encoder, file_bytes, footer_bytes, header_patch, placeholder_header,
    record_offsets, records, tail_bytes, written_bytes,
};
use crate::wkb::{multi_wkb, parse_subs, simple_encoder, simple_wkb, SimpleGeometry};
use crate::writer::{add_feature_spec, shapes_spec, WriterView};
use vstd::prelude::*;
use vstd::utf8::*;

verus! {

/// Every length and count of the schema fits the field it is written in:
/// the CRS and metadata values take at most 2^32 - 1 bytes of UTF-8, names
/// and metadata keys at most 2^16 - 1, there are at most 2^16 - 1 columns of
/// each kind and 2^32 - 1 metadata entries.
pub open spec fn schema_fits(s: SchemaView) -> bool {
    &&& encode_utf8(s.crs).len() <= u32::MAX
    &&& s.geometry_columns.len() <= u16::MAX
    &&& s.attribute_columns.len() <= u16::MAX
    &&& s.metadata.len() <= u32::MAX
    &&& forall|i: int|
        0 <= i < s.geometry_columns.len() ==> encode_utf8(
            #[trigger] s.geometry_columns[i].name,
        ).len() <= u16::MAX
    &&& forall|i: int|
        0 <= i < s.attribute_columns.len() ==> encode_utf8(
            #[trigger] s.attribute_columns[i].name,
        ).len() <= u16::MAX
    &&& forall|i: int|
        0 <= i < s.metadata.len() ==> encode_utf8((#[trigger] s.metadata[i]).0).len() <= u16::MAX
            && encode_utf8(s.metadata[i].1).len() <= u32::MAX
}

proof fn lemma_geometry_column_at(s: Seq<u8>, p: int, c: GeometryColumnView)
    requires
        at(s, p, enc_geometry_column(c)),
        encode_utf8(c.name).len() <= u16::MAX,
    ensures
        parse_geometry_column(s, p) == Ok::<_, ErrorCase>((c, p + enc_geometry_column(c).len())),
{
    let a = enc_string_u16(c.name);
    let g = enc_u8(c.geom_type.code());
    let t = enc_u8(c.coord_type.code());
    lemma_at_split(s, p, a + g, t);
    lemma_at_split(s, p, a, g);
    lemma_string_u16_at(s, p, c.name);
    lemma_u8_at(s, p + a.len(), c.geom_type.code());
    lemma_u8_at(s, p + a.len() + 1, c.coord_type.code());
}

proof fn lemma_attribute_column_at(s: Seq<u8>, p: int, c: AttributeColumnView)
    requires
        at(s, p, enc_attribute_column(c)),
        encode_utf8(c.name).len() <= u16::MAX,
    ensures
        parse_attribute_column(s, p) == Ok::<_, ErrorCase>(
            (c, p + enc_attribute_column(c).len()),
        ),
{
    let flags: u8 = if c.nullable {
        1u8
    } else {
        0u8
    };
    let a = enc_string_u16(c.name);
    let g = enc_u8(c.col_type.code());
    let t = enc_u8(flags);
    lemma_at_split(s, p, a + g, t);
    lemma_at_split(s, p, a, g);
    lemma_string_u16_at(s, p, c.name);
    lemma_u8_at(s, p + a.len(), c.col_type.code());
    lemma_u8_at(s, p + a.len() + 1, flags);
    assert((1u8 & 1u8) != 0u8 && (0u8 & 1u8) == 0u8) by (bit_vector);
}

proof fn lemma_metadata_entry_at(s: Seq<u8>, p: int, kv: (Seq<char>, Seq<char>))
    requires
        at(s, p, enc_metadata_entry(kv)),
        encode_utf8(kv.0).len() <= u16::MAX,
        encode_utf8(kv.1).len() <= u32::MAX,
    ensures
        parse_metadata_entry(s, p) == Ok::<_, ErrorCase>((kv, p + enc_metadata_entry(kv).len())),
{
    lemma_at_split(s, p, enc_string_u16(kv.0), enc_string_u32(kv.1));
    lemma_string_u16_at(s, p, kv.0);
    lemma_string_u32_at(s, p + enc_string_u16(kv.0).len(), kv.1);
}

/// The schema section reads back as the schema it was written from, wherever
/// it stands in the data.
pub proof fn lemma_schema_at(s: Seq<u8>, pos: int, sv: SchemaView)
    requires
        at(s, pos, schema_bytes(sv)),
        schema_fits(sv),
    ensures
        parse_schema(s, pos) == Ok::<_, ErrorCase>((sv, pos + schema_bytes(sv).len())),
{
    let crs = enc_string_u32(sv.crs);
    let ng = enc_u16(sv.geometry_columns.len() as u16);
    let gs = enc_repeat(sv.geometry_columns, geometry_column_encoder());
    let na = enc_u16(sv.attribute_columns.len() as u16);
    let as_ = enc_repeat(sv.attribute_columns, attribute_column_encoder());
    let nm = enc_u32(sv.metadata.len() as u32);
    let ms = enc_repeat(sv.metadata, metadata_encoder());
    lemma_enc_lens(0, 0, 0);
    lemma_at_split(s, pos, crs + ng + gs + na + as_ + nm, ms);
    lemma_at_split(s, pos, crs + ng + gs + na + as_, nm);
    lemma_at_split(s, pos, crs + ng + gs + na, as_);
    lemma_at_split(s, pos, crs + ng + gs, na);
    lemma_at_split(s, pos, crs + ng, gs);
    lemma_at_split(s, pos, crs, ng);
    lemma_string_u32_at(s, pos, sv.crs);
    let p1 = pos + crs.len();
    lemma_u16_at(s, p1, sv.geometry_columns.len() as u16);
    let p2 = p1 + ng.len();
    assert forall|i: int, p: int|
        0 <= i < sv.geometry_columns.len() && #[trigger] at(
            s,
            p,
            geometry_column_encoder()(sv.geometry_columns[i]),
        ) implies geometry_column_item()(s, p) == Ok::<_, ErrorCase>(
        (
            sv.geometry_columns[i],
            p + geometry_column_encoder()(sv.geometry_columns[i]).len(),
        ),
    ) by {
        lemma_geometry_column_at(s, p, sv.geometry_columns[i]);
    }
    lemma_repeat_at(s, p2, sv.geometry_columns, geometry_column_encoder(), geometry_column_item());
    let p3 = p2 + gs.len();
    lemma_u16_at(s, p3, sv.attribute_columns.len() as u16);
    let p4 = p3 + na.len();
    assert forall|i: int, p: int|
        0 <= i < sv.attribute_columns.len() && #[trigger] at(
            s,
            p,
            attribute_column_encoder()(sv.attribute_columns[i]),
        ) implies attribute_column_item()(s, p) == Ok::<_, ErrorCase>(
        (
            sv.attribute_columns[i],
            p + attribute_column_encoder()(sv.attribute_columns[i]).len(),
        ),
    ) by {
        lemma_attribute_column_at(s, p, sv.attribute_columns[i]);
    }
    lemma_repeat_at(
        s,
        p4,
        sv.attribute_columns,
        attribute_column_encoder(),
        attribute_column_item(),
    );
    let p5 = p4 + as_.len();
    lemma_u32_at(s, p5, sv.metadata.len() as u32);
    let p6 = p5 + nm.len();
    assert forall|i: int, p: int|
        0 <= i < sv.metadata.len() && #[trigger] at(s, p, metadata_encoder()(sv.metadata[i]))
            implies metadata_item()(s, p) == Ok::<_, ErrorCase>(
        (sv.metadata[i], p + metadata_encoder()(sv.metadata[i]).len()),
    ) by {
        lemma_metadata_entry_at(s, p, sv.metadata[i]);
    }
    lemma_repeat_at(s, p6, sv.metadata, metadata_encoder(), metadata_item());
}

/// Schema roundtrip: the bytes that `serialize_schema` writes for a schema
/// are read back by `deserialize_schema` as that same schema, and the read
/// ends where those bytes end, whatever follows them.
pub proof fn law_schema_roundtrip(sv: SchemaView, rest: Seq<u8>)
    requires
        schema_fits(sv),
    ensures
        parse_schema(schema_bytes(sv) + rest, 0) == Ok::<_, ErrorCase>(
            (sv, schema_bytes(sv).len() as int),
        ),
{
    crate::layout::lemma_at_self(schema_bytes(sv), rest);
    lemma_schema_at(schema_bytes(sv) + rest, 0, sv);
}

// ── Feature records ───────────────────────────────────────────────────────

/// A value can stand in a column of the given type: it is null, or of that
/// type, with its bytes (for strings and binaries) no longer than 2^32 - 1.
pub open spec fn value_fits(v: ValueView, t: ColumnType) -> bool {
    match v {
        ValueView::Null => true,
        ValueView::Bool(_) => t == ColumnType::Bool,
        ValueView::Int8(_) => t == ColumnType::Int8,
        ValueView::UInt8(_) => t == ColumnType::UInt8,
        ValueView::Int16(_) => t == ColumnType::Int16,
        ValueView::UInt16(_) => t == ColumnType::UInt16,
        ValueView::Int32(_) => t == ColumnType::Int32,
        ValueView::UInt32(_) => t == ColumnType::UInt32,
        ValueView::Int64(_) => t == ColumnType::Int64,
        ValueView::UInt64(_) => t == ColumnType::UInt64,
        ValueView::Float32(_) => t == ColumnType::Float32,
        ValueView::Float64(_) => t == ColumnType::Float64,
        ValueView::String(c) => t == ColumnType::String && encode_utf8(c).len() <= u32::MAX,
        ValueView::Binary(b) => t == ColumnType::Binary && b.len() <= u32::MAX,
        ValueView::Date(_) => t == ColumnType::Date,
        ValueView::DateTime(_) => t == ColumnType::DateTime,
        ValueView::Json(c) => t == ColumnType::Json && encode_utf8(c).len() <= u32::MAX,
    }
}

/// A feature fits a schema: one value per column, each attribute null or of
/// its column's type, every WKB and string no longer than 2^32 - 1 bytes.
pub open spec fn feature_fits(f: FeatureView, sv: SchemaView) -> bool {
    &&& f.geometries.len() == sv.geometry_columns.len()
    &&& f.attributes.len() == sv.attribute_columns.len()
    &&& forall|i: int|
        0 <= i < f.geometries.len() ==> (#[trigger] f.geometries[i] matches Some(b) ==> b.len()
            <= u32::MAX)
    &&& forall|i: int|
        0 <= i < f.attributes.len() ==> value_fits(
            #[trigger] f.attributes[i],
            sv.attribute_columns[i].col_type,
        )
}

proof fn lemma_value_at(s: Seq<u8>, p: int, v: ValueView, t: ColumnType)
    requires
        at(s, p, enc_value(v)),
        !(v is Null),
        value_fits(v, t),
    ensures
        parse_value(s, p, t) == Ok::<_, ErrorCase>((v, p + enc_value(v).len())),
{
    match v {
        ValueView::Bool(b) => {
            lemma_u8_at(s, p, if b { 1u8 } else { 0u8 });
        },
        ValueView::Int8(x) => {
            lemma_u8_at(s, p, x as u8);
            assert((x as u8) as i8 == x) by (bit_vector);
        },
        ValueView::UInt8(x) => {
            lemma_u8_at(s, p, x);
        },
        ValueView::Int16(x) => {
            lemma_u16_at(s, p, x as u16);
            assert((x as u16) as i16 == x) by (bit_vector);
        },
        ValueView::UInt16(x) => {
            lemma_u16_at(s, p, x);
        },
        ValueView::Int32(x) => {
            lemma_u32_at(s, p, x as u32);
            assert((x as u32) as i32 == x) by (bit_vector);
        },
        ValueView::UInt32(x) => {
            lemma_u32_at(s, p, x);
        },
        ValueView::Int64(x) => {
            lemma_u64_at(s, p, x as u64);
            assert((x as u64) as i64 == x) by (bit_vector);
        },
        ValueView::UInt64(x) => {
            lemma_u64_at(s, p, x);
        },
        ValueView::Float32(x) => {
            lemma_u32_at(s, p, x);
        },
        ValueView::Float64(x) => {
            lemma_u64_at(s, p, x);
        },
        ValueView::String(c) => {
            lemma_string_u32_at(s, p, c);
        },
        ValueView::Binary(b) => {
            lemma_bytes_u32_at(s, p, b);
        },
        ValueView::Date(x) => {
            lemma_u32_at(s, p, x as u32);
            assert((x as u32) as i32 == x) by (bit_vector);
        },
        ValueView::DateTime(x) => {
            lemma_u64_at(s, p, x as u64);
            assert((x as u64) as i64 == x) by (bit_vector);
        },
        ValueView::Json(c) => {
            lemma_string_u32_at(s, p, c);
        },
        ValueView::Null => {},
    }
}

proof fn lemma_geometries_at(s: Seq<u8>, pos: int, bm: Seq<u8>, gs: Seq<Option<Seq<u8>>>)
    requires
        at(s, pos, enc_repeat(gs, geometry_encoder())),
        forall|i: int|
            0 <= i < gs.len() ==> bit_set(bm, i) == (#[trigger] gs[i] is Some) && (gs[i] matches Some(
                b,
            ) ==> b.len() <= u32::MAX),
    ensures
        parse_geometries(s, pos, bm, gs.len()) == Ok::<_, ErrorCase>(
            (gs, pos + enc_repeat(gs, geometry_encoder()).len()),
        ),
    decreases gs.len(),
{
    if gs.len() == 0 {
        assert(gs =~= Seq::<Option<Seq<u8>>>::empty());
    } else {
        let init = gs.drop_last();
        let last = gs.len() - 1;
        lemma_at_split(s, pos, enc_repeat(init, geometry_encoder()), enc_geometry(gs.last()));
        assert forall|i: int| 0 <= i < init.len() implies bit_set(bm, i) == (
        #[trigger] init[i] is Some) && (init[i] matches Some(b) ==> b.len() <= u32::MAX) by {
            assert(init[i] == gs[i]);
        }
        lemma_geometries_at(s, pos, bm, init);
        let p = pos + enc_repeat(init, geometry_encoder()).len();
        assert(gs.last() == gs[last]);
        if let Some(b) = gs[last] {
            lemma_bytes_u32_at(s, p, b);
        }
        assert(init.push(gs.last()) =~= gs);
    }
}

proof fn lemma_attributes_at(
    s: Seq<u8>,
    pos: int,
    bm: Seq<u8>,
    cols: Seq<AttributeColumnView>,
    g: nat,
    vs: Seq<ValueView>,
)
    requires
        at(s, pos, enc_repeat(vs, value_encoder())),
        vs.len() <= cols.len(),
        forall|i: int|
            0 <= i < vs.len() ==> bit_set(bm, g + i) == !(#[trigger] vs[i] is Null) && value_fits(
                vs[i],
                cols[i].col_type,
            ),
    ensures
        parse_attributes(s, pos, bm, cols, g, vs.len()) == Ok::<_, ErrorCase>(
            (vs, pos + enc_repeat(vs, value_encoder()).len()),
        ),
    decreases vs.len(),
{
    if vs.len() == 0 {
        assert(vs =~= Seq::<ValueView>::empty());
    } else {
        let init = vs.drop_last();
        let last = vs.len() - 1;
        lemma_at_split(s, pos, enc_repeat(init, value_encoder()), enc_value(vs.last()));
        assert forall|i: int| 0 <= i < init.len() implies bit_set(bm, g + i) == !(
        #[trigger] init[i] is Null) && value_fits(init[i], cols[i].col_type) by {
            assert(init[i] == vs[i]);
        }
        lemma_attributes_at(s, pos, bm, cols, g, init);
        let p = pos + enc_repeat(init, value_encoder()).len();
        assert(vs.last() == vs[last]);
        if !(vs[last] is Null) {
            lemma_value_at(s, p, vs[last], cols[last].col_type);
        } else {
            assert(enc_value(vs[last]) =~= Seq::<u8>::empty());
        }
        assert(init.push(vs.last()) =~= vs);
    }
}

proof fn lemma_presence(f: FeatureView)
    ensures
        presence(f).len() == f.geometries.len() + f.attributes.len(),
        forall|i: int|
            0 <= i < f.geometries.len() ==> presence(f)[i] == (#[trigger] f.geometries[i] is Some),
        forall|i: int|
            0 <= i < f.attributes.len() ==> presence(f)[f.geometries.len() + i] == !(
            #[trigger] f.attributes[i] is Null),
{
}

/// The bitmap, geometries and attributes of a record body read back.
#[verifier::spinoff_prover]
#[verifier::rlimit(30)]
proof fn lemma_feature_body_at(s: Seq<u8>, p1: int, f: FeatureView, sv: SchemaView)
    requires
        at(s, p1, feature_body(f, sv.null_bitmap_bytes())),
        feature_fits(f, sv),
    ensures
        ({
            let nb = sv.null_bitmap_bytes();
            let bm = bitmap_of(presence(f), nb);
            let p2 = p1 + nb;
            let p3 = p2 + enc_repeat(f.geometries, geometry_encoder()).len();
            &&& parse_take(s, p1, nb as int) == Ok::<_, ErrorCase>((bm, p2))
            &&& parse_geometries(s, p2, bm, sv.geometry_columns.len()) == Ok::<_, ErrorCase>(
                (f.geometries, p3),
            )
            &&& parse_attributes(
                s,
                p3,
                bm,
                sv.attribute_columns,
                sv.geometry_columns.len(),
                sv.attribute_columns.len(),
            ) == Ok::<_, ErrorCase>(
                (f.attributes, p3 + enc_repeat(f.attributes, value_encoder()).len()),
            )
        }),
{
    let nb = sv.null_bitmap_bytes();
    let pres = presence(f);
    let bm = bitmap_of(pres, nb);
    let gs = enc_repeat(f.geometries, geometry_encoder());
    let vs = enc_repeat(f.attributes, value_encoder());
    lemma_at_split(s, p1, bm + gs, vs);
    lemma_at_split(s, p1, bm, gs);
    lemma_take_at(s, p1, bm);
    let p2 = p1 + bm.len();
    let g = f.geometries.len();
    lemma_presence(f);
    assert forall|i: int| 0 <= i < f.geometries.len() implies bit_set(bm, i) == (
    #[trigger] f.geometries[i] is Some) && (f.geometries[i] matches Some(b) ==> b.len()
        <= u32::MAX) by {
        lemma_bit_set(pres, nb, i);
    }
    lemma_geometries_at(s, p2, bm, f.geometries);
    let p3 = p2 + gs.len();
    assert forall|i: int| 0 <= i < f.attributes.len() implies bit_set(bm, g + i) == !(
    #[trigger] f.attributes[i] is Null) && value_fits(
        f.attributes[i],
        sv.attribute_columns[i].col_type,
    ) by {
        lemma_bit_set(pres, nb, g + i);
    }
    lemma_attributes_at(s, p3, bm, sv.attribute_columns, g, f.attributes);
}

/// A feature record reads back as the feature it was written from, wherever
/// it stands in the data.
pub proof fn lemma_feature_at(s: Seq<u8>, pos: int, f: FeatureView, sv: SchemaView)
    requires
        at(s, pos, feature_bytes(f, sv)),
        feature_fits(f, sv),
    ensures
        parse_feature(s, pos, sv) == Ok::<_, ErrorCase>((f, pos + feature_bytes(f, sv).len())),
{
    let nb = sv.null_bitmap_bytes();
    let body = feature_body(f, nb);
    lemma_enc_lens(0, body.len() as u32, 0);
    lemma_at_split(s, pos, enc_u32(body.len() as u32), body);
    lemma_u32_at(s, pos, body.len() as u32);
    lemma_feature_body_at(s, pos + 4, f, sv);
}

/// Feature roundtrip: the record that `serialize_feature` writes for a
/// feature that fits the schema is read back by `deserialize_feature` with
/// that schema as the same feature, ending where the record ends.
pub proof fn law_feature_roundtrip(f: FeatureView, sv: SchemaView, rest: Seq<u8>)
    requires
        feature_fits(f, sv),
    ensures
        parse_feature(feature_bytes(f, sv) + rest, 0, sv) == Ok::<_, ErrorCase>(
            (f, feature_bytes(f, sv).len() as int),
        ),
{
    crate::layout::lemma_at_self(feature_bytes(f, sv), rest);
    lemma_feature_at(feature_bytes(f, sv) + rest, 0, f, sv);
}

// ── WKB ───────────────────────────────────────────────────────────────────

/// The points of the rings, ring after ring.
pub open spec fn concat_rings(rings: Seq<Seq<(u64, u64)>>) -> Seq<(u64, u64)>
    decreases rings.len(),
{
    if rings.len() == 0 {
        Seq::empty()
    } else {
        concat_rings(rings.drop_last()) + rings.last()
    }
}

proof fn lemma_word32_at(s: Seq<u8>, p: int, v: u32)
    requires
        at(s, p, enc_u32(v)),
    ensures
        parse_word32(s, p, true) == Ok::<_, ErrorCase>((v, p + 4)),
{
    lemma_u32_at(s, p, v);
}

proof fn lemma_word64_at(s: Seq<u8>, p: int, v: u64)
    requires
        at(s, p, enc_u64(v)),
    ensures
        parse_word64(s, p, true) == Ok::<_, ErrorCase>((v, p + 8)),
{
    lemma_u64_at(s, p, v);
}

proof fn lemma_coord_at(s: Seq<u8>, p: int, c: (u64, u64))
    requires
        at(s, p, enc_coord(c)),
    ensures
        enc_coord(c).len() == 16,
        parse_coord(s, p, true, 2) == Ok::<_, ErrorCase>((c, p + 16)),
{
    lemma_enc_lens(0, 0, c.0);
    lemma_at_split(s, p, enc_u64(c.0), enc_u64(c.1));
    lemma_word64_at(s, p, c.0);
    lemma_word64_at(s, p + 8, c.1);
    assert(s.subrange(p + 16, p + 16) =~= Seq::<u8>::empty());
}

proof fn lemma_coords_at(s: Seq<u8>, p: int, cs: Seq<(u64, u64)>)
    requires
        at(s, p, enc_repeat(cs, coord_encoder())),
    ensures
        parse_coords(s, p, true, 2, cs.len()) == Ok::<_, ErrorCase>(
            (cs, p + enc_repeat(cs, coord_encoder()).len()),
        ),
    decreases cs.len(),
{
    if cs.len() == 0 {
        assert(cs =~= Seq::<(u64, u64)>::empty());
    } else {
        let init = cs.drop_last();
        lemma_at_split(s, p, enc_repeat(init, coord_encoder()), enc_coord(cs.last()));
        lemma_coords_at(s, p, init);
        lemma_coord_at(s, p + enc_repeat(init, coord_encoder()).len(), cs.last());
        assert(init.push(cs.last()) =~= cs);
    }
}

proof fn lemma_rings_at(s: Seq<u8>, p: int, rings: Seq<Seq<(u64, u64)>>)
    requires
        at(s, p, enc_repeat(rings, ring_encoder())),
        forall|i: int| 0 <= i < rings.len() ==> (#[trigger] rings[i]).len() <= u32::MAX,
    ensures
        parse_rings(s, p, true, 2, rings.len()) == Ok::<_, ErrorCase>(
            (concat_rings(rings), p + enc_repeat(rings, ring_encoder()).len()),
        ),
    decreases rings.len(),
{
    lemma_enc_lens(0, 0, 0);
    if rings.len() > 0 {
        let init = rings.drop_last();
        let last = rings.last();
        assert(last == rings[rings.len() - 1]);
        lemma_at_split(s, p, enc_repeat(init, ring_encoder()), enc_ring(last));
        assert forall|i: int| 0 <= i < init.len() implies (#[trigger] init[i]).len()
            <= u32::MAX by {
            assert(init[i] == rings[i]);
        }
        lemma_rings_at(s, p, init);
        let q = p + enc_repeat(init, ring_encoder()).len();
        lemma_at_split(s, q, enc_u32(last.len() as u32), enc_repeat(last, coord_encoder()));
        lemma_word32_at(s, q, last.len() as u32);
        lemma_coords_at(s, q + 4, last);
    }
}

proof fn lemma_simple_type(raw: u32)
    requires
        1 <= raw <= 3,
    ensures
        !has_srid(raw),
        spec_decode_geom_type(raw) == (raw, 2usize),
{
    assert(1 <= raw <= 3 ==> (raw & 0x8000_0000u32 == 0u32 && raw & 0x4000_0000u32 == 0u32 && raw
        & 0x2000_0000u32 == 0u32)) by (bit_vector);
}

/// The header shared by the three encoders: byte order 1, then the type.
proof fn lemma_wkb_header_at(s: Seq<u8>, raw: u32)
    requires
        at(s, 0, enc_u8(1) + enc_u32(raw)),
        1 <= raw <= 3,
    ensures
        parse_u8(s, 0) == Ok::<_, ErrorCase>((1u8, 1int)),
        parse_word32(s, 1, true) == Ok::<_, ErrorCase>((raw, 5int)),
        !has_srid(raw),
        spec_decode_geom_type(raw) == (raw, 2usize),
{
    lemma_at_split(s, 0, enc_u8(1), enc_u32(raw));
    lemma_u8_at(s, 0, 1);
    lemma_word32_at(s, 1, raw);
    lemma_simple_type(raw);
}

/// Encoding a point and reading it back gives that point as a single
/// geometry.
pub proof fn law_point_wkb_roundtrip(x: u64, y: u64)
    ensures
        parse_wkb(point_wkb(x, y)) == Ok::<_, ErrorCase>(WkbShapeView::Single(seq![(x, y)])),
{
    let s = point_wkb(x, y);
    crate::layout::lemma_at_self(s, Seq::empty());
    assert(s + Seq::<u8>::empty() =~= s);
    lemma_enc_lens(0, 1, x);
    lemma_at_split(s, 0, enc_u8(1) + enc_u32(1), enc_coord((x, y)));
    lemma_wkb_header_at(s, 1);
    lemma_coord_at(s, 5, (x, y));
    assert(parse_geom(s, 0, s.len() + 1) == Ok::<_, ErrorCase>(
        ((seq![seq![(x, y)]], false), 21int),
    ));
}

/// Encoding a linestring of at most 2^32 - 1 points and reading it back
/// gives its points, in order, as a single geometry.
pub proof fn law_linestring_wkb_roundtrip(cs: Seq<(u64, u64)>)
    requires
        cs.len() <= u32::MAX,
    ensures
        parse_wkb(linestring_wkb(cs)) == Ok::<_, ErrorCase>(WkbShapeView::Single(cs)),
{
    let s = linestring_wkb(cs);
    crate::layout::lemma_at_self(s, Seq::empty());
    assert(s + Seq::<u8>::empty() =~= s);
    lemma_enc_lens(0, 1, 0);
    let body = enc_repeat(cs, coord_encoder());
    lemma_at_split(s, 0, enc_u8(1) + enc_u32(2) + enc_u32(cs.len() as u32), body);
    lemma_at_split(s, 0, enc_u8(1) + enc_u32(2), enc_u32(cs.len() as u32));
    lemma_wkb_header_at(s, 2);
    lemma_word32_at(s, 5, cs.len() as u32);
    lemma_coords_at(s, 9, cs);
    assert(parse_geom(s, 0, s.len() + 1) == Ok::<_, ErrorCase>(
        ((seq![cs], false), 9 + body.len() as int),
    ));
}

/// Encoding a polygon (at most 2^32 - 1 rings of at most 2^32 - 1 points)
/// and reading it back gives the points of all its rings, ring after ring,
/// as a single geometry.
pub proof fn law_polygon_wkb_roundtrip(rings: Seq<Seq<(u64, u64)>>)
    requires
        rings.len() <= u32::MAX,
        forall|i: int| 0 <= i < rings.len() ==> (#[trigger] rings[i]).len() <= u32::MAX,
    ensures
        parse_wkb(polygon_wkb(rings)) == Ok::<_, ErrorCase>(
            WkbShapeView::Single(concat_rings(rings)),
        ),
{
    let s = polygon_wkb(rings);
    crate::layout::lemma_at_self(s, Seq::empty());
    assert(s + Seq::<u8>::empty() =~= s);
    lemma_enc_lens(0, 1, 0);
    let body = enc_repeat(rings, ring_encoder());
    lemma_at_split(s, 0, enc_u8(1) + enc_u32(3) + enc_u32(rings.len() as u32), body);
    lemma_at_split(s, 0, enc_u8(1) + enc_u32(3), enc_u32(rings.len() as u32));
    lemma_wkb_header_at(s, 3);
    lemma_word32_at(s, 5, rings.len() as u32);
    lemma_rings_at(s, 9, rings);
    assert(parse_geom(s, 0, s.len() + 1) == Ok::<_, ErrorCase>(
        ((seq![concat_rings(rings)], false), 9 + body.len() as int),
    ));
}

// ── The spatial index section ─────────────────────────────────────────────

/// A node box reads back wherever it stands.
pub proof fn lemma_envelope_at(s: Seq<u8>, pos: int, e: EnvelopeBits)
    requires
        at(s, pos, enc_envelope(e)),
    ensures
        enc_envelope(e).len() == 32,
        parse_envelope(s, pos) == Ok::<_, ErrorCase>((e, pos + 32)),
{
    lemma_enc_lens(0, 0, 0);
    let a = enc_u64(e.min_x);
    let b = enc_u64(e.min_y);
    let c = enc_u64(e.max_x);
    let d = enc_u64(e.max_y);
    lemma_at_split(s, pos, a + b + c, d);
    lemma_at_split(s, pos, a + b, c);
    lemma_at_split(s, pos, a, b);
    lemma_u64_at(s, pos, e.min_x);
    lemma_u64_at(s, pos + 8, e.min_y);
    lemma_u64_at(s, pos + 16, e.max_x);
    lemma_u64_at(s, pos + 24, e.max_y);
}

/// The index section reads back wherever it stands.
pub proof fn lemma_index_at(
    s: Seq<u8>,
    pos: int,
    fi: Seq<u64>,
    nodes: Seq<EnvelopeBits>,
    ns: u16,
    n: u64,
)
    requires
        at(s, pos, index_bytes(fi, nodes, ns, n)),
        fi.len() == n,
        nodes.len() == total_nodes(n, ns as u64),
    ensures
        parse_index(s, pos) == Ok::<_, ErrorCase>(
            ((fi, nodes, ns, n), pos + index_bytes(fi, nodes, ns, n).len()),
        ),
{
    lemma_enc_lens(0, 0, 0);
    let a = enc_u16(ns);
    let b = enc_u64(n);
    let c = enc_repeat(fi, u64_encoder());
    let d = enc_repeat(nodes, envelope_encoder());
    lemma_at_split(s, pos, a + b + c, d);
    lemma_at_split(s, pos, a + b, c);
    lemma_at_split(s, pos, a, b);
    lemma_u16_at(s, pos, ns);
    lemma_u64_at(s, pos + 2, n);
    assert forall|i: int, p: int|
        0 <= i < fi.len() && #[trigger] at(s, p, u64_encoder()(fi[i])) implies u64_item()(s, p)
        == Ok::<_, ErrorCase>((fi[i], p + u64_encoder()(fi[i]).len())) by {
        lemma_u64_at(s, p, fi[i]);
    }
    lemma_repeat_at(s, pos + 10, fi, u64_encoder(), u64_item());
    assert forall|i: int, p: int|
        0 <= i < nodes.len() && #[trigger] at(s, p, envelope_encoder()(nodes[i]))
            implies envelope_item()(s, p) == Ok::<_, ErrorCase>(
        (nodes[i], p + envelope_encoder()(nodes[i]).len()),
    ) by {
        lemma_envelope_at(s, p, nodes[i]);
    }
    lemma_repeat_at(s, pos + 10 + c.len(), nodes, envelope_encoder(), envelope_item());
}

/// Index roundtrip: the section that `write_index` writes for a tree of
/// `n` items (one feature index per item and one box per node) is read back
/// by `read_index` as those same lists, node size and item count.
pub proof fn law_index_roundtrip(
    fi: Seq<u64>,
    nodes: Seq<EnvelopeBits>,
    ns: u16,
    n: u64,
    rest: Seq<u8>,
)
    requires
        fi.len() == n,
        nodes.len() == total_nodes(n, ns as u64),
    ensures
        parse_index(index_bytes(fi, nodes, ns, n) + rest, 0) == Ok::<_, ErrorCase>(
            ((fi, nodes, ns, n), index_bytes(fi, nodes, ns, n).len() as int),
        ),
{
    crate::layout::lemma_at_self(index_bytes(fi, nodes, ns, n), rest);
    lemma_index_at(index_bytes(fi, nodes, ns, n) + rest, 0, fi, nodes, ns, n);
}

// ── The whole file ────────────────────────────────────────────────────────

/// A file can be written from this schema and these features with every
/// length in its field: the schema and each feature fit, the schema section
/// takes at most 2^32 - 1 bytes, and the index starts at a `u64` position.
pub open spec fn file_fits(sv: SchemaView, fs: Seq<FeatureView>) -> bool {
    &&& schema_fits(sv)
    &&& schema_bytes(sv).len() <= u32::MAX
    &&& forall|i: int| 0 <= i < fs.len() ==> feature_fits(#[trigger] fs[i], sv)
    &&& written_bytes(sv, fs).len() + 8 * fs.len() <= u64::MAX
}

/// What opening a finished file says of it.
pub open spec fn written_info(sv: SchemaView, fs: Seq<FeatureView>, env: EnvelopeBits) -> FileInfo {
    let p = written_bytes(sv, fs).len();
    FileInfo {
        schema: sv,
        feature_count: fs.len() as u64,
        envelope: env,
        flags: FLAG_HAS_SPATIAL_INDEX | FLAG_HAS_OFFSET_TABLE,
        offset_table_pos: p as u64,
        index_pos: (p + 8 * fs.len()) as u64,
        data_start_pos: data_start(sv) as u64,
    }
}

/// Where each section of a finished file stands.
proof fn lemma_file_layout(
    sv: SchemaView,
    fs: Seq<FeatureView>,
    fi: Seq<u64>,
    nodes: Seq<EnvelopeBits>,
    ns: u16,
    env: EnvelopeBits,
)
    ensures
        ({
            let f = file_bytes(sv, fs, fi, nodes, ns, env);
            let n = fs.len() as u64;
            let p = written_bytes(sv, fs).len() as int;
            let o = enc_repeat(record_offsets(sv, fs), u64_encoder());
            let ix = index_bytes(fi, nodes, ns, n);
            &&& at(f, 0, magic_bytes())
            &&& f[4] == VERSION_MAJOR
            &&& f[5] == VERSION_MINOR
            &&& f[6] == FLAG_HAS_SPATIAL_INDEX | FLAG_HAS_OFFSET_TABLE
            &&& at(f, 8, enc_u64(n))
            &&& at(f, 16, enc_envelope(env))
            &&& at(f, 48, enc_u32(schema_bytes(sv).len() as u32))
            &&& at(f, HEADER_SIZE as int, schema_bytes(sv))
            &&& at(f, data_start(sv), records(fs, sv))
            &&& at(f, p, o)
            &&& at(f, p + o.len(), ix)
            &&& at(f, p + o.len() + ix.len(), footer_bytes(p as u64, (p + 8 * n) as u64, data_start(sv) as u64))
            &&& f.len() == p + o.len() + ix.len() + 32
            &&& p == data_start(sv) + records(fs, sv).len()
            &&& o.len() == 8 * fs.len()
        }),
{
    lemma_enc_lens(0, 0, 0);
    let n = fs.len() as u64;
    let w = written_bytes(sv, fs);
    let p = w.len() as int;
    let sb = schema_bytes(sv);
    let t = tail_bytes(sv, fs, fi, nodes, ns);
    let wt = w + t;
    let patch = header_patch(n, env);
    let f = file_bytes(sv, fs, fi, nodes, ns, env);
    let o = enc_repeat(record_offsets(sv, fs), u64_encoder());
    let ix = index_bytes(fi, nodes, ns, n);
    let foot = footer_bytes(p as u64, (p + 8 * n) as u64, data_start(sv) as u64);
    let ver = seq![
        VERSION_MAJOR,
        VERSION_MINOR,
        FLAG_HAS_SPATIAL_INDEX | FLAG_HAS_OFFSET_TABLE,
        0u8,
    ];
    let h1 = magic_bytes() + ver;
    let h2 = enc_u64(0) + enc_envelope(empty_envelope());
    let h3 = enc_u32(sb.len() as u32);
    let zeros = Seq::new(12, |i: int| 0u8);
    let ph = placeholder_header(sv);
    assert(ph =~= h1 + h2 + h3 + zeros);
    assert(ph.len() == 64);

    // The written part and the tail, before the header is patched
    lemma_at_self(w, t);
    assert(wt.subrange(p, p + t.len()) =~= t);
    assert(at(wt, p, t));
    lemma_at_split(wt, 0, ph + sb, records(fs, sv));
    lemma_at_split(wt, 0, ph, sb);
    lemma_at_split(wt, 0, h1 + h2 + h3, zeros);
    lemma_at_split(wt, 0, h1 + h2, h3);
    lemma_at_split(wt, 0, h1, h2);
    lemma_at_split(wt, 0, magic_bytes(), ver);
    lemma_at_split(wt, p, o + ix, foot);
    lemma_at_split(wt, p, o, ix);
    crate::layout::lemma_repeat_fixed_len(record_offsets(sv, fs), u64_encoder(), 8);

    // Patching the header at offset 8 leaves the rest as it was
    assert(f == wt.take(8) + patch + wt.skip(8 + patch.len() as int));
    assert(patch.len() == 40);
    lemma_overwrite_self(wt, 8, patch);
    lemma_at_split(f, 8, enc_u64(n), enc_envelope(env));
    lemma_overwrite_at(wt, 8, patch, 0, magic_bytes());
    lemma_overwrite_at(wt, 8, patch, 4, ver);
    assert(f[4] == f.subrange(4, 8)[0]);
    assert(f[5] == f.subrange(4, 8)[1]);
    assert(f[6] == f.subrange(4, 8)[2]);
    lemma_overwrite_at(wt, 8, patch, 48, h3);
    lemma_overwrite_at(wt, 8, patch, 64, sb);
    lemma_overwrite_at(wt, 8, patch, 64 + sb.len() as int, records(fs, sv));
    lemma_overwrite_at(wt, 8, patch, p, o);
    lemma_overwrite_at(wt, 8, patch, p + o.len(), ix);
    lemma_overwrite_at(wt, 8, patch, p + o.len() + ix.len(), foot);
}

/// The preamble and header fields of a finished file.
#[verifier::spinoff_prover]
proof fn lemma_file_header(
    sv: SchemaView,
    fs: Seq<FeatureView>,
    fi: Seq<u64>,
    nodes: Seq<EnvelopeBits>,
    ns: u16,
    env: EnvelopeBits,
)
    ensures
        parse_preamble(file_bytes(sv, fs, fi, nodes, ns, env)) == Ok::<(), ErrorCase>(()),
        parse_header_fields(file_bytes(sv, fs, fi, nodes, ns, env)) == Ok::<_, ErrorCase>(
            (
                FLAG_HAS_SPATIAL_INDEX | FLAG_HAS_OFFSET_TABLE,
                fs.len() as u64,
                env,
                schema_bytes(sv).len() as u32,
            ),
        ),
{
    lemma_enc_lens(0, 0, 0);
    lemma_file_layout(sv, fs, fi, nodes, ns, env);
    let f = file_bytes(sv, fs, fi, nodes, ns, env);
    lemma_take_at(f, 0, magic_bytes());
    lemma_u64_at(f, 8, fs.len() as u64);
    lemma_envelope_at(f, 16, env);
    lemma_u32_at(f, 48, schema_bytes(sv).len() as u32);
}

/// The footer of a finished file.
#[verifier::spinoff_prover]
proof fn lemma_file_footer(
    sv: SchemaView,
    fs: Seq<FeatureView>,
    fi: Seq<u64>,
    nodes: Seq<EnvelopeBits>,
    ns: u16,
    env: EnvelopeBits,
)
    requires
        file_fits(sv, fs),
    ensures
        parse_footer(file_bytes(sv, fs, fi, nodes, ns, env)) == Ok::<_, ErrorCase>(
            (
                written_bytes(sv, fs).len() as u64,
                (written_bytes(sv, fs).len() + 8 * fs.len()) as u64,
            ),
        ),
{
    lemma_enc_lens(0, 0, 0);
    lemma_file_layout(sv, fs, fi, nodes, ns, env);
    let f = file_bytes(sv, fs, fi, nodes, ns, env);
    let n = fs.len() as u64;
    let p = written_bytes(sv, fs).len() as int;
    let o = enc_repeat(record_offsets(sv, fs), u64_encoder());
    let ix = index_bytes(fi, nodes, ns, n);
    let ds = data_start(sv);
    let fp = p + o.len() + ix.len();
    let a = enc_u64(p as u64);
    let b = enc_u64((p + 8 * n) as u64);
    let c = enc_u64(ds as u64);
    lemma_at_split(f, fp, a + b + c + magic_bytes(), seq![0u8, 0u8, 0u8, 0u8]);
    lemma_at_split(f, fp, a + b + c, magic_bytes());
    lemma_at_split(f, fp, a + b, c);
    lemma_at_split(f, fp, a, b);
    lemma_u64_at(f, fp, p as u64);
    lemma_u64_at(f, fp + 8, (p + 8 * n) as u64);
    lemma_u64_at(f, fp + 16, ds as u64);
    lemma_take_at(f, fp + 24, magic_bytes());
}

/// A finished file opens with what was written into it.
#[verifier::spinoff_prover]
proof fn lemma_file_opens(
    sv: SchemaView,
    fs: Seq<FeatureView>,
    fi: Seq<u64>,
    nodes: Seq<EnvelopeBits>,
    ns: u16,
    env: EnvelopeBits,
)
    requires
        file_fits(sv, fs),
    ensures
        parse_open(file_bytes(sv, fs, fi, nodes, ns, env)) == Ok::<_, ErrorCase>(
            written_info(sv, fs, env),
        ),
{
    lemma_file_header(sv, fs, fi, nodes, ns, env);
    lemma_file_footer(sv, fs, fi, nodes, ns, env);
    lemma_file_layout(sv, fs, fi, nodes, ns, env);
    lemma_schema_at(file_bytes(sv, fs, fi, nodes, ns, env), HEADER_SIZE as int, sv);
}

/// The features of a finished file read back one after the other.
#[verifier::spinoff_prover]
proof fn lemma_file_features(
    sv: SchemaView,
    fs: Seq<FeatureView>,
    fi: Seq<u64>,
    nodes: Seq<EnvelopeBits>,
    ns: u16,
    env: EnvelopeBits,
)
    requires
        file_fits(sv, fs),
    ensures
        features_spec(
            ReaderView { data: file_bytes(sv, fs, fi, nodes, ns, env), info: written_info(sv, fs, env) },
        ) == Ok::<_, ErrorCase>(fs),
{
    lemma_file_layout(sv, fs, fi, nodes, ns, env);
    let f = file_bytes(sv, fs, fi, nodes, ns, env);
    assert forall|i: int, q: int|
        0 <= i < fs.len() && #[trigger] at(f, q, feature_encoder(sv)(fs[i])) implies feature_item(
        sv,
    )(f, q) == Ok::<_, ErrorCase>((fs[i], q + feature_encoder(sv)(fs[i]).len())) by {
        assert(feature_fits(fs[i], sv));
        lemma_feature_at(f, q, fs[i], sv);
    }
    lemma_repeat_at(f, data_start(sv), fs, feature_encoder(sv), feature_item(sv));
}

/// The offset table of a finished file reads back as the record offsets.
#[verifier::spinoff_prover]
proof fn lemma_file_offsets(
    sv: SchemaView,
    fs: Seq<FeatureView>,
    fi: Seq<u64>,
    nodes: Seq<EnvelopeBits>,
    ns: u16,
    env: EnvelopeBits,
)
    requires
        file_fits(sv, fs),
    ensures
        offsets_spec(
            ReaderView { data: file_bytes(sv, fs, fi, nodes, ns, env), info: written_info(sv, fs, env) },
        ) == Ok::<_, ErrorCase>(record_offsets(sv, fs)),
{
    lemma_enc_lens(0, 0, 0);
    lemma_file_layout(sv, fs, fi, nodes, ns, env);
    let f = file_bytes(sv, fs, fi, nodes, ns, env);
    let p = written_bytes(sv, fs).len() as int;
    let offs = record_offsets(sv, fs);
    assert forall|i: int, q: int|
        0 <= i < offs.len() && #[trigger] at(f, q, u64_encoder()(offs[i])) implies u64_item()(f, q)
        == Ok::<_, ErrorCase>((offs[i], q + u64_encoder()(offs[i]).len())) by {
        lemma_u64_at(f, q, offs[i]);
    }
    lemma_repeat_at(f, p, offs, u64_encoder(), u64_item());
}

/// Each feature of a finished file reads back through the offset table.
#[verifier::spinoff_prover]
proof fn lemma_file_random_access(
    sv: SchemaView,
    fs: Seq<FeatureView>,
    fi: Seq<u64>,
    nodes: Seq<EnvelopeBits>,
    ns: u16,
    env: EnvelopeBits,
)
    requires
        file_fits(sv, fs),
    ensures
        forall|i: u64|
            i < fs.len() ==> read_feature_spec(
                ReaderView {
                    data: file_bytes(sv, fs, fi, nodes, ns, env),
                    info: written_info(sv, fs, env),
                },
                i,
            ) == Ok::<_, ErrorCase>(#[trigger] fs[i as int]),
{
    lemma_enc_lens(0, 0, 0);
    lemma_file_layout(sv, fs, fi, nodes, ns, env);
    let f = file_bytes(sv, fs, fi, nodes, ns, env);
    let v = ReaderView { data: f, info: written_info(sv, fs, env) };
    let p = written_bytes(sv, fs).len() as int;
    let ds = data_start(sv);
    let offs = record_offsets(sv, fs);
    lemma_file_offsets(sv, fs, fi, nodes, ns, env);
    assert(offsets_spec(v) == Ok::<_, ErrorCase>(offs));
    assert forall|i: u64| i < fs.len() implies read_feature_spec(v, i) == Ok::<_, ErrorCase>(
        #[trigger] fs[i as int],
    ) by {
        lemma_repeat_item_at(f, ds, fs, feature_encoder(sv), i as int);
        let q = ds + records(fs.take(i as int), sv).len();
        assert(offs[i as int] == q);
        assert(feature_fits(fs[i as int], sv));
        lemma_feature_at(f, q, fs[i as int], sv);
    }
}

/// File roundtrip: a file written from a schema and features (the header
/// and schema from `ErffWriter::new`, each record from `add_feature`, then
/// the tail from `finish` appended and its patch written at offset 8) opens
/// with that schema, that feature count, the envelope and the positions
/// that `finish` recorded; reading it through gives back the features in
/// order, reading feature `i` by the offset table gives back feature `i`,
/// and its spatial index reads back as written.
pub proof fn law_file_roundtrip(
    sv: SchemaView,
    fs: Seq<FeatureView>,
    fi: Seq<u64>,
    nodes: Seq<EnvelopeBits>,
    ns: u16,
    env: EnvelopeBits,
)
    requires
        file_fits(sv, fs),
        fi.len() == fs.len(),
        nodes.len() == total_nodes(fs.len() as u64, ns as u64),
    ensures
        parse_open(file_bytes(sv, fs, fi, nodes, ns, env)) == Ok::<_, ErrorCase>(
            written_info(sv, fs, env),
        ),
        features_spec(
            ReaderView { data: file_bytes(sv, fs, fi, nodes, ns, env), info: written_info(sv, fs, env) },
        ) == Ok::<_, ErrorCase>(fs),
        forall|i: u64|
            i < fs.len() ==> read_feature_spec(
                ReaderView {
                    data: file_bytes(sv, fs, fi, nodes, ns, env),
                    info: written_info(sv, fs, env),
                },
                i,
            ) == Ok::<_, ErrorCase>(#[trigger] fs[i as int]),
        index_spec(
            ReaderView { data: file_bytes(sv, fs, fi, nodes, ns, env), info: written_info(sv, fs, env) },
        ) == Ok::<_, ErrorCase>((fi, nodes, ns, fs.len() as u64)),
{
    lemma_file_opens(sv, fs, fi, nodes, ns, env);
    lemma_file_features(sv, fs, fi, nodes, ns, env);
    lemma_file_random_access(sv, fs, fi, nodes, ns, env);
    lemma_file_layout(sv, fs, fi, nodes, ns, env);
    let n = fs.len() as u64;
    let p = written_bytes(sv, fs).len() as int;
    let o = enc_repeat(record_offsets(sv, fs), u64_encoder());
    assert((1u8 | 2u8) & 1u8 == 1u8) by (bit_vector);
    lemma_index_at(file_bytes(sv, fs, fi, nodes, ns, env), p + o.len(), fi, nodes, ns, n);
}

// ── Codes, sizes and record lengths ───────────────────────────────────────

/// Type codes roundtrip: each type decodes from its own code, and a code
/// that decodes to a type is that type's code.
pub proof fn law_type_codes_roundtrip(g: GeometryType, c: CoordType, t: ColumnType, v: u8)
    ensures
        GeometryType::of_code(g.code()) == Some(g),
        CoordType::of_code(c.code()) == Some(c),
        ColumnType::of_code(t.code()) == Some(t),
        GeometryType::of_code(v) matches Some(x) ==> x.code() == v,
        CoordType::of_code(v) matches Some(x) ==> x.code() == v,
        ColumnType::of_code(v) matches Some(x) ==> x.code() == v,
{
}

/// A present value of a fixed-size column type takes exactly the size that
/// `fixed_size` gives for that type.
pub proof fn law_fixed_size_encoding(val: ValueView, t: ColumnType)
    requires
        value_fits(val, t),
        !(val is Null),
        t.spec_fixed_size() is Some,
    ensures
        enc_value(val).len() == t.spec_fixed_size()->Some_0,
{
    lemma_enc_lens(0, 0, 0);
}

/// The size field of a record holds the length of the rest of the record,
/// so a reader can step over it.
pub proof fn law_record_size_field(f: FeatureView, sv: SchemaView)
    requires
        feature_fits(f, sv),
        feature_bytes(f, sv).len() - 4 <= u32::MAX,
    ensures
        feature_bytes(f, sv).len() >= 4,
        parse_u32(feature_bytes(f, sv), 0) == Ok::<_, ErrorCase>(
            ((feature_bytes(f, sv).len() - 4) as u32, 4int),
        ),
{
    let nb = sv.null_bitmap_bytes();
    let body = feature_body(f, nb);
    lemma_enc_lens(0, 0, 0);
    lemma_at_self(feature_bytes(f, sv), Seq::empty());
    assert(feature_bytes(f, sv) + Seq::<u8>::empty() =~= feature_bytes(f, sv));
    lemma_at_split(feature_bytes(f, sv), 0, enc_u32(body.len() as u32), body);
    lemma_u32_at(feature_bytes(f, sv), 0, body.len() as u32);
}

/// The features at the given indices of a finished file, fetched through
/// its offset table, are the written features at those indices.
#[verifier::spinoff_prover]
proof fn lemma_file_fetch(
    sv: SchemaView,
    fs: Seq<FeatureView>,
    fi: Seq<u64>,
    nodes: Seq<EnvelopeBits>,
    ns: u16,
    env: EnvelopeBits,
    idxs: Seq<u64>,
)
    requires
        file_fits(sv, fs),
        forall|k: int| 0 <= k < idxs.len() ==> #[trigger] idxs[k] < fs.len(),
    ensures
        fetch_features(file_bytes(sv, fs, fi, nodes, ns, env), record_offsets(sv, fs), idxs, sv)
            == Some(Ok::<_, ErrorCase>(idxs.map_values(|i: u64| fs[i as int]))),
    decreases idxs.len(),
{
    let f = file_bytes(sv, fs, fi, nodes, ns, env);
    let offs = record_offsets(sv, fs);
    if idxs.len() == 0 {
        assert(idxs.map_values(|i: u64| fs[i as int]) =~= Seq::<FeatureView>::empty());
    } else {
        let init = idxs.drop_last();
        lemma_file_fetch(sv, fs, fi, nodes, ns, env, init);
        let i = idxs.last();
        assert(i == idxs[idxs.len() - 1]);
        lemma_file_layout(sv, fs, fi, nodes, ns, env);
        lemma_repeat_item_at(f, data_start(sv), fs, feature_encoder(sv), i as int);
        let q = data_start(sv) + records(fs.take(i as int), sv).len();
        assert(offs[i as int] == q);
        assert(feature_fits(fs[i as int], sv));
        lemma_feature_at(f, q, fs[i as int], sv);
        assert(idxs.map_values(|i: u64| fs[i as int]) =~= init.map_values(|i: u64| fs[i as int]).push(
            fs[i as int],
        ));
    }
}

/// What a search collects are feature indices from the list it searched.
proof fn lemma_scan_bounded(hits: Seq<bool>, fi: Seq<u64>, k: nat, n: u64)
    requires
        k <= fi.len(),
        forall|j: int| 0 <= j < fi.len() ==> #[trigger] fi[j] < n,
    ensures
        forall|j: int|
            0 <= j < search_scan(hits, fi, k).len() ==> #[trigger] search_scan(hits, fi, k)[j] < n,
    decreases k,
{
    if k > 0 {
        lemma_scan_bounded(hits, fi, (k - 1) as nat, n);
        let prev = search_scan(hits, fi, (k - 1) as nat);
        assert forall|j: int| 0 <= j < search_scan(hits, fi, k).len() implies #[trigger] search_scan(
            hits,
            fi,
            k,
        )[j] < n by {
            if j < prev.len() {
                assert(search_scan(hits, fi, k)[j] == prev[j]);
            } else {
                assert(search_scan(hits, fi, k)[j] == fi[k - 1]);
            }
        }
    }
}

/// Spatial query law: on a finished file whose index was built over its
/// features (a feature index for every item, every node box covering its
/// children's so that a node meets the query whenever a child does), a
/// query finds exactly the features whose item boxes meet it, in item
/// order, and returns those written features.
pub proof fn law_file_query(
    sv: SchemaView,
    fs: Seq<FeatureView>,
    fi: Seq<u64>,
    nodes: Seq<EnvelopeBits>,
    ns: u16,
    env: EnvelopeBits,
    hits: Seq<bool>,
)
    requires
        file_fits(sv, fs),
        fi.len() == fs.len(),
        forall|k: int| 0 <= k < fi.len() ==> #[trigger] fi[k] < fs.len(),
        nodes.len() == total_nodes(fs.len() as u64, ns as u64),
        fs.len() <= 1 || ns >= 2,
        nodes.len() <= hits.len(),
        hits_monotone(hits, fs.len() as u64, ns as u64),
    ensures
        query_indices_spec(
            ReaderView { data: file_bytes(sv, fs, fi, nodes, ns, env), info: written_info(sv, fs, env) },
            hits,
        ) == Ok::<_, ErrorCase>(search_scan(hits, fi, fs.len())),
        query_spec(
            ReaderView { data: file_bytes(sv, fs, fi, nodes, ns, env), info: written_info(sv, fs, env) },
            hits,
        ) == Some(
            Ok::<_, ErrorCase>(search_scan(hits, fi, fs.len()).map_values(|i: u64| fs[i as int])),
        ),
{
    let n = fs.len() as u64;
    law_file_roundtrip(sv, fs, fi, nodes, ns, env);
    lemma_file_random_access(sv, fs, fi, nodes, ns, env);
    law_search_finds_exactly_the_hits(hits, fi, n, ns as u64);
    let found = search_scan(hits, fi, n as nat);
    lemma_scan_bounded(hits, fi, n as nat, n);
    lemma_file_fetch(sv, fs, fi, nodes, ns, env, found);
    let v = ReaderView { data: file_bytes(sv, fs, fi, nodes, ns, env), info: written_info(sv, fs, env) };
    lemma_file_offsets(sv, fs, fi, nodes, ns, env);
    assert(offsets_spec(v) == Ok::<_, ErrorCase>(record_offsets(sv, fs)));
}

// ── Multi-geometries and collections ──────────────────────────────────────

/// The points of a simple geometry: the point, the linestring's points, or
/// the points of the polygon's rings, ring after ring.
pub open spec fn simple_points(g: SimpleGeometry) -> Seq<(u64, u64)> {
    match g {
        SimpleGeometry::Point(c) => seq![c],
        SimpleGeometry::LineString(cs) => cs,
        SimpleGeometry::Polygon(rings) => concat_rings(rings),
    }
}

/// Every count of a simple geometry fits its 32-bit field.
pub open spec fn simple_fits(g: SimpleGeometry) -> bool {
    match g {
        SimpleGeometry::Point(_) => true,
        SimpleGeometry::LineString(cs) => cs.len() <= u32::MAX,
        SimpleGeometry::Polygon(rings) => rings.len() <= u32::MAX && forall|i: int|
            0 <= i < rings.len() ==> (#[trigger] rings[i]).len() <= u32::MAX,
    }
}

/// Type words 1 to 7 are plain ISO WKB types with two dimensions.
proof fn lemma_plain_type(raw: u32)
    requires
        1 <= raw <= 7,
    ensures
        !has_srid(raw),
        spec_decode_geom_type(raw) == (raw, 2usize),
{
    assert(1 <= raw <= 7 ==> (raw & 0x8000_0000u32 == 0u32 && raw & 0x4000_0000u32 == 0u32 && raw
        & 0x2000_0000u32 == 0u32)) by (bit_vector);
}

/// A little-endian header with a plain type word, wherever it stands.
proof fn lemma_header_at(s: Seq<u8>, p: int, raw: u32)
    requires
        at(s, p, enc_u8(1) + enc_u32(raw)),
        1 <= raw <= 7,
    ensures
        parse_u8(s, p) == Ok::<_, ErrorCase>((1u8, p + 1)),
        parse_word32(s, p + 1, true) == Ok::<_, ErrorCase>((raw, p + 5)),
        !has_srid(raw),
        spec_decode_geom_type(raw) == (raw, 2usize),
{
    lemma_at_split(s, p, enc_u8(1), enc_u32(raw));
    lemma_u8_at(s, p, 1);
    lemma_word32_at(s, p + 1, raw);
    lemma_plain_type(raw);
}

/// A simple geometry reads back wherever it stands, at any nesting fuel.
proof fn lemma_simple_at(s: Seq<u8>, p: int, g: SimpleGeometry, fuel: nat)
    requires
        at(s, p, simple_wkb(g)),
        simple_fits(g),
    ensures
        parse_geom(s, p, fuel) == Ok::<_, ErrorCase>(
            ((seq![simple_points(g)], false), p + simple_wkb(g).len()),
        ),
{
    lemma_enc_lens(0, 0, 0);
    match g {
        SimpleGeometry::Point(c) => {
            lemma_at_split(s, p, enc_u8(1) + enc_u32(1), enc_coord(c));
            lemma_header_at(s, p, 1);
            lemma_coord_at(s, p + 5, c);
            assert(c == (c.0, c.1));
        },
        SimpleGeometry::LineString(cs) => {
            let body = enc_repeat(cs, coord_encoder());
            lemma_at_split(s, p, enc_u8(1) + enc_u32(2) + enc_u32(cs.len() as u32), body);
            lemma_at_split(s, p, enc_u8(1) + enc_u32(2), enc_u32(cs.len() as u32));
            lemma_header_at(s, p, 2);
            lemma_word32_at(s, p + 5, cs.len() as u32);
            lemma_coords_at(s, p + 9, cs);
        },
        SimpleGeometry::Polygon(rings) => {
            let body = enc_repeat(rings, ring_encoder());
            lemma_at_split(s, p, enc_u8(1) + enc_u32(3) + enc_u32(rings.len() as u32), body);
            lemma_at_split(s, p, enc_u8(1) + enc_u32(3), enc_u32(rings.len() as u32));
            lemma_header_at(s, p, 3);
            lemma_word32_at(s, p + 5, rings.len() as u32);
            lemma_rings_at(s, p + 9, rings);
        },
    }
}

/// Simple geometries one after the other read back as their point lists.
proof fn lemma_subs_at(s: Seq<u8>, p: int, gs: Seq<SimpleGeometry>, fuel: nat)
    requires
        at(s, p, enc_repeat(gs, simple_encoder())),
        forall|i: int| 0 <= i < gs.len() ==> simple_fits(#[trigger] gs[i]),
    ensures
        parse_subs(s, p, gs.len(), fuel) == Ok::<_, ErrorCase>(
            (
                gs.map_values(|g: SimpleGeometry| simple_points(g)),
                p + enc_repeat(gs, simple_encoder()).len(),
            ),
        ),
    decreases gs.len(),
{
    if gs.len() == 0 {
        assert(gs.map_values(|g: SimpleGeometry| simple_points(g)) =~= Seq::<
            Seq<(u64, u64)>,
        >::empty());
    } else {
        let init = gs.drop_last();
        let last = gs.last();
        assert(last == gs[gs.len() - 1]);
        assert forall|i: int| 0 <= i < init.len() implies simple_fits(#[trigger] init[i]) by {
            assert(init[i] == gs[i]);
        }
        lemma_at_split(s, p, enc_repeat(init, simple_encoder()), simple_wkb(last));
        lemma_subs_at(s, p, init, fuel);
        let q = p + enc_repeat(init, simple_encoder()).len();
        lemma_simple_at(s, q, last, fuel);
        assert(init.map_values(|g: SimpleGeometry| simple_points(g)) + seq![simple_points(last)]
            =~= gs.map_values(|g: SimpleGeometry| simple_points(g)));
    }
}

/// Multi-geometry law: for each multi-geometry and collection type
/// (MultiPoint 4, MultiLineString 5, MultiPolygon 6, GeometryCollection 7),
/// the WKB of its simple geometries reads back as a collection of their
/// point lists, in order (each polygon's rings joined).
pub proof fn law_multi_wkb_roundtrip(base: u32, gs: Seq<SimpleGeometry>)
    requires
        4 <= base <= 7,
        gs.len() <= u32::MAX,
        forall|i: int| 0 <= i < gs.len() ==> simple_fits(#[trigger] gs[i]),
    ensures
        parse_wkb(multi_wkb(base, gs)) == Ok::<_, ErrorCase>(
            WkbShapeView::Collection(gs.map_values(|g: SimpleGeometry| simple_points(g))),
        ),
{
    let s = multi_wkb(base, gs);
    crate::layout::lemma_at_self(s, Seq::empty());
    assert(s + Seq::<u8>::empty() =~= s);
    lemma_enc_lens(0, 1, 0);
    let body = enc_repeat(gs, simple_encoder());
    lemma_at_split(s, 0, enc_u8(1) + enc_u32(base) + enc_u32(gs.len() as u32), body);
    lemma_at_split(s, 0, enc_u8(1) + enc_u32(base), enc_u32(gs.len() as u32));
    lemma_header_at(s, 0, base);
    lemma_word32_at(s, 5, gs.len() as u32);
    lemma_subs_at(s, 9, gs, s.len());
    assert(parse_geom(s, 0, s.len() + 1) == Ok::<_, ErrorCase>(
        ((gs.map_values(|g: SimpleGeometry| simple_points(g)), true), 9 + body.len() as int),
    ));
}

// ── Type words ────────────────────────────────────────────────────────────

/// EWKB type-word law: a base type below 2^20 with any of the Z (bit 31),
/// M (bit 30) and SRID (bit 29) flags set, at least one of them, decodes to
/// that base type with 2 dimensions plus one for Z and one for M, each
/// counted on its own; an SRID follows exactly when its flag is set.
pub proof fn law_ewkb_type_word(base: u32, z: bool, m: bool, srid: bool)
    requires
        base < 0x10_0000,
        z || m || srid,
    ensures
        ({
            let raw = base | (if z {
                0x8000_0000u32
            } else {
                0u32
            }) | (if m {
                0x4000_0000u32
            } else {
                0u32
            }) | (if srid {
                0x2000_0000u32
            } else {
                0u32
            });
            &&& spec_decode_geom_type(raw).0 == base
            &&& spec_decode_geom_type(raw).1 == 2 + (if z {
                1int
            } else {
                0int
            }) + (if m {
                1int
            } else {
                0int
            })
            &&& has_srid(raw) == srid
        }),
{
    let zb: u32 = if z {
        0x8000_0000u32
    } else {
        0u32
    };
    let mb: u32 = if m {
        0x4000_0000u32
    } else {
        0u32
    };
    let sb: u32 = if srid {
        0x2000_0000u32
    } else {
        0u32
    };
    let raw = base | zb | mb | sb;
    assert(raw & 0x000F_FFFFu32 == base && (raw & 0x8000_0000u32 != 0u32) == z && (raw
        & 0x4000_0000u32 != 0u32) == m && (raw & 0x2000_0000u32 != 0u32) == srid) by (bit_vector)
        requires
            base < 0x10_0000u32,
            raw == base | zb | mb | sb,
            zb == (if z {
                0x8000_0000u32
            } else {
                0u32
            }),
            mb == (if m {
                0x4000_0000u32
            } else {
                0u32
            }),
            sb == (if srid {
                0x2000_0000u32
            } else {
                0u32
            }),
    ;
}

/// ISO type-word law: the thousands of an ISO type word below 4000 say
/// which extra dimensions follow X and Y: 1000 adds Z, 2000 adds M, 3000
/// adds both; the rest is the base type, and no SRID follows.
pub proof fn law_iso_type_word(base: u32, thousands: u32)
    requires
        base < 1000,
        thousands < 4,
    ensures
        ({
            let raw = thousands * 1000 + base;
            let has_z = thousands == 1 || thousands == 3;
            let has_m = thousands == 2 || thousands == 3;
            &&& spec_decode_geom_type(raw as u32).0 == base
            &&& spec_decode_geom_type(raw as u32).1 == 2 + (if has_z {
                1int
            } else {
                0int
            }) + (if has_m {
                1int
            } else {
                0int
            })
            &&& !has_srid(raw as u32)
        }),
{
    let raw: u32 = (thousands * 1000 + base) as u32;
    assert(raw < 4000);
    assert(raw < 4000u32 ==> (raw & 0x8000_0000u32 == 0u32 && raw & 0x4000_0000u32 == 0u32
        && raw & 0x2000_0000u32 == 0u32)) by (bit_vector);
    assert(raw / 1000 == thousands && raw % 1000 == base) by (nonlinear_arith)
        requires
            raw == thousands * 1000 + base,
            base < 1000,
    ;
}

// ── Type codes ────────────────────────────────────────────────────────────

/// Geometry type codes are those of the format: Unknown 0, Point 1,
/// LineString 2, Polygon 3, MultiPoint 4, MultiLineString 5,
/// MultiPolygon 6, GeometryCollection 7; every other code is refused.
pub proof fn law_geometry_type_codes(v: u8)
    ensures
        GeometryType::Unknown.code() == 0,
        GeometryType::Point.code() == 1,
        GeometryType::LineString.code() == 2,
        GeometryType::Polygon.code() == 3,
        GeometryType::MultiPoint.code() == 4,
        GeometryType::MultiLineString.code() == 5,
        GeometryType::MultiPolygon.code() == 6,
        GeometryType::GeometryCollection.code() == 7,
        (GeometryType::of_code(v) is Some) <==> v <= 7,
        GeometryType::of_code(v) matches Some(t) ==> t.code() == v,
{
}

/// Coordinate type codes are those of the format: XY 0, XYZ 1, XYM 2,
/// XYZM 3; every other code is refused.
pub proof fn law_coord_type_codes(v: u8)
    ensures
        CoordType::XY.code() == 0,
        CoordType::XYZ.code() == 1,
        CoordType::XYM.code() == 2,
        CoordType::XYZM.code() == 3,
        (CoordType::of_code(v) is Some) <==> v <= 3,
        CoordType::of_code(v) matches Some(t) ==> t.code() == v,
{
}

/// Column type codes are those of the format: Bool 0, Int8 1, UInt8 2,
/// Int16 3, UInt16 4, Int32 5, UInt32 6, Int64 7, UInt64 8, Float32 9,
/// Float64 10, String 11, Binary 12, Date 13, DateTime 14, Json 15; every
/// other code is refused.
pub proof fn law_column_type_codes(v: u8)
    ensures
        ColumnType::Bool.code() == 0,
        ColumnType::Int8.code() == 1,
        ColumnType::UInt8.code() == 2,
        ColumnType::Int16.code() == 3,
        ColumnType::UInt16.code() == 4,
        ColumnType::Int32.code() == 5,
        ColumnType::UInt32.code() == 6,
        ColumnType::Int64.code() == 7,
        ColumnType::UInt64.code() == 8,
        ColumnType::Float32.code() == 9,
        ColumnType::Float64.code() == 10,
        ColumnType::String.code() == 11,
        ColumnType::Binary.code() == 12,
        ColumnType::Date.code() == 13,
        ColumnType::DateTime.code() == 14,
        ColumnType::Json.code() == 15,
        (ColumnType::of_code(v) is Some) <==> v <= 15,
        ColumnType::of_code(v) matches Some(t) ==> t.code() == v,
{
}

// ── The shapes of an added feature ────────────────────────────────────────

pub open spec fn is_present() -> spec_fn(Option<Seq<u8>>) -> bool {
    |g: Option<Seq<u8>>| g is Some
}

/// The WKB of the geometries that are present, in column order.
pub open spec fn present_geometries(gs: Seq<Option<Seq<u8>>>) -> Seq<Seq<u8>> {
    gs.filter(is_present()).map_values(|g: Option<Seq<u8>>| g->Some_0)
}

proof fn lemma_shapes_present(gs: Seq<Option<Seq<u8>>>)
    ensures
        (shapes_spec(gs) is Ok) <==> forall|k: int|
            0 <= k < present_geometries(gs).len() ==> parse_wkb(
                #[trigger] present_geometries(gs)[k],
            ) is Ok,
        shapes_spec(gs) matches Ok(sh) ==> sh.len() == present_geometries(gs).len() && forall|
            k: int,
        |
            0 <= k < sh.len() ==> parse_wkb(#[trigger] present_geometries(gs)[k])
                == Ok::<_, ErrorCase>(sh[k]),
        shapes_spec(gs) matches Err(e) ==> exists|k: int|
            0 <= k < present_geometries(gs).len() && parse_wkb(
                #[trigger] present_geometries(gs)[k],
            ) == Err::<WkbShapeView, _>(e),
    decreases gs.len(),
{
    reveal(Seq::filter);
    let p = present_geometries(gs);
    if gs.len() == 0 {
        assert(p =~= Seq::<Seq<u8>>::empty());
    } else {
        let init = gs.drop_last();
        lemma_shapes_present(init);
        let pi = present_geometries(init);
        match gs.last() {
            Some(b) => {
                assert(gs.filter(is_present()) == init.filter(is_present()).push(gs.last()));
                assert(p =~= pi.push(b));
                assert(p[pi.len() as int] == b);
                assert forall|k: int| 0 <= k < pi.len() implies #[trigger] p[k] == pi[k] by {}
                match shapes_spec(init) {
                    Ok(ss) => {
                        match parse_wkb(b) {
                            Ok(sh) => {
                                let r = ss.push(sh);
                                assert forall|k: int| 0 <= k < r.len() implies parse_wkb(
                                    #[trigger] p[k],
                                ) == Ok::<_, ErrorCase>(r[k]) by {
                                    if k < pi.len() {
                                        assert(pi[k] == p[k]);
                                        assert(parse_wkb(pi[k]) == Ok::<_, ErrorCase>(ss[k]));
                                    }
                                }
                                assert forall|k: int| 0 <= k < p.len() implies parse_wkb(
                                    #[trigger] p[k],
                                ) is Ok by {
                                    if k < pi.len() {
                                        assert(pi[k] == p[k]);
                                        assert(parse_wkb(pi[k]) == Ok::<_, ErrorCase>(ss[k]));
                                    }
                                }
                            },
                            Err(e) => {
                                assert(parse_wkb(p[pi.len() as int]) == Err::<WkbShapeView, _>(
                                    e,
                                ));
                            },
                        }
                    },
                    Err(e) => {
                        let k = choose|k: int|
                            0 <= k < pi.len() && parse_wkb(#[trigger] pi[k]) == Err::<
                                WkbShapeView,
                                _,
                            >(e);
                        assert(p[k] == pi[k]);
                        assert(!(parse_wkb(p[k]) is Ok));
                    },
                }
            },
            None => {
                assert(gs.filter(is_present()) == init.filter(is_present()));
                assert(p =~= pi);
            },
        }
    }
}

/// Added-feature law: a feature that fits the schema's columns is accepted
/// exactly when every present geometry is valid WKB, and the shapes handed
/// back are then those of every present geometry, one per present
/// geometry, in column order (so the feature's box covers all its
/// geometry columns); when it is refused, it is for the error of one of
/// its present geometries.
pub proof fn law_add_feature_shapes(w: WriterView, f: FeatureView)
    requires
        !w.finalized,
        f.geometries.len() == w.schema.geometry_columns.len(),
        f.attributes.len() == w.schema.attribute_columns.len(),
        written_bytes(w.schema, w.features).len() + feature_bytes(f, w.schema).len() <= u64::MAX,
    ensures
        (add_feature_spec(w, f) is Ok) <==> forall|k: int|
            0 <= k < present_geometries(f.geometries).len() ==> parse_wkb(
                #[trigger] present_geometries(f.geometries)[k],
            ) is Ok,
        add_feature_spec(w, f) matches Ok(sh) ==> sh.len() == present_geometries(f.geometries).len()
            && forall|k: int|
            0 <= k < sh.len() ==> parse_wkb(#[trigger] present_geometries(f.geometries)[k])
                == Ok::<_, ErrorCase>(sh[k]),
        add_feature_spec(w, f) matches Err(e) ==> exists|k: int|
            0 <= k < present_geometries(f.geometries).len() && parse_wkb(
                #[trigger] present_geometries(f.geometries)[k],
            ) == Err::<WkbShapeView, _>(e),
{
    lemma_shapes_present(f.geometries);
}

} // verus!
