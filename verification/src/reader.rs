//! Reading the format: primitive fields, the schema section, feature
//! records, and the reader over a whole file.
//!
//! All reads are from the bytes of the file, at an absolute position. A read
//! that runs past the end fails with [`ErffError::Io`], as `read_exact` does.

use crate::error::{agrees, invalid_input, string_from_utf8, unexpected_eof, ErffError, ErrorCase};
use crate::index::{
    index_node_size_ok, index_section_readable, parse_envelope, parse_index, read_envelope, read_index, search_index,
    search_spec, total_nodes, u64_item,
};
use crate::bitmap::bit_set;
use crate::layout::{lemma_repeat_len, parse_repeat};
use crate::types::{
    AttributeColumnDef, AttributeColumnView, ColumnType, CoordType, EnvelopeBits, Feature,
    FeatureView, GeometryColumnDef, GeometryColumnView, GeometryType, Schema, SchemaView, Value,
    ValueView, FLAG_HAS_SPATIAL_INDEX, FOOTER_SIZE, HEADER_SIZE, MAGIC, VERSION_MAJOR,
};
use vstd::bytes::*;
use vstd::prelude::*;
use vstd::slice::*;
use vstd::utf8::*;

verus! {

// ── Specification of the primitive fields ─────────────────────────────────

/// `n` bytes at `pos`, and the position after them.
pub open spec fn parse_take(s: Seq<u8>, pos: int, n: int) -> Result<(Seq<u8>, int), ErrorCase> {
    if 0 <= pos && 0 <= n && pos + n <= s.len() {
        Ok((s.subrange(pos, pos + n), pos + n))
    } else {
        Err(ErrorCase::Io)
    }
}

pub open spec fn parse_u8(s: Seq<u8>, pos: int) -> Result<(u8, int), ErrorCase> {
    match parse_take(s, pos, 1) {
        Ok((b, p)) => Ok((b[0], p)),
        Err(e) => Err(e),
    }
}

pub open spec fn parse_u16(s: Seq<u8>, pos: int) -> Result<(u16, int), ErrorCase> {
    match parse_take(s, pos, 2) {
        Ok((b, p)) => Ok((spec_u16_from_le_bytes(b), p)),
        Err(e) => Err(e),
    }
}

pub open spec fn parse_u32(s: Seq<u8>, pos: int) -> Result<(u32, int), ErrorCase> {
    match parse_take(s, pos, 4) {
        Ok((b, p)) => Ok((spec_u32_from_le_bytes(b), p)),
        Err(e) => Err(e),
    }
}

pub open spec fn parse_u64(s: Seq<u8>, pos: int) -> Result<(u64, int), ErrorCase> {
    match parse_take(s, pos, 8) {
        Ok((b, p)) => Ok((spec_u64_from_le_bytes(b), p)),
        Err(e) => Err(e),
    }
}

pub open spec fn parse_i8(s: Seq<u8>, pos: int) -> Result<(i8, int), ErrorCase> {
    match parse_u8(s, pos) {
        Ok((v, p)) => Ok((v as i8, p)),
        Err(e) => Err(e),
    }
}

pub open spec fn parse_i16(s: Seq<u8>, pos: int) -> Result<(i16, int), ErrorCase> {
    match parse_u16(s, pos) {
        Ok((v, p)) => Ok((v as i16, p)),
        Err(e) => Err(e),
    }
}

pub open spec fn parse_i32(s: Seq<u8>, pos: int) -> Result<(i32, int), ErrorCase> {
    match parse_u32(s, pos) {
        Ok((v, p)) => Ok((v as i32, p)),
        Err(e) => Err(e),
    }
}

pub open spec fn parse_i64(s: Seq<u8>, pos: int) -> Result<(i64, int), ErrorCase> {
    match parse_u64(s, pos) {
        Ok((v, p)) => Ok((v as i64, p)),
        Err(e) => Err(e),
    }
}

/// A byte string with a `u32` length prefix.
pub open spec fn parse_bytes_u32(s: Seq<u8>, pos: int) -> Result<(Seq<u8>, int), ErrorCase> {
    match parse_u32(s, pos) {
        Ok((n, p)) => parse_take(s, p, n as int),
        Err(e) => Err(e),
    }
}

/// The characters of UTF-8 bytes, or `InvalidUtf8`.
pub open spec fn parse_utf8(b: Seq<u8>, p: int) -> Result<(Seq<char>, int), ErrorCase> {
    if valid_utf8(b) {
        Ok((decode_utf8(b), p))
    } else {
        Err(ErrorCase::InvalidUtf8)
    }
}

/// A UTF-8 string with a `u16` length prefix.
pub open spec fn parse_string_u16(s: Seq<u8>, pos: int) -> Result<(Seq<char>, int), ErrorCase> {
    match parse_u16(s, pos) {
        Ok((n, p)) => match parse_take(s, p, n as int) {
            Ok((b, q)) => parse_utf8(b, q),
            Err(e) => Err(e),
        },
        Err(e) => Err(e),
    }
}

/// A UTF-8 string with a `u32` length prefix.
pub open spec fn parse_string_u32(s: Seq<u8>, pos: int) -> Result<(Seq<char>, int), ErrorCase> {
    match parse_bytes_u32(s, pos) {
        Ok((b, q)) => parse_utf8(b, q),
        Err(e) => Err(e),
    }
}

// ── Reading the primitive fields ──────────────────────────────────────────

/// The `n` bytes at `pos`.
pub fn read_slice<'a>(data: &'a [u8], pos: usize, n: usize) -> (res: Result<
    (&'a [u8], usize),
    ErffError,
>)
    ensures
        agrees(res, parse_take(data@, pos as int, n as int)),
{
    if n <= data.len() && pos <= data.len() - n {
        Ok((slice_subrange(data, pos, pos + n), pos + n))
    } else {
        Err(ErffError::Io(unexpected_eof()))
    }
}

pub fn read_u8(data: &[u8], pos: usize) -> (res: Result<(u8, usize), ErffError>)
    ensures
        agrees(res, parse_u8(data@, pos as int)),
{
    let (b, p) = read_slice(data, pos, 1)?;
    Ok((b[0], p))
}

pub fn read_u16(data: &[u8], pos: usize) -> (res: Result<(u16, usize), ErffError>)
    ensures
        agrees(res, parse_u16(data@, pos as int)),
{
    let (b, p) = read_slice(data, pos, 2)?;
    Ok((u16_from_le_bytes(b), p))
}

pub fn read_u32(data: &[u8], pos: usize) -> (res: Result<(u32, usize), ErffError>)
    ensures
        agrees(res, parse_u32(data@, pos as int)),
{
    let (b, p) = read_slice(data, pos, 4)?;
    Ok((u32_from_le_bytes(b), p))
}

pub fn read_u64(data: &[u8], pos: usize) -> (res: Result<(u64, usize), ErffError>)
    ensures
        agrees(res, parse_u64(data@, pos as int)),
{
    let (b, p) = read_slice(data, pos, 8)?;
    Ok((u64_from_le_bytes(b), p))
}

pub fn read_i8(data: &[u8], pos: usize) -> (res: Result<(i8, usize), ErffError>)
    ensures
        agrees(res, parse_i8(data@, pos as int)),
{
    let (v, p) = read_u8(data, pos)?;
    Ok((v as i8, p))
}

pub fn read_i16(data: &[u8], pos: usize) -> (res: Result<(i16, usize), ErffError>)
    ensures
        agrees(res, parse_i16(data@, pos as int)),
{
    let (v, p) = read_u16(data, pos)?;
    Ok((v as i16, p))
}

pub fn read_i32(data: &[u8], pos: usize) -> (res: Result<(i32, usize), ErffError>)
    ensures
        agrees(res, parse_i32(data@, pos as int)),
{
    let (v, p) = read_u32(data, pos)?;
    Ok((v as i32, p))
}

pub fn read_i64(data: &[u8], pos: usize) -> (res: Result<(i64, usize), ErffError>)
    ensures
        agrees(res, parse_i64(data@, pos as int)),
{
    let (v, p) = read_u64(data, pos)?;
    Ok((v as i64, p))
}

/// A byte string with a `u32` length prefix.
pub fn read_bytes_u32(data: &[u8], pos: usize) -> (res: Result<(Vec<u8>, usize), ErffError>)
    ensures
        agrees(res, parse_bytes_u32(data@, pos as int)),
{
    let (n, p) = read_u32(data, pos)?;
    let (b, q) = read_slice(data, p, n as usize)?;
    Ok((slice_to_vec(b), q))
}

/// UTF-8 bytes as a `String`, or `InvalidUtf8`.
fn utf8_string(b: &[u8], q: usize) -> (res: Result<(String, usize), ErffError>)
    ensures
        agrees(res, parse_utf8(b@, q as int)),
{
    match string_from_utf8(slice_to_vec(b)) {
        Ok(s) => Ok((s, q)),
        Err(e) => Err(ErffError::InvalidUtf8(e)),
    }
}

/// A UTF-8 string with a `u16` length prefix.
pub fn read_string_u16(data: &[u8], pos: usize) -> (res: Result<(String, usize), ErffError>)
    ensures
        agrees(res, parse_string_u16(data@, pos as int)),
{
    let (n, p) = read_u16(data, pos)?;
    let (b, q) = read_slice(data, p, n as usize)?;
    utf8_string(b, q)
}

/// A UTF-8 string with a `u32` length prefix.
pub fn read_string_u32(data: &[u8], pos: usize) -> (res: Result<(String, usize), ErffError>)
    ensures
        agrees(res, parse_string_u32(data@, pos as int)),
{
    let (n, p) = read_u32(data, pos)?;
    let (b, q) = read_slice(data, p, n as usize)?;
    utf8_string(b, q)
}

// ── Specification of the schema section ───────────────────────────────────

/// A geometry column: name, geometry type code, coordinate type code.
pub open spec fn parse_geometry_column(s: Seq<u8>, pos: int) -> Result<
    (GeometryColumnView, int),
    ErrorCase,
> {
    match parse_string_u16(s, pos) {
        Ok((name, p1)) => match parse_u8(s, p1) {
            Ok((g, p2)) => match GeometryType::of_code(g) {
                Some(geom_type) => match parse_u8(s, p2) {
                    Ok((c, p3)) => match CoordType::of_code(c) {
                        Some(coord_type) => Ok(
                            (GeometryColumnView { name, geom_type, coord_type }, p3),
                        ),
                        None => Err(ErrorCase::InvalidCoordType(c)),
                    },
                    Err(e) => Err(e),
                },
                None => Err(ErrorCase::InvalidGeometryType(g)),
            },
            Err(e) => Err(e),
        },
        Err(e) => Err(e),
    }
}

/// An attribute column: name, column type code, flags (bit 0: nullable).
pub open spec fn parse_attribute_column(s: Seq<u8>, pos: int) -> Result<
    (AttributeColumnView, int),
    ErrorCase,
> {
    match parse_string_u16(s, pos) {
        Ok((name, p1)) => match parse_u8(s, p1) {
            Ok((t, p2)) => match ColumnType::of_code(t) {
                Some(col_type) => match parse_u8(s, p2) {
                    Ok((flags, p3)) => Ok(
                        (
                            AttributeColumnView { name, col_type, nullable: flags & 1u8 != 0u8 },
                            p3,
                        ),
                    ),
                    Err(e) => Err(e),
                },
                None => Err(ErrorCase::InvalidColumnType(t)),
            },
            Err(e) => Err(e),
        },
        Err(e) => Err(e),
    }
}

/// A metadata entry: a key with a `u16` length, a value with a `u32` length.
pub open spec fn parse_metadata_entry(s: Seq<u8>, pos: int) -> Result<
    ((Seq<char>, Seq<char>), int),
    ErrorCase,
> {
    match parse_string_u16(s, pos) {
        Ok((k, p1)) => match parse_string_u32(s, p1) {
            Ok((v, p2)) => Ok(((k, v), p2)),
            Err(e) => Err(e),
        },
        Err(e) => Err(e),
    }
}

pub open spec fn geometry_column_item() -> spec_fn(Seq<u8>, int) -> Result<
    (GeometryColumnView, int),
    ErrorCase,
> {
    |s: Seq<u8>, p: int| parse_geometry_column(s, p)
}

pub open spec fn attribute_column_item() -> spec_fn(Seq<u8>, int) -> Result<
    (AttributeColumnView, int),
    ErrorCase,
> {
    |s: Seq<u8>, p: int| parse_attribute_column(s, p)
}

pub open spec fn metadata_item() -> spec_fn(Seq<u8>, int) -> Result<
    ((Seq<char>, Seq<char>), int),
    ErrorCase,
> {
    |s: Seq<u8>, p: int| parse_metadata_entry(s, p)
}

/// The schema section: CRS, geometry columns, attribute columns, metadata,
/// each list preceded by its count.
pub open spec fn parse_schema(s: Seq<u8>, pos: int) -> Result<(SchemaView, int), ErrorCase> {
    match parse_string_u32(s, pos) {
        Ok((crs, p1)) => match parse_u16(s, p1) {
            Ok((ng, p2)) => match parse_repeat(s, p2, ng as nat, geometry_column_item()) {
                Ok((geometry_columns, p3)) => match parse_u16(s, p3) {
                    Ok((na, p4)) => match parse_repeat(s, p4, na as nat, attribute_column_item()) {
                        Ok((attribute_columns, p5)) => match parse_u32(s, p5) {
                            Ok((nm, p6)) => match parse_repeat(s, p6, nm as nat, metadata_item()) {
                                Ok((metadata, p7)) => Ok(
                                    (
                                        SchemaView {
                                            crs,
                                            geometry_columns,
                                            attribute_columns,
                                            metadata,
                                        },
                                        p7,
                                    ),
                                ),
                                Err(e) => Err(e),
                            },
                            Err(e) => Err(e),
                        },
                        Err(e) => Err(e),
                    },
                    Err(e) => Err(e),
                },
                Err(e) => Err(e),
            },
            Err(e) => Err(e),
        },
        Err(e) => Err(e),
    }
}

/// Once a list fails, every longer list fails the same way.
pub proof fn lemma_repeat_err_persists<T>(
    s: Seq<u8>,
    pos: int,
    k: nat,
    n: nat,
    item: spec_fn(Seq<u8>, int) -> Result<(T, int), ErrorCase>,
)
    requires
        k <= n,
        parse_repeat(s, pos, k, item) is Err,
    ensures
        parse_repeat(s, pos, n, item) == parse_repeat(s, pos, k, item),
    decreases n,
{
    if n > k {
        lemma_repeat_err_persists(s, pos, k, (n - 1) as nat, item);
    }
}

// ── Reading the schema section ────────────────────────────────────────────

fn read_geometry_column(data: &[u8], pos: usize) -> (res: Result<
    (GeometryColumnDef, usize),
    ErffError,
>)
    ensures
        agrees(res, parse_geometry_column(data@, pos as int)),
{
    let (name, p1) = read_string_u16(data, pos)?;
    let (g, p2) = read_u8(data, p1)?;
    let geom_type = GeometryType::from_u8(g)?;
    let (c, p3) = read_u8(data, p2)?;
    let coord_type = CoordType::from_u8(c)?;
    Ok((GeometryColumnDef { name, geom_type, coord_type }, p3))
}

fn read_attribute_column(data: &[u8], pos: usize) -> (res: Result<
    (AttributeColumnDef, usize),
    ErffError,
>)
    ensures
        agrees(res, parse_attribute_column(data@, pos as int)),
{
    let (name, p1) = read_string_u16(data, pos)?;
    let (t, p2) = read_u8(data, p1)?;
    let col_type = ColumnType::from_u8(t)?;
    let (flags, p3) = read_u8(data, p2)?;
    let nullable = flags & 0x01 != 0;
    Ok((AttributeColumnDef { name, col_type, nullable }, p3))
}

fn read_metadata_entry(data: &[u8], pos: usize) -> (res: Result<
    ((String, String), usize),
    ErffError,
>)
    ensures
        agrees(res, parse_metadata_entry(data@, pos as int)),
{
    let (key, p1) = read_string_u16(data, pos)?;
    let (value, p2) = read_string_u32(data, p1)?;
    Ok(((key, value), p2))
}

/// Read the schema section that starts at `pos`.
#[verifier::loop_isolation(false)]
pub fn deserialize_schema(data: &[u8], pos: usize) -> (res: Result<(Schema, usize), ErffError>)
    ensures
        agrees(res, parse_schema(data@, pos as int)),
{
    let ghost s = data@;
    let (crs, p1) = read_string_u32(data, pos)?;

    // Geometry columns
    let (geom_count, p2) = read_u16(data, p1)?;
    let mut geometry_columns: Vec<GeometryColumnDef> = Vec::new();
    assert(geometry_columns@.map_values(|c: GeometryColumnDef| c@) =~= Seq::empty());
    let mut p = p2;
    let mut i: usize = 0;
    while i < geom_count as usize
        invariant
            s == data@,
            i <= geom_count,
            parse_repeat(s, p2 as int, i as nat, geometry_column_item()) == Ok::<_, ErrorCase>(
                (geometry_columns@.map_values(|c: GeometryColumnDef| c@), p as int),
            ),
        decreases geom_count - i,
    {
        match read_geometry_column(data, p) {
            Ok((c, q)) => {
                let ghost before = geometry_columns@;
                geometry_columns.push(c);
                assert(geometry_columns@.map_values(|c: GeometryColumnDef| c@) =~= before.map_values(
                    |c: GeometryColumnDef| c@,
                ).push(c@));
                p = q;
                i = i + 1;
            },
            Err(e) => {
                proof {
                    lemma_repeat_err_persists(
                        s,
                        p2 as int,
                        (i + 1) as nat,
                        geom_count as nat,
                        geometry_column_item(),
                    );
                }
                return Err(e);
            },
        }
    }
    let p3 = p;

    // Attribute columns
    let (attr_count, p4) = read_u16(data, p3)?;
    let mut attribute_columns: Vec<AttributeColumnDef> = Vec::new();
    assert(attribute_columns@.map_values(|c: AttributeColumnDef| c@) =~= Seq::empty());
    p = p4;
    i = 0;
    while i < attr_count as usize
        invariant
            s == data@,
            i <= attr_count,
            parse_repeat(s, p4 as int, i as nat, attribute_column_item()) == Ok::<_, ErrorCase>(
                (attribute_columns@.map_values(|c: AttributeColumnDef| c@), p as int),
            ),
        decreases attr_count - i,
    {
        match read_attribute_column(data, p) {
            Ok((c, q)) => {
                let ghost before = attribute_columns@;
                attribute_columns.push(c);
                assert(attribute_columns@.map_values(|c: AttributeColumnDef| c@)
                    =~= before.map_values(|c: AttributeColumnDef| c@).push(c@));
                p = q;
                i = i + 1;
            },
            Err(e) => {
                proof {
                    lemma_repeat_err_persists(
                        s,
                        p4 as int,
                        (i + 1) as nat,
                        attr_count as nat,
                        attribute_column_item(),
                    );
                }
                return Err(e);
            },
        }
    }
    let p5 = p;

    // Metadata
    let (meta_count, p6) = read_u32(data, p5)?;
    let mut metadata: Vec<(String, String)> = Vec::new();
    assert(metadata@.map_values(|kv: (String, String)| (kv.0@, kv.1@)) =~= Seq::empty());
    p = p6;
    let mut k: u32 = 0;
    while k < meta_count
        invariant
            s == data@,
            k <= meta_count,
            parse_repeat(s, p6 as int, k as nat, metadata_item()) == Ok::<_, ErrorCase>(
                (metadata@.map_values(|kv: (String, String)| (kv.0@, kv.1@)), p as int),
            ),
        decreases meta_count - k,
    {
        match read_metadata_entry(data, p) {
            Ok((kv, q)) => {
                let ghost before = metadata@;
                metadata.push(kv);
                assert(metadata@.map_values(|kv: (String, String)| (kv.0@, kv.1@))
                    =~= before.map_values(|kv: (String, String)| (kv.0@, kv.1@)).push(
                    (kv.0@, kv.1@),
                ));
                p = q;
                k = k + 1;
            },
            Err(e) => {
                proof {
                    lemma_repeat_err_persists(
                        s,
                        p6 as int,
                        (k + 1) as nat,
                        meta_count as nat,
                        metadata_item(),
                    );
                }
                return Err(e);
            },
        }
    }
    Ok((Schema { crs, geometry_columns, attribute_columns, metadata }, p))
}

// ── Specification of feature records ─────────────────────────────────────

/// Wrap a parsed field as an attribute value.
pub open spec fn as_value<T>(r: Result<(T, int), ErrorCase>, f: spec_fn(T) -> ValueView) -> Result<
    (ValueView, int),
    ErrorCase,
> {
    match r {
        Ok((x, p)) => Ok((f(x), p)),
        Err(e) => Err(e),
    }
}

/// A present attribute value of the given column type.
pub open spec fn parse_value(s: Seq<u8>, pos: int, t: ColumnType) -> Result<
    (ValueView, int),
    ErrorCase,
> {
    match t {
        ColumnType::Bool => as_value(parse_u8(s, pos), |x: u8| ValueView::Bool(x != 0)),
        ColumnType::Int8 => as_value(parse_i8(s, pos), |x: i8| ValueView::Int8(x)),
        ColumnType::UInt8 => as_value(parse_u8(s, pos), |x: u8| ValueView::UInt8(x)),
        ColumnType::Int16 => as_value(parse_i16(s, pos), |x: i16| ValueView::Int16(x)),
        ColumnType::UInt16 => as_value(parse_u16(s, pos), |x: u16| ValueView::UInt16(x)),
        ColumnType::Int32 => as_value(parse_i32(s, pos), |x: i32| ValueView::Int32(x)),
        ColumnType::UInt32 => as_value(parse_u32(s, pos), |x: u32| ValueView::UInt32(x)),
        ColumnType::Int64 => as_value(parse_i64(s, pos), |x: i64| ValueView::Int64(x)),
        ColumnType::UInt64 => as_value(parse_u64(s, pos), |x: u64| ValueView::UInt64(x)),
        ColumnType::Float32 => as_value(parse_u32(s, pos), |x: u32| ValueView::Float32(x)),
        ColumnType::Float64 => as_value(parse_u64(s, pos), |x: u64| ValueView::Float64(x)),
        ColumnType::String => as_value(
            parse_string_u32(s, pos),
            |x: Seq<char>| ValueView::String(x),
        ),
        ColumnType::Binary => as_value(parse_bytes_u32(s, pos), |x: Seq<u8>| ValueView::Binary(x)),
        ColumnType::Date => as_value(parse_i32(s, pos), |x: i32| ValueView::Date(x)),
        ColumnType::DateTime => as_value(parse_i64(s, pos), |x: i64| ValueView::DateTime(x)),
        ColumnType::Json => as_value(parse_string_u32(s, pos), |x: Seq<char>| ValueView::Json(x)),
    }
}

/// The first `n` geometry values: each is read (as WKB with a `u32` length)
/// when the bitmap marks its column present, and is null otherwise.
pub open spec fn parse_geometries(s: Seq<u8>, pos: int, bitmap: Seq<u8>, n: nat) -> Result<
    (Seq<Option<Seq<u8>>>, int),
    ErrorCase,
>
    decreases n,
{
    if n == 0 {
        Ok((Seq::empty(), pos))
    } else {
        match parse_geometries(s, pos, bitmap, (n - 1) as nat) {
            Ok((gs, p)) => if bit_set(bitmap, n - 1) {
                match parse_bytes_u32(s, p) {
                    Ok((b, q)) => Ok((gs.push(Some(b)), q)),
                    Err(e) => Err(e),
                }
            } else {
                Ok((gs.push(None), p))
            },
            Err(e) => Err(e),
        }
    }
}

/// The first `n` attribute values; attribute `i` is column `g + i` of the
/// bitmap, read by the type of its column when present and null otherwise.
pub open spec fn parse_attributes(
    s: Seq<u8>,
    pos: int,
    bitmap: Seq<u8>,
    cols: Seq<AttributeColumnView>,
    g: nat,
    n: nat,
) -> Result<(Seq<ValueView>, int), ErrorCase>
    decreases n,
{
    if n == 0 {
        Ok((Seq::empty(), pos))
    } else {
        match parse_attributes(s, pos, bitmap, cols, g, (n - 1) as nat) {
            Ok((vs, p)) => if !bit_set(bitmap, g + n - 1) {
                Ok((vs.push(ValueView::Null), p))
            } else {
                match parse_value(s, p, cols[n - 1].col_type) {
                    Ok((v, q)) => Ok((vs.push(v), q)),
                    Err(e) => Err(e),
                }
            },
            Err(e) => Err(e),
        }
    }
}

/// A feature record of the given schema: the size field (not used), the
/// null bitmap, the geometries, the attributes.
pub open spec fn parse_feature(s: Seq<u8>, pos: int, sv: SchemaView) -> Result<
    (FeatureView, int),
    ErrorCase,
> {
    match parse_u32(s, pos) {
        Ok((_size, p1)) => match parse_take(s, p1, sv.null_bitmap_bytes() as int) {
            Ok((bitmap, p2)) => match parse_geometries(
                s,
                p2,
                bitmap,
                sv.geometry_columns.len(),
            ) {
                Ok((geometries, p3)) => match parse_attributes(
                    s,
                    p3,
                    bitmap,
                    sv.attribute_columns,
                    sv.geometry_columns.len(),
                    sv.attribute_columns.len(),
                ) {
                    Ok((attributes, p4)) => Ok((FeatureView { geometries, attributes }, p4)),
                    Err(e) => Err(e),
                },
                Err(e) => Err(e),
            },
            Err(e) => Err(e),
        },
        Err(e) => Err(e),
    }
}

pub proof fn lemma_geometries_err_persists(s: Seq<u8>, pos: int, bitmap: Seq<u8>, k: nat, n: nat)
    requires
        k <= n,
        parse_geometries(s, pos, bitmap, k) is Err,
    ensures
        parse_geometries(s, pos, bitmap, n) == parse_geometries(s, pos, bitmap, k),
    decreases n,
{
    if n > k {
        lemma_geometries_err_persists(s, pos, bitmap, k, (n - 1) as nat);
    }
}

pub proof fn lemma_attributes_err_persists(
    s: Seq<u8>,
    pos: int,
    bitmap: Seq<u8>,
    cols: Seq<AttributeColumnView>,
    g: nat,
    k: nat,
    n: nat,
)
    requires
        k <= n,
        parse_attributes(s, pos, bitmap, cols, g, k) is Err,
    ensures
        parse_attributes(s, pos, bitmap, cols, g, n) == parse_attributes(
            s,
            pos,
            bitmap,
            cols,
            g,
            k,
        ),
    decreases n,
{
    if n > k {
        lemma_attributes_err_persists(s, pos, bitmap, cols, g, k, (n - 1) as nat);
    }
}

// ── Reading feature records ───────────────────────────────────────────────

/// A present attribute value of the given column type.
pub fn read_value(data: &[u8], pos: usize, t: ColumnType) -> (res: Result<
    (Value, usize),
    ErffError,
>)
    ensures
        agrees(res, parse_value(data@, pos as int, t)),
{
    match t {
        ColumnType::Bool => {
            let (v, p) = read_u8(data, pos)?;
            Ok((Value::Bool(v != 0), p))
        },
        ColumnType::Int8 => {
            let (v, p) = read_i8(data, pos)?;
            Ok((Value::Int8(v), p))
        },
        ColumnType::UInt8 => {
            let (v, p) = read_u8(data, pos)?;
            Ok((Value::UInt8(v), p))
        },
        ColumnType::Int16 => {
            let (v, p) = read_i16(data, pos)?;
            Ok((Value::Int16(v), p))
        },
        ColumnType::UInt16 => {
            let (v, p) = read_u16(data, pos)?;
            Ok((Value::UInt16(v), p))
        },
        ColumnType::Int32 => {
            let (v, p) = read_i32(data, pos)?;
            Ok((Value::Int32(v), p))
        },
        ColumnType::UInt32 => {
            let (v, p) = read_u32(data, pos)?;
            Ok((Value::UInt32(v), p))
        },
        ColumnType::Int64 => {
            let (v, p) = read_i64(data, pos)?;
            Ok((Value::Int64(v), p))
        },
        ColumnType::UInt64 => {
            let (v, p) = read_u64(data, pos)?;
            Ok((Value::UInt64(v), p))
        },
        ColumnType::Float32 => {
            let (v, p) = read_u32(data, pos)?;
            Ok((Value::Float32(v), p))
        },
        ColumnType::Float64 => {
            let (v, p) = read_u64(data, pos)?;
            Ok((Value::Float64(v), p))
        },
        ColumnType::String => {
            let (v, p) = read_string_u32(data, pos)?;
            Ok((Value::String(v), p))
        },
        ColumnType::Binary => {
            let (v, p) = read_bytes_u32(data, pos)?;
            Ok((Value::Binary(v), p))
        },
        ColumnType::Date => {
            let (v, p) = read_i32(data, pos)?;
            Ok((Value::Date(v), p))
        },
        ColumnType::DateTime => {
            let (v, p) = read_i64(data, pos)?;
            Ok((Value::DateTime(v), p))
        },
        ColumnType::Json => {
            let (v, p) = read_string_u32(data, pos)?;
            Ok((Value::Json(v), p))
        },
    }
}

/// Read the feature record that starts at `pos`, by the given schema.
#[verifier::loop_isolation(false)]
#[verifier::spinoff_prover]
#[verifier::rlimit(30)]
pub fn deserialize_feature(data: &[u8], pos: usize, schema: &Schema) -> (res: Result<
    (Feature, usize),
    ErffError,
>)
    requires
        schema.geometry_columns.len() + schema.attribute_columns.len() <= usize::MAX,
    ensures
        agrees(res, parse_feature(data@, pos as int, schema@)),
{
    let ghost s = data@;
    let ghost sv = schema@;
    let (_size, p1) = read_u32(data, pos)?;

    // Null bitmap
    let bitmap_bytes = schema.null_bitmap_bytes();
    let (bitmap, p2) = read_slice(data, p1, bitmap_bytes)?;
    let geom_count = schema.geometry_columns.len();
    let attr_count = schema.attribute_columns.len();

    // Geometry columns
    let mut geometries: Vec<Option<Vec<u8>>> = Vec::new();
    assert(geometries@.map_values(|g: Option<Vec<u8>>| crate::types::geometry_view(g))
        =~= Seq::empty());
    let mut p = p2;
    let mut i: usize = 0;
    while i < geom_count
        invariant
            i <= geom_count,
            geometries@.len() == i,
            parse_geometries(s, p2 as int, bitmap@, i as nat) == Ok::<_, ErrorCase>(
                (
                    geometries@.map_values(|g: Option<Vec<u8>>| crate::types::geometry_view(g)),
                    p as int,
                ),
            ),
        decreases geom_count - i,
    {
        let present = bitmap[i / 8] & (1u8 << ((i % 8) as u8)) != 0;
        let ghost before = geometries@;
        if present {
            match read_bytes_u32(data, p) {
                Ok((wkb_data, q)) => {
                    geometries.push(Some(wkb_data));
                    p = q;
                },
                Err(e) => {
                    proof {
                        lemma_geometries_err_persists(
                            s,
                            p2 as int,
                            bitmap@,
                            (i + 1) as nat,
                            geom_count as nat,
                        );
                    }
                    return Err(e);
                },
            }
        } else {
            geometries.push(None);
        }
        assert(geometries@.map_values(|g: Option<Vec<u8>>| crate::types::geometry_view(g))
            =~= before.map_values(|g: Option<Vec<u8>>| crate::types::geometry_view(g)).push(
            crate::types::geometry_view(geometries@[i as int]),
        ));
        i = i + 1;
    }
    let p3 = p;

    // Attribute columns
    let mut attributes: Vec<Value> = Vec::new();
    assert(attributes@.map_values(|v: Value| v@) =~= Seq::empty());
    let mut j: usize = 0;
    while j < attr_count
        invariant
            j <= attr_count,
            attributes@.len() == j,
            parse_attributes(
                s,
                p3 as int,
                bitmap@,
                sv.attribute_columns,
                geom_count as nat,
                j as nat,
            ) == Ok::<_, ErrorCase>((attributes@.map_values(|v: Value| v@), p as int)),
        decreases attr_count - j,
    {
        let col_idx = geom_count + j;
        let present = bitmap[col_idx / 8] & (1u8 << ((col_idx % 8) as u8)) != 0;
        let ghost before = attributes@;
        if !present {
            attributes.push(Value::Null);
        } else {
            match read_value(data, p, schema.attribute_columns[j].col_type) {
                Ok((val, q)) => {
                    attributes.push(val);
                    p = q;
                },
                Err(e) => {
                    proof {
                        lemma_attributes_err_persists(
                            s,
                            p3 as int,
                            bitmap@,
                            sv.attribute_columns,
                            geom_count as nat,
                            (j + 1) as nat,
                            attr_count as nat,
                        );
                    }
                    return Err(e);
                },
            }
        }
        assert(attributes@.map_values(|v: Value| v@) =~= before.map_values(|v: Value| v@).push(
            attributes@[j as int]@,
        ));
        j = j + 1;
    }
    Ok((Feature { geometries, attributes }, p))
}

// ── The file: header, footer and what they point to ───────────────────────

/// The magic that opens and closes a file, "ERFF".
pub open spec fn magic_bytes() -> Seq<u8> {
    seq![MAGIC[0], MAGIC[1], MAGIC[2], MAGIC[3]]
}

/// What the header, the schema and the footer of a file say.
pub struct FileInfo {
    pub schema: SchemaView,
    pub feature_count: u64,
    pub envelope: EnvelopeBits,
    pub flags: u8,
    pub offset_table_pos: u64,
    pub index_pos: u64,
    pub data_start_pos: u64,
}

/// The leading magic and the version: an error, or nothing.
pub open spec fn parse_preamble(s: Seq<u8>) -> Result<(), ErrorCase> {
    match parse_take(s, 0, 4) {
        Ok((m, _)) => if m != magic_bytes() {
            Err(ErrorCase::InvalidMagic)
        } else {
            match parse_u8(s, 4) {
                Ok((major, _)) => match parse_u8(s, 5) {
                    Ok((minor, _)) => if major != VERSION_MAJOR {
                        Err(ErrorCase::UnsupportedVersion { major, minor })
                    } else {
                        Ok(())
                    },
                    Err(e) => Err(e),
                },
                Err(e) => Err(e),
            }
        },
        Err(e) => Err(e),
    }
}

/// The rest of the 64-byte header: flags, a reserved byte, the feature
/// count, the envelope and the size of the schema section.
pub open spec fn parse_header_fields(s: Seq<u8>) -> Result<(u8, u64, EnvelopeBits, u32), ErrorCase> {
    match parse_u8(s, 6) {
        Ok((flags, _)) => match parse_u8(s, 7) {
            Ok(_) => match parse_u64(s, 8) {
                Ok((count, _)) => match parse_envelope(s, 16) {
                    Ok((env, _)) => match parse_u32(s, 48) {
                        Ok((schema_size, _)) => Ok((flags, count, env, schema_size)),
                        Err(e) => Err(e),
                    },
                    Err(e) => Err(e),
                },
                Err(e) => Err(e),
            },
            Err(e) => Err(e),
        },
        Err(e) => Err(e),
    }
}

/// The 32-byte footer at the end of the file: the offset table position,
/// the index position, the data start (not used), and the trailing magic.
pub open spec fn parse_footer(s: Seq<u8>) -> Result<(u64, u64), ErrorCase> {
    if s.len() < FOOTER_SIZE {
        Err(ErrorCase::Io)
    } else {
        let f = s.len() - FOOTER_SIZE;
        match parse_u64(s, f) {
            Ok((otp, _)) => match parse_u64(s, f + 8) {
                Ok((ip, _)) => match parse_u64(s, f + 16) {
                    Ok(_) => match parse_take(s, f + 24, 4) {
                        Ok((m, _)) => if m != magic_bytes() {
                            Err(ErrorCase::InvalidMagic)
                        } else {
                            Ok((otp, ip))
                        },
                        Err(e) => Err(e),
                    },
                    Err(e) => Err(e),
                },
                Err(e) => Err(e),
            },
            Err(e) => Err(e),
        }
    }
}

/// Opening a file: the preamble, the header, the schema at offset 64, then
/// the footer; the features start right after the schema section.
pub open spec fn parse_open(s: Seq<u8>) -> Result<FileInfo, ErrorCase> {
    match parse_preamble(s) {
        Ok(_) => match parse_header_fields(s) {
            Ok((flags, feature_count, envelope, schema_size)) => match parse_schema(
                s,
                HEADER_SIZE as int,
            ) {
                Ok((schema, _)) => match parse_footer(s) {
                    Ok((offset_table_pos, index_pos)) => Ok(
                        FileInfo {
                            schema,
                            feature_count,
                            envelope,
                            flags,
                            offset_table_pos,
                            index_pos,
                            data_start_pos: (HEADER_SIZE + schema_size) as u64,
                        },
                    ),
                    Err(e) => Err(e),
                },
                Err(e) => Err(e),
            },
            Err(e) => Err(e),
        },
        Err(e) => Err(e),
    }
}

/// A reader as contracts see it: the bytes of the file and what they say.
pub struct ReaderView {
    pub data: Seq<u8>,
    pub info: FileInfo,
}

/// The feature offset table.
pub open spec fn offsets_spec(v: ReaderView) -> Result<Seq<u64>, ErrorCase> {
    match parse_repeat(
        v.data,
        v.info.offset_table_pos as int,
        v.info.feature_count as nat,
        u64_item(),
    ) {
        Ok((offs, _)) => Ok(offs),
        Err(e) => Err(e),
    }
}

/// Feature `index`, found through the offset table.
pub open spec fn read_feature_spec(v: ReaderView, index: u64) -> Result<FeatureView, ErrorCase> {
    if index >= v.info.feature_count {
        Err(ErrorCase::FeatureOutOfRange(index, v.info.feature_count))
    } else {
        match offsets_spec(v) {
            Ok(offs) => match parse_feature(v.data, offs[index as int] as int, v.info.schema) {
                Ok((f, _)) => Ok(f),
                Err(e) => Err(e),
            },
            Err(e) => Err(e),
        }
    }
}

pub open spec fn feature_item(sv: SchemaView) -> spec_fn(Seq<u8>, int) -> Result<
    (FeatureView, int),
    ErrorCase,
> {
    |s: Seq<u8>, p: int| parse_feature(s, p, sv)
}

/// All features, read one after the other from the start of the data.
pub open spec fn features_spec(v: ReaderView) -> Result<Seq<FeatureView>, ErrorCase> {
    match parse_repeat(
        v.data,
        v.info.data_start_pos as int,
        v.info.feature_count as nat,
        feature_item(v.info.schema),
    ) {
        Ok((fs, _)) => Ok(fs),
        Err(e) => Err(e),
    }
}

/// The spatial index: `(feature_indices, nodes, node_size, num_items)`,
/// or `NoSpatialIndex` when the flags say there is none.
pub open spec fn index_spec(v: ReaderView) -> Result<
    (Seq<u64>, Seq<EnvelopeBits>, u16, u64),
    ErrorCase,
> {
    if v.info.flags & FLAG_HAS_SPATIAL_INDEX == 0 {
        Err(ErrorCase::NoSpatialIndex)
    } else {
        match parse_index(v.data, v.info.index_pos as int) {
            Ok((x, _)) => Ok(x),
            Err(e) => Err(e),
        }
    }
}

/// The index can be loaded without building a tree that has no node size
/// to build it with.
pub open spec fn index_readable(v: ReaderView) -> bool {
    v.info.flags & FLAG_HAS_SPATIAL_INDEX == 0 || index_node_size_ok(
        v.data,
        v.info.index_pos as int,
    )
}

/// There is a hit for every node of the index, when it loads.
pub open spec fn hits_cover_index(v: ReaderView, hits: Seq<bool>) -> bool {
    index_spec(v) matches Ok((_, nodes, _, _)) ==> nodes.len() <= hits.len()
}

/// The feature indices that a spatial query with these node hits finds.
pub open spec fn query_indices_spec(v: ReaderView, hits: Seq<bool>) -> Result<
    Seq<u64>,
    ErrorCase,
> {
    match index_spec(v) {
        Ok((fi, _, ns, n)) => Ok(search_spec(hits, fi, n, ns as u64)),
        Err(e) => Err(e),
    }
}

/// The features at the given indices of the offset table, read in turn;
/// `None` where an index lies outside the table before any read has failed.
pub open spec fn fetch_features(
    s: Seq<u8>,
    offs: Seq<u64>,
    idxs: Seq<u64>,
    sv: SchemaView,
) -> Option<Result<Seq<FeatureView>, ErrorCase>>
    decreases idxs.len(),
{
    if idxs.len() == 0 {
        Some(Ok(Seq::empty()))
    } else {
        match fetch_features(s, offs, idxs.drop_last(), sv) {
            Some(Ok(fs)) => if idxs.last() >= offs.len() {
                None
            } else {
                match parse_feature(s, offs[idxs.last() as int] as int, sv) {
                    Ok((f, _)) => Some(Ok(fs.push(f))),
                    Err(e) => Some(Err(e)),
                }
            },
            other => other,
        }
    }
}

/// What a spatial query with these node hits returns: the index is loaded,
/// then the offset table, then each feature found; `None` where a feature
/// index found lies outside the offset table.
pub open spec fn query_spec(v: ReaderView, hits: Seq<bool>) -> Option<
    Result<Seq<FeatureView>, ErrorCase>,
> {
    match index_spec(v) {
        Ok((fi, _, ns, n)) => match offsets_spec(v) {
            Ok(offs) => fetch_features(v.data, offs, search_spec(hits, fi, n, ns as u64), v.info.schema),
            Err(e) => Some(Err(e)),
        },
        Err(e) => Some(Err(e)),
    }
}

/// The views of a list of features.
pub open spec fn features_view(fs: Seq<Feature>) -> Seq<FeatureView> {
    fs.map_values(|f: Feature| f@)
}

// ── Reading at a file position ────────────────────────────────────────────

/// A `u64` at a file position, which may lie past the end of the data.
fn read_u64_at(data: &[u8], pos: u64) -> (res: Result<(u64, u64), ErffError>)
    ensures
        match parse_u64(data@, pos as int) {
            Ok((v, p)) => res matches Ok((w, q)) && w == v && q == p,
            Err(c) => res matches Err(e) && e.case() == c,
        },
{
    if pos > data.len() as u64 {
        return Err(ErffError::Io(unexpected_eof()));
    }
    let (v, q) = read_u64(data, pos as usize)?;
    Ok((v, q as u64))
}

/// `n` consecutive `u64` values from a file position.
fn read_u64_list(data: &[u8], pos: u64, n: u64) -> (res: Result<Vec<u64>, ErffError>)
    ensures
        match parse_repeat(data@, pos as int, n as nat, u64_item()) {
            Ok((xs, _)) => res matches Ok(v) && v@ == xs,
            Err(c) => res matches Err(e) && e.case() == c,
        },
{
    let ghost s = data@;
    let mut out: Vec<u64> = Vec::new();
    let mut p = pos;
    let mut i: u64 = 0;
    assert(out@ =~= Seq::<u64>::empty());
    while i < n
        invariant
            i <= n,
            parse_repeat(s, pos as int, i as nat, u64_item()) == Ok::<_, ErrorCase>(
                (out@, p as int),
            ),
            s == data@,
        decreases n - i,
    {
        match read_u64_at(data, p) {
            Ok((v, q)) => {
                out.push(v);
                p = q;
                i = i + 1;
            },
            Err(e) => {
                proof {
                    lemma_repeat_err_persists(s, pos as int, (i + 1) as nat, n as nat, u64_item());
                }
                return Err(e);
            },
        }
    }
    Ok(out)
}

/// The feature record at a file position, which may lie past the end.
fn deserialize_feature_at(data: &[u8], pos: u64, schema: &Schema) -> (res: Result<
    (Feature, u64),
    ErffError,
>)
    requires
        schema.geometry_columns.len() + schema.attribute_columns.len() <= usize::MAX,
    ensures
        match parse_feature(data@, pos as int, schema@) {
            Ok((f, p)) => res matches Ok((g, q)) && g@ == f && q == p,
            Err(c) => res matches Err(e) && e.case() == c,
        },
{
    if pos > data.len() as u64 {
        return Err(ErffError::Io(unexpected_eof()));
    }
    let (f, q) = deserialize_feature(data, pos as usize, schema)?;
    Ok((f, q as u64))
}

/// Whether four bytes are the magic.
fn is_magic(b: &[u8]) -> (r: bool)
    requires
        b@.len() == 4,
    ensures
        r == (b@ == magic_bytes()),
{
    let r = b[0] == MAGIC[0] && b[1] == MAGIC[1] && b[2] == MAGIC[2] && b[3] == MAGIC[3];
    assert(r ==> b@ =~= magic_bytes());
    r
}

// ── The reader ────────────────────────────────────────────────────────────

/// The loaded spatial index.
struct SpatialIndex {
    feature_indices: Vec<u64>,
    nodes: Vec<EnvelopeBits>,
    node_size: u16,
    num_items: u64,
}

/// Reads an ERFF file held in memory: sequential reads, random access by
/// feature index, and spatial queries through the packed Hilbert R-tree.
/// The offset table and the index are loaded on first use.
pub struct ErffReader {
    data: Vec<u8>,
    schema: Schema,
    feature_count: u64,
    envelope: EnvelopeBits,
    flags: u8,
    offset_table_pos: u64,
    index_pos: u64,
    data_start_pos: u64,
    feature_offsets: Option<Vec<u64>>,
    spatial_index: Option<SpatialIndex>,
}

impl View for ErffReader {
    type V = ReaderView;

    closed spec fn view(&self) -> ReaderView {
        ReaderView {
            data: self.data@,
            info: FileInfo {
                schema: self.schema@,
                feature_count: self.feature_count,
                envelope: self.envelope,
                flags: self.flags,
                offset_table_pos: self.offset_table_pos,
                index_pos: self.index_pos,
                data_start_pos: self.data_start_pos,
            },
        }
    }
}

impl ErffReader {
    /// The fields are what the file says, and whatever has been loaded is
    /// what the file holds.
    pub closed spec fn wf(&self) -> bool {
        &&& parse_open(self.data@) == Ok::<_, ErrorCase>(self@.info)
        &&& self.schema.geometry_columns.len() <= u16::MAX
        &&& self.schema.attribute_columns.len() <= u16::MAX
        &&& (self.feature_offsets matches Some(v) ==> offsets_spec(self@) == Ok::<_, ErrorCase>(
            v@,
        ))
        &&& (self.spatial_index matches Some(idx) ==> {
            &&& index_spec(self@) == Ok::<_, ErrorCase>(
                (idx.feature_indices@, idx.nodes@, idx.node_size, idx.num_items),
            )
            &&& (idx.num_items <= 1 || idx.node_size >= 2)
            &&& idx.feature_indices@.len() == idx.num_items
            &&& idx.nodes@.len() == total_nodes(idx.num_items, idx.node_size as u64)
        })
    }

    /// The spatial index has been loaded.
    pub closed spec fn index_loaded(&self) -> bool {
        self.spatial_index is Some
    }

    /// The offset table has been loaded.
    pub closed spec fn offsets_loaded(&self) -> bool {
        self.feature_offsets is Some
    }

    /// Open a file from its bytes: check the magic and version, read the
    /// header and the schema, then the footer.
    pub fn open(data: Vec<u8>) -> (res: Result<ErffReader, ErffError>)
        ensures
            match parse_open(data@) {
                Ok(info) => res matches Ok(r) && r.wf() && r@ == (ReaderView { data: data@, info }),
                Err(c) => res matches Err(e) && e.case() == c,
            },
    {
        let (magic, _) = read_slice(data.as_slice(), 0, 4)?;
        if !is_magic(magic) {
            return Err(ErffError::InvalidMagic);
        }
        let (major, _) = read_u8(data.as_slice(), 4)?;
        let (minor, _) = read_u8(data.as_slice(), 5)?;
        if major != VERSION_MAJOR {
            return Err(ErffError::UnsupportedVersion { major, minor });
        }
        let (flags, _) = read_u8(data.as_slice(), 6)?;
        let (_reserved, _) = read_u8(data.as_slice(), 7)?;
        let (feature_count, _) = read_u64(data.as_slice(), 8)?;
        let (envelope, _) = read_envelope(data.as_slice(), 16)?;
        let (schema_size, _) = read_u32(data.as_slice(), 48)?;

        // The schema follows the 64-byte header.
        let (schema, _) = deserialize_schema(data.as_slice(), 64)?;
        let data_start_pos = HEADER_SIZE + schema_size as u64;

        // The footer is the last 32 bytes.
        if data.len() < 32 {
            return Err(ErffError::Io(invalid_input()));
        }
        let f = data.len() - 32;
        let (offset_table_pos, _) = read_u64(data.as_slice(), f)?;
        let (index_pos, _) = read_u64(data.as_slice(), f + 8)?;
        let (_footer_data_start, _) = read_u64(data.as_slice(), f + 16)?;
        let (footer_magic, _) = read_slice(data.as_slice(), f + 24, 4)?;
        if !is_magic(footer_magic) {
            return Err(ErffError::InvalidMagic);
        }
        proof {
            lemma_schema_counts(data@, 64);
        }
        Ok(ErffReader {
            data,
            schema,
            feature_count,
            envelope,
            flags,
            offset_table_pos,
            index_pos,
            data_start_pos,
            feature_offsets: None,
            spatial_index: None,
        })
    }

    pub fn schema(&self) -> (s: &Schema)
        ensures
            s@ == self@.info.schema,
    {
        &self.schema
    }

    pub fn feature_count(&self) -> (n: u64)
        ensures
            n == self@.info.feature_count,
    {
        self.feature_count
    }

    pub fn envelope(&self) -> (e: &EnvelopeBits)
        ensures
            *e == self@.info.envelope,
    {
        &self.envelope
    }

    /// Load the feature offset table (for random access).
    pub fn ensure_offsets(&mut self) -> (res: Result<(), ErffError>)
        requires
            old(self).wf(),
        ensures
            final(self).wf(),
            final(self)@ == old(self)@,
            final(self).index_loaded() == old(self).index_loaded(),
            match offsets_spec(old(self)@) {
                Ok(_) => res is Ok && final(self).offsets_loaded(),
                Err(c) => res matches Err(e) && e.case() == c,
            },
    {
        if self.feature_offsets.is_some() {
            return Ok(());
        }
        let offsets = read_u64_list(self.data.as_slice(), self.offset_table_pos, self.feature_count)?;
        self.feature_offsets = Some(offsets);
        Ok(())
    }
}

impl ErffReader {
    /// Whether the spatial index can be loaded: there is none, or its node
    /// size lets a tree be built for its item count, or it cannot be read
    /// far enough to tell. Loading one that fails this would not end.
    pub fn index_is_readable(&self) -> (r: bool)
        requires
            self.wf(),
        ensures
            r == index_readable(self@),
    {
        if self.flags & FLAG_HAS_SPATIAL_INDEX == 0 {
            return true;
        }
        if self.index_pos > self.data.len() as u64 {
            return true;
        }
        index_section_readable(self.data.as_slice(), self.index_pos as usize)
    }

    /// Load the spatial index.
    pub fn ensure_index(&mut self) -> (res: Result<(), ErffError>)
        requires
            old(self).wf(),
            index_readable(old(self)@),
        ensures
            final(self).wf(),
            final(self)@ == old(self)@,
            match index_spec(old(self)@) {
                Ok(_) => res is Ok && final(self).index_loaded(),
                Err(c) => res matches Err(e) && e.case() == c,
            },
    {
        if self.spatial_index.is_some() {
            return Ok(());
        }
        if self.flags & FLAG_HAS_SPATIAL_INDEX == 0 {
            return Err(ErffError::NoSpatialIndex);
        }
        let ghost s = self.data@;
        if self.index_pos > self.data.len() as u64 {
            return Err(ErffError::Io(unexpected_eof()));
        }
        let (feature_indices, nodes, node_size, num_items) = read_index(
            self.data.as_slice(),
            self.index_pos as usize,
        )?;
        proof {
            lemma_index_shape(s, self.index_pos as int);
        }
        self.spatial_index = Some(SpatialIndex { feature_indices, nodes, node_size, num_items });
        Ok(())
    }

    /// The boxes of the nodes of the loaded index, items first, then each
    /// level up to the root.
    pub fn index_nodes(&self) -> (r: Option<&[EnvelopeBits]>)
        requires
            self.wf(),
        ensures
            r matches Some(nodes) ==> index_spec(self@) matches Ok((_, ns, _, _)) && nodes@ == ns,
            r is Some <==> self.index_loaded(),
    {
        match &self.spatial_index {
            Some(idx) => Some(idx.nodes.as_slice()),
            None => None,
        }
    }

    /// Read a single feature by index (0-based).
    pub fn read_feature(&mut self, index: u64) -> (res: Result<Feature, ErffError>)
        requires
            old(self).wf(),
        ensures
            final(self).wf(),
            final(self)@ == old(self)@,
            match read_feature_spec(old(self)@, index) {
                Ok(f) => res matches Ok(g) && g@ == f,
                Err(c) => res matches Err(e) && e.case() == c,
            },
    {
        if index >= self.feature_count {
            return Err(ErffError::FeatureOutOfRange(index, self.feature_count));
        }
        self.ensure_offsets()?;
        proof {
            lemma_repeat_len(
                self.data@,
                self.offset_table_pos as int,
                self.feature_count as nat,
                u64_item(),
            );
        }
        let offset = match &self.feature_offsets {
            Some(offs) => {
                let n = offs.len();
                assert(index < n);
                offs[index as usize]
            },
            None => {
                assert(false);
                0
            },
        };
        assert(offset == (offsets_spec(self@)->Ok_0)[index as int]);
        let (f, _) = deserialize_feature_at(self.data.as_slice(), offset, &self.schema)?;
        Ok(f)
    }

    /// All features, read one after the other.
    pub fn features(&mut self) -> (res: Result<Vec<Feature>, ErffError>)
        requires
            old(self).wf(),
        ensures
            final(self).wf(),
            final(self)@ == old(self)@,
            match features_spec(old(self)@) {
                Ok(fs) => res matches Ok(r) && features_view(r@) == fs,
                Err(c) => res matches Err(e) && e.case() == c,
            },
    {
        let ghost s = self.data@;
        let ghost sv = self.schema@;
        let mut features: Vec<Feature> = Vec::new();
        let mut p = self.data_start_pos;
        let mut i: u64 = 0;
        assert(features_view(features@) =~= Seq::<FeatureView>::empty());
        while i < self.feature_count
            invariant
                self.wf(),
                s == self.data@,
                sv == self.schema@,
                i <= self.feature_count,
                parse_repeat(s, self.data_start_pos as int, i as nat, feature_item(sv))
                    == Ok::<_, ErrorCase>((features_view(features@), p as int)),
            decreases self.feature_count - i,
        {
            let ghost before = features_view(features@);
            match deserialize_feature_at(self.data.as_slice(), p, &self.schema) {
                Ok((f, q)) => {
                    assert(feature_item(sv)(s, p as int) == parse_feature(s, p as int, sv));
                    features.push(f);
                    assert(features_view(features@) =~= before.push(f@));
                    p = q;
                    i = i + 1;
                },
                Err(e) => {
                    proof {
                        lemma_repeat_err_persists(
                            s,
                            self.data_start_pos as int,
                            (i + 1) as nat,
                            self.feature_count as nat,
                            feature_item(sv),
                        );
                    }
                    return Err(e);
                },
            }
        }
        Ok(features)
    }

    /// Spatial query: the feature indices that the search of the index
    /// finds, where `node_hits[j]` says whether the box of node `j` of the
    /// index meets the query envelope.
    pub fn query_indices(&mut self, node_hits: &[bool]) -> (res: Result<Vec<u64>, ErffError>)
        requires
            old(self).wf(),
            index_readable(old(self)@),
            hits_cover_index(old(self)@, node_hits@),
        ensures
            final(self).wf(),
            final(self)@ == old(self)@,
            match query_indices_spec(old(self)@, node_hits@) {
                Ok(r) => res matches Ok(v) && v@ == r,
                Err(c) => res matches Err(e) && e.case() == c,
            },
    {
        self.ensure_index()?;
        match &self.spatial_index {
            Some(idx) => Ok(
                search_index(node_hits, idx.feature_indices.as_slice(), idx.num_items, idx.node_size),
            ),
            None => {
                assert(false);
                Err(ErffError::NoSpatialIndex)
            },
        }
    }

    /// Spatial query: the features that the search of the index finds, in
    /// the order it finds them, where `node_hits[j]` says whether the box
    /// of node `j` of the index meets the query envelope. Every index found
    /// must lie within the offset table, as it does in a well-formed file.
    pub fn query(&mut self, node_hits: &[bool]) -> (res: Result<Vec<Feature>, ErffError>)
        requires
            old(self).wf(),
            index_readable(old(self)@),
            hits_cover_index(old(self)@, node_hits@),
            query_spec(old(self)@, node_hits@) is Some,
        ensures
            final(self).wf(),
            final(self)@ == old(self)@,
            res matches Ok(r) ==> query_spec(old(self)@, node_hits@) == Some(
                Ok::<_, ErrorCase>(features_view(r@)),
            ),
            res matches Err(e) ==> query_spec(old(self)@, node_hits@) == Some(
                Err::<Seq<FeatureView>, _>(e.case()),
            ),
    {
        let ghost v = self@;
        self.ensure_index()?;
        self.ensure_offsets()?;
        let matching = match &self.spatial_index {
            Some(idx) => search_index(
                node_hits,
                idx.feature_indices.as_slice(),
                idx.num_items,
                idx.node_size,
            ),
            None => {
                assert(false);
                Vec::new()
            },
        };
        let offsets = match &self.feature_offsets {
            Some(offs) => offs,
            None => {
                assert(false);
                return Err(ErffError::NoSpatialIndex);
            },
        };
        let ghost s = self.data@;
        let ghost sv = self.schema@;
        let ghost offs = offsets@;
        let mut features: Vec<Feature> = Vec::new();
        let mut k: usize = 0;
        assert(query_spec(old(self)@, node_hits@) == fetch_features(s, offs, matching@, sv));
        assert(features_view(features@) =~= Seq::<FeatureView>::empty());
        assert(matching@.take(0) =~= Seq::<u64>::empty());
        while k < matching.len()
            invariant
                k <= matching.len(),
                self.wf(),
                self@ == v,
                v == old(self)@,
                s == self.data@,
                sv == self.schema@,
                offs == offsets@,
                fetch_features(s, offs, matching@, sv) is Some,
                query_spec(old(self)@, node_hits@) == fetch_features(s, offs, matching@, sv),
                fetch_features(s, offs, matching@.take(k as int), sv) == Some(
                    Ok::<_, ErrorCase>(features_view(features@)),
                ),
            decreases matching.len() - k,
        {
            proof {
                lemma_fetch_prefix(s, offs, matching@, (k + 1) as nat, sv);
                assert(matching@.take(k + 1).drop_last() =~= matching@.take(k as int));
            }
            let feat_idx = matching[k];
            let n_offsets = offsets.len();
            assert(feat_idx < n_offsets);
            let offset = offsets[feat_idx as usize];
            let ghost before = features_view(features@);
            let ghost t = matching@.take(k + 1);
            assert(t.last() == feat_idx);
            match deserialize_feature_at(self.data.as_slice(), offset, &self.schema) {
                Ok((f, _)) => {
                    features.push(f);
                    assert(features_view(features@) =~= before.push(f@));
                    k = k + 1;
                },
                Err(e) => {
                    proof {
                        assert(fetch_features(s, offs, t, sv) == Some(
                            Err::<Seq<FeatureView>, _>(e.case()),
                        ));
                        lemma_fetch_err_persists(s, offs, matching@, (k + 1) as nat, sv);
                        assert(matching@.take(matching@.len() as int) =~= matching@);
                    }
                    return Err(e);
                },
            }
        }
        assert(matching@.take(k as int) =~= matching@);
        Ok(features)
    }
}

/// Where the whole list is fetched, so is each prefix of it, and the
/// index that a longer prefix adds lies within the table.
proof fn lemma_fetch_prefix(
    s: Seq<u8>,
    offs: Seq<u64>,
    idxs: Seq<u64>,
    k: nat,
    sv: SchemaView,
)
    requires
        1 <= k <= idxs.len(),
        fetch_features(s, offs, idxs, sv) is Some,
        fetch_features(s, offs, idxs.take(k - 1), sv) matches Some(Ok(_)),
    ensures
        idxs[k - 1] < offs.len(),
    decreases idxs.len() - k,
{
    let t = idxs.take(k as int);
    assert(t.drop_last() =~= idxs.take(k - 1));
    if k == idxs.len() {
        assert(t =~= idxs);
    } else {
        lemma_fetch_some_prefix(s, offs, idxs, k, sv);
    }
}

/// A list is fetched whenever a longer list beginning with it is.
proof fn lemma_fetch_some_prefix(
    s: Seq<u8>,
    offs: Seq<u64>,
    idxs: Seq<u64>,
    k: nat,
    sv: SchemaView,
)
    requires
        k <= idxs.len(),
        fetch_features(s, offs, idxs, sv) is Some,
    ensures
        fetch_features(s, offs, idxs.take(k as int), sv) is Some,
    decreases idxs.len() - k,
{
    if k < idxs.len() {
        lemma_fetch_some_prefix(s, offs, idxs, k + 1, sv);
        let t = idxs.take((k + 1) as int);
        assert(t.drop_last() =~= idxs.take(k as int));
    } else {
        assert(idxs.take(k as int) =~= idxs);
    }
}

/// Once a fetch fails, fetching more fails the same way.
proof fn lemma_fetch_err_persists(
    s: Seq<u8>,
    offs: Seq<u64>,
    idxs: Seq<u64>,
    k: nat,
    sv: SchemaView,
)
    requires
        k <= idxs.len(),
        fetch_features(s, offs, idxs.take(k as int), sv) matches Some(Err(_)),
    ensures
        fetch_features(s, offs, idxs, sv) == fetch_features(s, offs, idxs.take(k as int), sv),
    decreases idxs.len() - k,
{
    if k < idxs.len() {
        let t = idxs.take((k + 1) as int);
        assert(t.drop_last() =~= idxs.take(k as int));
        lemma_fetch_err_persists(s, offs, idxs, k + 1, sv);
    } else {
        assert(idxs.take(k as int) =~= idxs);
    }
}

/// The lists of an index section that reads have the lengths its counts
/// give, and its node size lets a tree be built when the section says so.
proof fn lemma_index_shape(s: Seq<u8>, pos: int)
    ensures
        parse_index(s, pos) matches Ok(((fi, nodes, ns, n), _)) ==> {
            &&& fi.len() == n
            &&& nodes.len() == total_nodes(n, ns as u64)
            &&& (index_node_size_ok(s, pos) ==> n <= 1 || ns >= 2)
        },
{
    if let Ok((ns, p1)) = parse_u16(s, pos) {
        if let Ok((n, p2)) = parse_u64(s, p1) {
            lemma_repeat_len(s, p2, n as nat, u64_item());
            if let Ok((fi, p3)) = parse_repeat(s, p2, n as nat, u64_item()) {
                crate::index::lemma_sum_nonneg(crate::index::level_sizes_spec(n, ns as u64));
                let total = total_nodes(n, ns as u64) as nat;
                lemma_repeat_len(s, p3, total, crate::index::envelope_item());
                assert(index_node_size_ok(s, pos) ==> n <= 1 || ns >= 2);
                if let Ok((nodes, p4)) = parse_repeat(s, p3, total, crate::index::envelope_item()) {
                    assert(parse_index(s, pos) == Ok::<_, ErrorCase>(((fi, nodes, ns, n), p4)));
                }
            }
        }
    }
}

/// A schema section that reads has at most 2^16 - 1 columns of each kind.
proof fn lemma_schema_counts(s: Seq<u8>, pos: int)
    ensures
        parse_schema(s, pos) matches Ok((sv, _)) ==> sv.geometry_columns.len() <= u16::MAX
            && sv.attribute_columns.len() <= u16::MAX,
{
    if let Ok((crs, p1)) = parse_string_u32(s, pos) {
        if let Ok((ng, p2)) = parse_u16(s, p1) {
            lemma_repeat_len(s, p2, ng as nat, geometry_column_item());
            if let Ok((_, p3)) = parse_repeat(s, p2, ng as nat, geometry_column_item()) {
                if let Ok((na, p4)) = parse_u16(s, p3) {
                    lemma_repeat_len(s, p4, na as nat, attribute_column_item());
                }
            }
        }
    }
}

} // verus!
