//! Core types of the format: the column type enumerations, the schema, the
//! attribute values and features, and the file-level constants.

use crate::error::{ErffError, ErrorCase};
use vstd::prelude::*;

verus! {

/// Axis-aligned bounding box, each coordinate held as the IEEE-754 bit
/// pattern of its `f64` (as `f64::to_bits` gives it).
#[derive(Debug, Clone, Copy, PartialEq, Eq, Structural)]
pub struct EnvelopeBits {
    pub min_x: u64,
    pub min_y: u64,
    pub max_x: u64,
    pub max_y: u64,
}

/// Bit pattern of `f64::INFINITY`.
pub const F64_INFINITY_BITS: u64 = 0x7ff0_0000_0000_0000;

/// Bit pattern of `f64::NEG_INFINITY`.
pub const F64_NEG_INFINITY_BITS: u64 = 0xfff0_0000_0000_0000;

impl View for EnvelopeBits {
    type V = EnvelopeBits;

    open spec fn view(&self) -> EnvelopeBits {
        *self
    }
}

/// The empty envelope: minima at +infinity, maxima at -infinity.
pub open spec fn empty_envelope() -> EnvelopeBits {
    EnvelopeBits {
        min_x: F64_INFINITY_BITS,
        min_y: F64_INFINITY_BITS,
        max_x: F64_NEG_INFINITY_BITS,
        max_y: F64_NEG_INFINITY_BITS,
    }
}

impl EnvelopeBits {
    /// The empty envelope: minima at +infinity, maxima at -infinity.
    pub fn empty() -> (e: EnvelopeBits)
        ensures
            e == empty_envelope(),
    {
        EnvelopeBits {
            min_x: F64_INFINITY_BITS,
            min_y: F64_INFINITY_BITS,
            max_x: F64_NEG_INFINITY_BITS,
            max_y: F64_NEG_INFINITY_BITS,
        }
    }
}

/// Geometry type enumeration.
#[derive(Debug, Clone, Copy, PartialEq, Eq, Structural)]
pub enum GeometryType {
    Unknown,
    Point,
    LineString,
    Polygon,
    MultiPoint,
    MultiLineString,
    MultiPolygon,
    GeometryCollection,
}

impl GeometryType {
    /// The code of this type in the file.
    pub open spec fn code(self) -> u8 {
        match self {
            GeometryType::Unknown => 0,
            GeometryType::Point => 1,
            GeometryType::LineString => 2,
            GeometryType::Polygon => 3,
            GeometryType::MultiPoint => 4,
            GeometryType::MultiLineString => 5,
            GeometryType::MultiPolygon => 6,
            GeometryType::GeometryCollection => 7,
        }
    }

    /// The type with the given code, if any.
    pub open spec fn of_code(v: u8) -> Option<GeometryType> {
        if v == 0 {
            Some(GeometryType::Unknown)
        } else if v == 1 {
            Some(GeometryType::Point)
        } else if v == 2 {
            Some(GeometryType::LineString)
        } else if v == 3 {
            Some(GeometryType::Polygon)
        } else if v == 4 {
            Some(GeometryType::MultiPoint)
        } else if v == 5 {
            Some(GeometryType::MultiLineString)
        } else if v == 6 {
            Some(GeometryType::MultiPolygon)
        } else if v == 7 {
            Some(GeometryType::GeometryCollection)
        } else {
            None
        }
    }

    /// Decode a geometry type code; codes above 7 are rejected.
    pub fn from_u8(v: u8) -> (res: Result<GeometryType, ErffError>)
        ensures
            match GeometryType::of_code(v) {
                Some(t) => res matches Ok(r) && r == t,
                None => res matches Err(e) && e.case() == ErrorCase::InvalidGeometryType(v),
            },
    {
        match v {
            0 => Ok(GeometryType::Unknown),
            1 => Ok(GeometryType::Point),
            2 => Ok(GeometryType::LineString),
            3 => Ok(GeometryType::Polygon),
            4 => Ok(GeometryType::MultiPoint),
            5 => Ok(GeometryType::MultiLineString),
            6 => Ok(GeometryType::MultiPolygon),
            7 => Ok(GeometryType::GeometryCollection),
            _ => Err(ErffError::InvalidGeometryType(v)),
        }
    }

    /// The code of this type in the file.
    pub fn to_u8(self) -> (v: u8)
        ensures
            v == self.code(),
    {
        match self {
            GeometryType::Unknown => 0,
            GeometryType::Point => 1,
            GeometryType::LineString => 2,
            GeometryType::Polygon => 3,
            GeometryType::MultiPoint => 4,
            GeometryType::MultiLineString => 5,
            GeometryType::MultiPolygon => 6,
            GeometryType::GeometryCollection => 7,
        }
    }
}

/// Coordinate dimensionality.
#[derive(Debug, Clone, Copy, PartialEq, Eq, Structural)]
pub enum CoordType {
    XY,
    XYZ,
    XYM,
    XYZM,
}

impl CoordType {
    /// The code of this coordinate type in the file.
    pub open spec fn code(self) -> u8 {
        match self {
            CoordType::XY => 0,
            CoordType::XYZ => 1,
            CoordType::XYM => 2,
            CoordType::XYZM => 3,
        }
    }

    /// The coordinate type with the given code, if any.
    pub open spec fn of_code(v: u8) -> Option<CoordType> {
        if v == 0 {
            Some(CoordType::XY)
        } else if v == 1 {
            Some(CoordType::XYZ)
        } else if v == 2 {
            Some(CoordType::XYM)
        } else if v == 3 {
            Some(CoordType::XYZM)
        } else {
            None
        }
    }

    /// Decode a coordinate type code; codes above 3 are rejected.
    pub fn from_u8(v: u8) -> (res: Result<CoordType, ErffError>)
        ensures
            match CoordType::of_code(v) {
                Some(t) => res matches Ok(r) && r == t,
                None => res matches Err(e) && e.case() == ErrorCase::InvalidCoordType(v),
            },
    {
        match v {
            0 => Ok(CoordType::XY),
            1 => Ok(CoordType::XYZ),
            2 => Ok(CoordType::XYM),
            3 => Ok(CoordType::XYZM),
            _ => Err(ErffError::InvalidCoordType(v)),
        }
    }

    /// The code of this coordinate type in the file.
    pub fn to_u8(self) -> (v: u8)
        ensures
            v == self.code(),
    {
        match self {
            CoordType::XY => 0,
            CoordType::XYZ => 1,
            CoordType::XYM => 2,
            CoordType::XYZM => 3,
        }
    }
}

/// Attribute column data type.
#[derive(Debug, Clone, Copy, PartialEq, Eq, Structural)]
pub enum ColumnType {
    Bool,
    Int8,
    UInt8,
    Int16,
    UInt16,
    Int32,
    UInt32,
    Int64,
    UInt64,
    Float32,
    Float64,
    String,
    Binary,
    Date,
    DateTime,
    Json,
}

impl ColumnType {
    /// The code of this column type in the file.
    pub open spec fn code(self) -> u8 {
        match self {
            ColumnType::Bool => 0,
            ColumnType::Int8 => 1,
            ColumnType::UInt8 => 2,
            ColumnType::Int16 => 3,
            ColumnType::UInt16 => 4,
            ColumnType::Int32 => 5,
            ColumnType::UInt32 => 6,
            ColumnType::Int64 => 7,
            ColumnType::UInt64 => 8,
            ColumnType::Float32 => 9,
            ColumnType::Float64 => 10,
            ColumnType::String => 11,
            ColumnType::Binary => 12,
            ColumnType::Date => 13,
            ColumnType::DateTime => 14,
            ColumnType::Json => 15,
        }
    }

    /// The column type with the given code, if any.
    pub open spec fn of_code(v: u8) -> Option<ColumnType> {
        if v == 0 {
            Some(ColumnType::Bool)
        } else if v == 1 {
            Some(ColumnType::Int8)
        } else if v == 2 {
            Some(ColumnType::UInt8)
        } else if v == 3 {
            Some(ColumnType::Int16)
        } else if v == 4 {
            Some(ColumnType::UInt16)
        } else if v == 5 {
            Some(ColumnType::Int32)
        } else if v == 6 {
            Some(ColumnType::UInt32)
        } else if v == 7 {
            Some(ColumnType::Int64)
        } else if v == 8 {
            Some(ColumnType::UInt64)
        } else if v == 9 {
            Some(ColumnType::Float32)
        } else if v == 10 {
            Some(ColumnType::Float64)
        } else if v == 11 {
            Some(ColumnType::String)
        } else if v == 12 {
            Some(ColumnType::Binary)
        } else if v == 13 {
            Some(ColumnType::Date)
        } else if v == 14 {
            Some(ColumnType::DateTime)
        } else if v == 15 {
            Some(ColumnType::Json)
        } else {
            None
        }
    }

    /// Decode a column type code; codes above 15 are rejected.
    pub fn from_u8(v: u8) -> (res: Result<ColumnType, ErffError>)
        ensures
            match ColumnType::of_code(v) {
                Some(t) => res matches Ok(r) && r == t,
                None => res matches Err(e) && e.case() == ErrorCase::InvalidColumnType(v),
            },
    {
        match v {
            0 => Ok(ColumnType::Bool),
            1 => Ok(ColumnType::Int8),
            2 => Ok(ColumnType::UInt8),
            3 => Ok(ColumnType::Int16),
            4 => Ok(ColumnType::UInt16),
            5 => Ok(ColumnType::Int32),
            6 => Ok(ColumnType::UInt32),
            7 => Ok(ColumnType::Int64),
            8 => Ok(ColumnType::UInt64),
            9 => Ok(ColumnType::Float32),
            10 => Ok(ColumnType::Float64),
            11 => Ok(ColumnType::String),
            12 => Ok(ColumnType::Binary),
            13 => Ok(ColumnType::Date),
            14 => Ok(ColumnType::DateTime),
            15 => Ok(ColumnType::Json),
            _ => Err(ErffError::InvalidColumnType(v)),
        }
    }

    /// The code of this column type in the file.
    pub fn to_u8(self) -> (v: u8)
        ensures
            v == self.code(),
    {
        match self {
            ColumnType::Bool => 0,
            ColumnType::Int8 => 1,
            ColumnType::UInt8 => 2,
            ColumnType::Int16 => 3,
            ColumnType::UInt16 => 4,
            ColumnType::Int32 => 5,
            ColumnType::UInt32 => 6,
            ColumnType::Int64 => 7,
            ColumnType::UInt64 => 8,
            ColumnType::Float32 => 9,
            ColumnType::Float64 => 10,
            ColumnType::String => 11,
            ColumnType::Binary => 12,
            ColumnType::Date => 13,
            ColumnType::DateTime => 14,
            ColumnType::Json => 15,
        }
    }

    /// The number of bytes a value of this type takes, or `None` for the
    /// variable-length types.
    pub open spec fn spec_fixed_size(self) -> Option<usize> {
        match self {
            ColumnType::Bool | ColumnType::Int8 | ColumnType::UInt8 => Some(1),
            ColumnType::Int16 | ColumnType::UInt16 => Some(2),
            ColumnType::Int32 | ColumnType::UInt32 | ColumnType::Float32 | ColumnType::Date => Some(
                4,
            ),
            ColumnType::Int64 | ColumnType::UInt64 | ColumnType::Float64
            | ColumnType::DateTime => Some(8),
            ColumnType::String | ColumnType::Binary | ColumnType::Json => None,
        }
    }

    /// Returns the fixed byte size, or None for variable-length types.
    pub fn fixed_size(&self) -> (r: Option<usize>)
        ensures
            r == self.spec_fixed_size(),
    {
        match self {
            ColumnType::Bool | ColumnType::Int8 | ColumnType::UInt8 => Some(1),
            ColumnType::Int16 | ColumnType::UInt16 => Some(2),
            ColumnType::Int32 | ColumnType::UInt32 | ColumnType::Float32 | ColumnType::Date => Some(
                4,
            ),
            ColumnType::Int64 | ColumnType::UInt64 | ColumnType::Float64
            | ColumnType::DateTime => Some(8),
            ColumnType::String | ColumnType::Binary | ColumnType::Json => None,
        }
    }
}

/// Definition of a geometry column.
#[derive(Debug, Clone)]
pub struct GeometryColumnDef {
    pub name: String,
    pub geom_type: GeometryType,
    pub coord_type: CoordType,
}

/// A geometry column as contracts see it.
pub struct GeometryColumnView {
    pub name: Seq<char>,
    pub geom_type: GeometryType,
    pub coord_type: CoordType,
}

impl View for GeometryColumnDef {
    type V = GeometryColumnView;

    open spec fn view(&self) -> GeometryColumnView {
        GeometryColumnView { name: self.name@, geom_type: self.geom_type, coord_type: self.coord_type }
    }
}

/// Definition of an attribute column.
#[derive(Debug, Clone)]
pub struct AttributeColumnDef {
    pub name: String,
    pub col_type: ColumnType,
    pub nullable: bool,
}

/// An attribute column as contracts see it.
pub struct AttributeColumnView {
    pub name: Seq<char>,
    pub col_type: ColumnType,
    pub nullable: bool,
}

impl View for AttributeColumnDef {
    type V = AttributeColumnView;

    open spec fn view(&self) -> AttributeColumnView {
        AttributeColumnView { name: self.name@, col_type: self.col_type, nullable: self.nullable }
    }
}

/// Dataset schema: CRS, columns, and metadata.
#[derive(Debug, Clone)]
pub struct Schema {
    /// CRS as a PROJJSON string (empty string if unspecified).
    pub crs: String,
    pub geometry_columns: Vec<GeometryColumnDef>,
    pub attribute_columns: Vec<AttributeColumnDef>,
    /// Arbitrary key-value metadata.
    pub metadata: Vec<(String, String)>,
}

/// A schema as contracts see it.
pub struct SchemaView {
    pub crs: Seq<char>,
    pub geometry_columns: Seq<GeometryColumnView>,
    pub attribute_columns: Seq<AttributeColumnView>,
    pub metadata: Seq<(Seq<char>, Seq<char>)>,
}

impl View for Schema {
    type V = SchemaView;

    open spec fn view(&self) -> SchemaView {
        SchemaView {
            crs: self.crs@,
            geometry_columns: self.geometry_columns@.map_values(|c: GeometryColumnDef| c@),
            attribute_columns: self.attribute_columns@.map_values(|c: AttributeColumnDef| c@),
            metadata: self.metadata@.map_values(|kv: (String, String)| (kv.0@, kv.1@)),
        }
    }
}

impl SchemaView {
    /// Number of columns, geometry columns first.
    pub open spec fn total_columns(self) -> nat {
        self.geometry_columns.len() + self.attribute_columns.len()
    }

    /// Bytes of the null bitmap: one bit per column, rounded up.
    pub open spec fn null_bitmap_bytes(self) -> nat {
        ((self.total_columns() + 7) / 8) as nat
    }
}

impl Schema {
    /// Number of columns, geometry columns first.
    pub fn total_columns(&self) -> (n: usize)
        requires
            self.geometry_columns.len() + self.attribute_columns.len() <= usize::MAX,
        ensures
            n == self@.total_columns(),
    {
        self.geometry_columns.len() + self.attribute_columns.len()
    }

    /// Bytes of the null bitmap: one bit per column, rounded up.
    pub fn null_bitmap_bytes(&self) -> (n: usize)
        requires
            self.geometry_columns.len() + self.attribute_columns.len() <= usize::MAX,
        ensures
            n == self@.null_bitmap_bytes(),
    {
        let t = self.total_columns();
        if t % 8 == 0 {
            t / 8
        } else {
            t / 8 + 1
        }
    }
}

/// A typed attribute value. Floating-point values are held as the bit
/// patterns of their IEEE-754 encodings (`f32::to_bits`, `f64::to_bits`).
#[derive(Debug, Clone, PartialEq)]
pub enum Value {
    Null,
    Bool(bool),
    Int8(i8),
    UInt8(u8),
    Int16(i16),
    UInt16(u16),
    Int32(i32),
    UInt32(u32),
    Int64(i64),
    UInt64(u64),
    Float32(u32),
    Float64(u64),
    String(String),
    Binary(Vec<u8>),
    /// Days since Unix epoch.
    Date(i32),
    /// Milliseconds since Unix epoch.
    DateTime(i64),
    Json(String),
}

/// An attribute value as contracts see it.
pub enum ValueView {
    Null,
    Bool(bool),
    Int8(i8),
    UInt8(u8),
    Int16(i16),
    UInt16(u16),
    Int32(i32),
    UInt32(u32),
    Int64(i64),
    UInt64(u64),
    Float32(u32),
    Float64(u64),
    String(Seq<char>),
    Binary(Seq<u8>),
    Date(i32),
    DateTime(i64),
    Json(Seq<char>),
}

impl View for Value {
    type V = ValueView;

    open spec fn view(&self) -> ValueView {
        match self {
            Value::Null => ValueView::Null,
            Value::Bool(v) => ValueView::Bool(*v),
            Value::Int8(v) => ValueView::Int8(*v),
            Value::UInt8(v) => ValueView::UInt8(*v),
            Value::Int16(v) => ValueView::Int16(*v),
            Value::UInt16(v) => ValueView::UInt16(*v),
            Value::Int32(v) => ValueView::Int32(*v),
            Value::UInt32(v) => ValueView::UInt32(*v),
            Value::Int64(v) => ValueView::Int64(*v),
            Value::UInt64(v) => ValueView::UInt64(*v),
            Value::Float32(v) => ValueView::Float32(*v),
            Value::Float64(v) => ValueView::Float64(*v),
            Value::String(v) => ValueView::String(v@),
            Value::Binary(v) => ValueView::Binary(v@),
            Value::Date(v) => ValueView::Date(*v),
            Value::DateTime(v) => ValueView::DateTime(*v),
            Value::Json(v) => ValueView::Json(v@),
        }
    }
}

impl Value {
    /// Whether this is the null value.
    pub fn is_null(&self) -> (r: bool)
        ensures
            r <==> self@ is Null,
    {
        match self {
            Value::Null => true,
            _ => false,
        }
    }
}

/// A single feature with geometry and attribute data.
#[derive(Debug, Clone)]
pub struct Feature {
    /// One entry per geometry column in the schema. `None` = null geometry.
    pub geometries: Vec<Option<Vec<u8>>>,
    /// One entry per attribute column in the schema.
    pub attributes: Vec<Value>,
}

/// A feature as contracts see it.
pub struct FeatureView {
    pub geometries: Seq<Option<Seq<u8>>>,
    pub attributes: Seq<ValueView>,
}

/// A geometry value as contracts see it.
pub open spec fn geometry_view(g: Option<Vec<u8>>) -> Option<Seq<u8>> {
    match g {
        Some(b) => Some(b@),
        None => None,
    }
}

impl View for Feature {
    type V = FeatureView;

    open spec fn view(&self) -> FeatureView {
        FeatureView {
            geometries: self.geometries@.map_values(|g: Option<Vec<u8>>| geometry_view(g)),
            attributes: self.attributes@.map_values(|v: Value| v@),
        }
    }
}

// -- File format constants --
/// File magic, "ERFF".
pub const MAGIC: [u8; 4] = [0x45, 0x52, 0x46, 0x46];

pub const VERSION_MAJOR: u8 = 1;

pub const VERSION_MINOR: u8 = 0;

pub const HEADER_SIZE: u64 = 64;

pub const FOOTER_SIZE: u64 = 32;

pub const FLAG_HAS_SPATIAL_INDEX: u8 = 0x01;

pub const FLAG_HAS_OFFSET_TABLE: u8 = 0x02;

pub const DEFAULT_NODE_SIZE: u16 = 16;

} // verus!
