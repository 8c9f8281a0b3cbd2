//! Structure of ISO WKB and EWKB geometries, and encoders of simple ones.
//!
//! Supports ISO WKB (type + 1000/2000/3000 for Z/M/ZM) and EWKB (PostGIS
//! flag bits 0x80000000 / 0x40000000 / 0x20000000). Reading a geometry gives
//! the X/Y coordinates of every point in it, as the bit patterns of their
//! `f64` values, grouped by the simple geometry (point, linestring, polygon)
//! they belong to: everything the bounding box of the geometry is made of.

use crate::error::{agrees, unexpected_eof, ErffError, ErrorCase};
use crate::layout::{enc_repeat, enc_u32, enc_u64, enc_u8};
use crate::reader::{parse_take, parse_u8, read_slice, read_u8};
use crate::writer::{put_u32, put_u64, put_u8};
use vstd::bytes::*;
use vstd::prelude::*;
use vstd::string::StringExecFns;

verus! {

/// The coordinates in a WKB geometry: none for empty input, one list for a
/// point, linestring or polygon (all rings, in order), and the lists of all
/// the simple geometries within a multi-geometry or collection, in order.
/// Each coordinate is `(x, y)` as `f64` bit patterns.
#[derive(Debug, Clone, PartialEq)]
pub enum WkbShape {
    Empty,
    Single(Vec<(u64, u64)>),
    Collection(Vec<Vec<(u64, u64)>>),
}

/// A WKB shape as contracts see it.
pub enum WkbShapeView {
    Empty,
    Single(Seq<(u64, u64)>),
    Collection(Seq<Seq<(u64, u64)>>),
}

/// The lists of coordinates of a sequence of simple geometries.
pub open spec fn leaves_view(v: Vec<Vec<(u64, u64)>>) -> Seq<Seq<(u64, u64)>> {
    v@.map_values(|c: Vec<(u64, u64)>| c@)
}

impl View for WkbShape {
    type V = WkbShapeView;

    open spec fn view(&self) -> WkbShapeView {
        match self {
            WkbShape::Empty => WkbShapeView::Empty,
            WkbShape::Single(c) => WkbShapeView::Single(c@),
            WkbShape::Collection(ls) => WkbShapeView::Collection(leaves_view(*ls)),
        }
    }
}

/// The simple geometries read from one WKB geometry, and whether it was a
/// multi-geometry or collection.
pub struct WkbParts {
    pub leaves: Vec<Vec<(u64, u64)>>,
    pub collection: bool,
}

impl View for WkbParts {
    type V = (Seq<Seq<(u64, u64)>>, bool);

    open spec fn view(&self) -> (Seq<Seq<(u64, u64)>>, bool) {
        (leaves_view(self.leaves), self.collection)
    }
}

// ── Specification ─────────────────────────────────────────────────────────

/// A 32-bit word in the given byte order.
pub open spec fn word32(b: Seq<u8>, le: bool) -> u32 {
    if le {
        spec_u32_from_le_bytes(b)
    } else {
        spec_u32_from_le_bytes(b.reverse())
    }
}

/// A 64-bit word in the given byte order.
pub open spec fn word64(b: Seq<u8>, le: bool) -> u64 {
    if le {
        spec_u64_from_le_bytes(b)
    } else {
        spec_u64_from_le_bytes(b.reverse())
    }
}

pub open spec fn parse_word32(s: Seq<u8>, pos: int, le: bool) -> Result<(u32, int), ErrorCase> {
    match parse_take(s, pos, 4) {
        Ok((b, p)) => Ok((word32(b, le), p)),
        Err(e) => Err(e),
    }
}

pub open spec fn parse_word64(s: Seq<u8>, pos: int, le: bool) -> Result<(u64, int), ErrorCase> {
    match parse_take(s, pos, 8) {
        Ok((b, p)) => Ok((word64(b, le), p)),
        Err(e) => Err(e),
    }
}

/// Base geometry type and number of coordinate dimensions of a WKB type
/// word: EWKB when any of its flag bits is set, ISO WKB otherwise.
pub open spec fn spec_decode_geom_type(raw: u32) -> (u32, usize) {
    let z = raw & 0x8000_0000u32 != 0u32;
    let m = raw & 0x4000_0000u32 != 0u32;
    let srid = raw & 0x2000_0000u32 != 0u32;
    if z || m || srid {
        (
            raw & 0x000F_FFFFu32,
            (2 + (if z {
                1int
            } else {
                0int
            }) + (if m {
                1int
            } else {
                0int
            })) as usize,
        )
    } else {
        let modifier = raw / 1000;
        (
            raw % 1000,
            if modifier == 1 || modifier == 2 {
                3usize
            } else if modifier == 3 {
                4usize
            } else {
                2usize
            },
        )
    }
}

/// Whether the type word says an EWKB SRID follows it.
pub open spec fn has_srid(raw: u32) -> bool {
    raw & 0x2000_0000u32 != 0u32
}

/// One coordinate: X and Y, then the other dimensions, which are skipped.
pub open spec fn parse_coord(s: Seq<u8>, pos: int, le: bool, dims: usize) -> Result<
    ((u64, u64), int),
    ErrorCase,
> {
    match parse_word64(s, pos, le) {
        Ok((x, p1)) => match parse_word64(s, p1, le) {
            Ok((y, p2)) => match parse_take(s, p2, 8 * (dims - 2)) {
                Ok((_, p3)) => Ok(((x, y), p3)),
                Err(e) => Err(e),
            },
            Err(e) => Err(e),
        },
        Err(e) => Err(e),
    }
}

/// `n` coordinates.
pub open spec fn parse_coords(s: Seq<u8>, pos: int, le: bool, dims: usize, n: nat) -> Result<
    (Seq<(u64, u64)>, int),
    ErrorCase,
>
    decreases n,
{
    if n == 0 {
        Ok((Seq::empty(), pos))
    } else {
        match parse_coords(s, pos, le, dims, (n - 1) as nat) {
            Ok((cs, p)) => match parse_coord(s, p, le, dims) {
                Ok((c, q)) => Ok((cs.push(c), q)),
                Err(e) => Err(e),
            },
            Err(e) => Err(e),
        }
    }
}

/// `n` rings, each a count and its coordinates; their coordinates in order.
pub open spec fn parse_rings(s: Seq<u8>, pos: int, le: bool, dims: usize, n: nat) -> Result<
    (Seq<(u64, u64)>, int),
    ErrorCase,
>
    decreases n,
{
    if n == 0 {
        Ok((Seq::empty(), pos))
    } else {
        match parse_rings(s, pos, le, dims, (n - 1) as nat) {
            Ok((cs, p)) => match parse_word32(s, p, le) {
                Ok((k, p1)) => match parse_coords(s, p1, le, dims, k as nat) {
                    Ok((ks, q)) => Ok((cs + ks, q)),
                    Err(e) => Err(e),
                },
                Err(e) => Err(e),
            },
            Err(e) => Err(e),
        }
    }
}

/// The digit character of `d < 10`.
pub open spec fn digit_char(d: nat) -> char {
    (d + 48) as char
}

/// The decimal digits of `n`, most significant first, as `Display` writes
/// an unsigned integer.
pub open spec fn decimal(n: nat) -> Seq<char>
    decreases n,
{
    if n < 10 {
        seq![digit_char(n)]
    } else {
        decimal(n / 10).push(digit_char(n % 10))
    }
}

/// Message of the error for an unknown base geometry type.
pub open spec fn unknown_geometry_type_message(base: u32) -> Seq<char> {
    "unknown geometry type "@ + decimal(base as nat)
}

/// One geometry at `pos`: byte order, type word, optional SRID, then the
/// body of its type. Gives its simple geometries' coordinates, whether it
/// is a multi-geometry or collection, and where it ends. `fuel` bounds the
/// nesting; any `fuel` above the bytes left is enough.
pub open spec fn parse_geom(s: Seq<u8>, pos: int, fuel: nat) -> Result<
    ((Seq<Seq<(u64, u64)>>, bool), int),
    ErrorCase,
>
    decreases fuel, 0nat,
{
    match parse_u8(s, pos) {
        Ok((order, p1)) => if order != 0 && order != 1 {
            Err(ErrorCase::InvalidWkb("bad byte order"@))
        } else {
            let le = order == 1;
            match parse_word32(s, p1, le) {
                Ok((raw, p2)) => match (if has_srid(raw) {
                    parse_word32(s, p2, le)
                } else {
                    Ok((0u32, p2))
                }) {
                    Ok((_, p3)) => {
                        let base = spec_decode_geom_type(raw).0;
                        let dims = spec_decode_geom_type(raw).1;
                        if base == 1 {
                            match parse_coord(s, p3, le, dims) {
                                Ok((c, q)) => Ok(((seq![seq![c]], false), q)),
                                Err(e) => Err(e),
                            }
                        } else if base == 2 {
                            match parse_word32(s, p3, le) {
                                Ok((n, p4)) => match parse_coords(s, p4, le, dims, n as nat) {
                                    Ok((cs, q)) => Ok(((seq![cs], false), q)),
                                    Err(e) => Err(e),
                                },
                                Err(e) => Err(e),
                            }
                        } else if base == 3 {
                            match parse_word32(s, p3, le) {
                                Ok((n, p4)) => match parse_rings(s, p4, le, dims, n as nat) {
                                    Ok((cs, q)) => Ok(((seq![cs], false), q)),
                                    Err(e) => Err(e),
                                },
                                Err(e) => Err(e),
                            }
                        } else if 4 <= base <= 7 {
                            match parse_word32(s, p3, le) {
                                Ok((n, p4)) => if fuel == 0 {
                                    Err(ErrorCase::Io)
                                } else {
                                    match parse_subs(s, p4, n as nat, (fuel - 1) as nat) {
                                        Ok((ls, q)) => Ok(((ls, true), q)),
                                        Err(e) => Err(e),
                                    }
                                },
                                Err(e) => Err(e),
                            }
                        } else {
                            Err(ErrorCase::InvalidWkb(unknown_geometry_type_message(base)))
                        }
                    },
                    Err(e) => Err(e),
                },
                Err(e) => Err(e),
            }
        },
        Err(e) => Err(e),
    }
}

/// `n` geometries of a multi-geometry or collection, one after the other;
/// the simple geometries of all of them, in order.
pub open spec fn parse_subs(s: Seq<u8>, pos: int, n: nat, fuel: nat) -> Result<
    (Seq<Seq<(u64, u64)>>, int),
    ErrorCase,
>
    decreases fuel, n + 1,
{
    if n == 0 {
        Ok((Seq::empty(), pos))
    } else {
        match parse_subs(s, pos, (n - 1) as nat, fuel) {
            Ok((ls, p)) => match parse_geom(s, p, fuel) {
                Ok(((ls2, _), q)) => Ok((ls + ls2, q)),
                Err(e) => Err(e),
            },
            Err(e) => Err(e),
        }
    }
}

/// A whole WKB value: empty input has no geometry; otherwise the geometry
/// at its start (bytes after it are not looked at).
pub open spec fn parse_wkb(s: Seq<u8>) -> Result<WkbShapeView, ErrorCase> {
    if s.len() == 0 {
        Ok(WkbShapeView::Empty)
    } else {
        match parse_geom(s, 0, s.len() + 1) {
            Ok(((ls, coll), _)) => Ok(
                if coll {
                    WkbShapeView::Collection(ls)
                } else {
                    WkbShapeView::Single(ls[0])
                },
            ),
            Err(e) => Err(e),
        }
    }
}

pub proof fn lemma_coords_err_persists(
    s: Seq<u8>,
    pos: int,
    le: bool,
    dims: usize,
    k: nat,
    n: nat,
)
    requires
        k <= n,
        parse_coords(s, pos, le, dims, k) is Err,
    ensures
        parse_coords(s, pos, le, dims, n) == parse_coords(s, pos, le, dims, k),
    decreases n,
{
    if n > k {
        lemma_coords_err_persists(s, pos, le, dims, k, (n - 1) as nat);
    }
}

pub proof fn lemma_rings_err_persists(s: Seq<u8>, pos: int, le: bool, dims: usize, k: nat, n: nat)
    requires
        k <= n,
        parse_rings(s, pos, le, dims, k) is Err,
    ensures
        parse_rings(s, pos, le, dims, n) == parse_rings(s, pos, le, dims, k),
    decreases n,
{
    if n > k {
        lemma_rings_err_persists(s, pos, le, dims, k, (n - 1) as nat);
    }
}

pub proof fn lemma_subs_err_persists(s: Seq<u8>, pos: int, k: nat, n: nat, fuel: nat)
    requires
        k <= n,
        parse_subs(s, pos, k, fuel) is Err,
    ensures
        parse_subs(s, pos, n, fuel) == parse_subs(s, pos, k, fuel),
    decreases n,
{
    if n > k {
        lemma_subs_err_persists(s, pos, k, (n - 1) as nat, fuel);
    }
}

// ── Reading ───────────────────────────────────────────────────────────────

/// The message of an unknown base geometry type:
/// `format!("unknown geometry type {base}")`, which writes the text and
/// then the decimal digits of `base`.
#[verifier::external_body]
fn unknown_geometry_type(base: u32) -> (m: String)
    ensures
        m@ == unknown_geometry_type_message(base),
{
    format!("unknown geometry type {base}")
}

fn read_word32(data: &[u8], pos: usize, le: bool) -> (res: Result<(u32, usize), ErffError>)
    ensures
        agrees(res, parse_word32(data@, pos as int, le)),
{
    let (b, p) = read_slice(data, pos, 4)?;
    if le {
        Ok((u32_from_le_bytes(b), p))
    } else {
        let mut r: Vec<u8> = Vec::new();
        r.push(b[3]);
        r.push(b[2]);
        r.push(b[1]);
        r.push(b[0]);
        assert(r@ =~= b@.reverse());
        Ok((u32_from_le_bytes(r.as_slice()), p))
    }
}

fn read_word64(data: &[u8], pos: usize, le: bool) -> (res: Result<(u64, usize), ErffError>)
    ensures
        agrees(res, parse_word64(data@, pos as int, le)),
{
    let (b, p) = read_slice(data, pos, 8)?;
    if le {
        Ok((u64_from_le_bytes(b), p))
    } else {
        let mut r: Vec<u8> = Vec::new();
        r.push(b[7]);
        r.push(b[6]);
        r.push(b[5]);
        r.push(b[4]);
        r.push(b[3]);
        r.push(b[2]);
        r.push(b[1]);
        r.push(b[0]);
        assert(r@ =~= b@.reverse());
        Ok((u64_from_le_bytes(r.as_slice()), p))
    }
}

/// Decode WKB geometry type into (base_type, coord_dimensions).
/// coord_dimensions: 2=XY, 3=XYZ or XYM, 4=XYZM.
pub fn decode_geom_type(raw: u32) -> (r: (u32, usize))
    ensures
        r == spec_decode_geom_type(raw),
        2 <= r.1 <= 4,
{
    // EWKB flags
    let has_z_ewkb = raw & 0x8000_0000 != 0;
    let has_m_ewkb = raw & 0x4000_0000 != 0;
    let has_srid_ewkb = raw & 0x2000_0000 != 0;

    if has_z_ewkb || has_m_ewkb || has_srid_ewkb {
        let base = raw & 0x000F_FFFF;
        let dims: usize = 2 + (if has_z_ewkb {
            1
        } else {
            0
        }) + (if has_m_ewkb {
            1
        } else {
            0
        });
        return (base, dims);
    }
    // ISO WKB

    let base = raw % 1000;
    let modifier = raw / 1000;
    let dims: usize = match modifier {
        0 => 2,
        1 => 3,  // Z
        2 => 3,  // M
        3 => 4,  // ZM
        _ => 2,
    };
    (base, dims)
}

/// Skip EWKB SRID if present.
pub fn skip_ewkb_srid(data: &[u8], pos: usize, raw_type: u32, le: bool) -> (res: Result<
    (u32, usize),
    ErffError,
>)
    ensures
        agrees(
            res,
            if has_srid(raw_type) {
                parse_word32(data@, pos as int, le)
            } else {
                Ok((0u32, pos as int))
            },
        ),
{
    if raw_type & 0x2000_0000 != 0 {
        read_word32(data, pos, le)
    } else {
        Ok((0, pos))
    }
}

/// Read a single coordinate (only X and Y are kept).
pub fn read_coord(data: &[u8], pos: usize, le: bool, dims: usize) -> (res: Result<
    ((u64, u64), usize),
    ErffError,
>)
    requires
        2 <= dims <= 4,
    ensures
        agrees(res, parse_coord(data@, pos as int, le, dims)),
{
    let (x, p1) = read_word64(data, pos, le)?;
    let (y, p2) = read_word64(data, p1, le)?;
    // Skip extra dimensions (Z, M)
    let (_, p3) = read_slice(data, p2, 8 * (dims - 2))?;
    Ok(((x, y), p3))
}

/// Read `n` coordinates, appending them to `out`.
fn read_coords(
    data: &[u8],
    pos: usize,
    le: bool,
    dims: usize,
    n: u32,
    out: &mut Vec<(u64, u64)>,
) -> (res: Result<usize, ErffError>)
    requires
        2 <= dims <= 4,
        pos <= data@.len(),
    ensures
        match parse_coords(data@, pos as int, le, dims, n as nat) {
            Ok((cs, q)) => res matches Ok(r) && r == q && final(out)@ == old(out)@ + cs && pos <= q
                <= data@.len(),
            Err(c) => res matches Err(e) && e.case() == c,
        },
{
    let ghost start = out@;
    let mut p = pos;
    let mut i: u32 = 0;
    while i < n
        invariant
            2 <= dims <= 4,
            i <= n,
            pos <= p <= data@.len(),
            match parse_coords(data@, pos as int, le, dims, i as nat) {
                Ok((cs, q)) => q == p && out@ == start + cs,
                Err(_) => false,
            },
        decreases n - i,
    {
        match read_coord(data, p, le, dims) {
            Ok((c, q)) => {
                out.push(c);
                p = q;
                i = i + 1;
                proof {
                    let cs = parse_coords(data@, pos as int, le, dims, (i - 1) as nat)->Ok_0.0;
                    assert(out@ =~= start + cs.push(c));
                }
            },
            Err(e) => {
                proof {
                    lemma_coords_err_persists(data@, pos as int, le, dims, (i + 1) as nat, n as nat);
                }
                return Err(e);
            },
        }
    }
    Ok(p)
}

/// Read `n` rings, appending the coordinates of all of them to `out`.
fn read_rings(
    data: &[u8],
    pos: usize,
    le: bool,
    dims: usize,
    n: u32,
    out: &mut Vec<(u64, u64)>,
) -> (res: Result<usize, ErffError>)
    requires
        2 <= dims <= 4,
        pos <= data@.len(),
    ensures
        match parse_rings(data@, pos as int, le, dims, n as nat) {
            Ok((cs, q)) => res matches Ok(r) && r == q && final(out)@ == old(out)@ + cs && pos <= q
                <= data@.len(),
            Err(c) => res matches Err(e) && e.case() == c,
        },
{
    let ghost start = out@;
    let mut p = pos;
    let mut i: u32 = 0;
    while i < n
        invariant
            2 <= dims <= 4,
            i <= n,
            pos <= p <= data@.len(),
            match parse_rings(data@, pos as int, le, dims, i as nat) {
                Ok((cs, q)) => q == p && out@ == start + cs,
                Err(_) => false,
            },
        decreases n - i,
    {
        let ghost before = out@;
        match read_word32(data, p, le) {
            Ok((k, p1)) => {
                match read_coords(data, p1, le, dims, k, out) {
                    Ok(q) => {
                        proof {
                            let cs = parse_rings(data@, pos as int, le, dims, i as nat)->Ok_0.0;
                            let ks = parse_coords(data@, p1 as int, le, dims, k as nat)->Ok_0.0;
                            assert(out@ =~= start + (cs + ks));
                        }
                        p = q;
                        i = i + 1;
                    },
                    Err(e) => {
                        proof {
                            lemma_rings_err_persists(
                                data@,
                                pos as int,
                                le,
                                dims,
                                (i + 1) as nat,
                                n as nat,
                            );
                        }
                        return Err(e);
                    },
                }
            },
            Err(e) => {
                proof {
                    lemma_rings_err_persists(data@, pos as int, le, dims, (i + 1) as nat, n as nat);
                }
                return Err(e);
            },
        }
    }
    Ok(p)
}

/// Read the geometry at `pos`, recursively through multi-geometries and
/// collections.
#[verifier::loop_isolation(false)]
fn extract_parts(data: &[u8], pos: usize, Ghost(fuel): Ghost<nat>) -> (res: Result<
    (WkbParts, usize),
    ErffError,
>)
    requires
        fuel + pos > data@.len(),
    ensures
        agrees(res, parse_geom(data@, pos as int, fuel)),
        res matches Ok((g, q)) ==> pos + 5 <= q <= data@.len() && (!g.collection
            ==> g.leaves.len() == 1),
    decreases fuel,
{
    let (byte_order, p1) = read_u8(data, pos)?;
    let le = match byte_order {
        0 => false,
        1 => true,
        _ => return Err(ErffError::InvalidWkb(String::from_str("bad byte order"))),
    };
    let (raw_type, p2) = read_word32(data, p1, le)?;
    let (_, p3) = skip_ewkb_srid(data, p2, raw_type, le)?;
    let (base_type, dims) = decode_geom_type(raw_type);

    let mut leaves: Vec<Vec<(u64, u64)>> = Vec::new();
    if base_type == 1 {
        // Point
        let (c, q) = read_coord(data, p3, le, dims)?;
        let mut leaf: Vec<(u64, u64)> = Vec::new();
        leaf.push(c);
        leaves.push(leaf);
        assert(leaves_view(leaves) =~= seq![seq![c]]);
        Ok((WkbParts { leaves, collection: false }, q))
    } else if base_type == 2 {
        // LineString
        let (n, p4) = read_word32(data, p3, le)?;
        let mut leaf: Vec<(u64, u64)> = Vec::new();
        let q = read_coords(data, p4, le, dims, n, &mut leaf)?;
        leaves.push(leaf);
        assert(leaves_view(leaves) =~= seq![leaf@]);
        Ok((WkbParts { leaves, collection: false }, q))
    } else if base_type == 3 {
        // Polygon
        let (n, p4) = read_word32(data, p3, le)?;
        let mut leaf: Vec<(u64, u64)> = Vec::new();
        let q = read_rings(data, p4, le, dims, n, &mut leaf)?;
        leaves.push(leaf);
        assert(leaves_view(leaves) =~= seq![leaf@]);
        Ok((WkbParts { leaves, collection: false }, q))
    } else if 4 <= base_type && base_type <= 7 {
        // Multi* and GeometryCollection: recursive
        let (n, p4) = read_word32(data, p3, le)?;
        let ghost sub_fuel = (fuel - 1) as nat;
        assert(leaves_view(leaves) =~= Seq::empty());
        let mut p = p4;
        let mut i: u32 = 0;
        while i < n
            invariant
                fuel > 0,
                sub_fuel == fuel - 1,
                fuel + pos > data@.len(),
                pos + 5 <= p4 <= p <= data@.len(),
                i <= n,
                parse_subs(data@, p4 as int, i as nat, sub_fuel) == Ok::<_, ErrorCase>(
                    (leaves_view(leaves), p as int),
                ),
            decreases n - i,
        {
            match extract_parts(data, p, Ghost(sub_fuel)) {
                Ok((sub, q)) => {
                    let ghost before = leaves_view(leaves);
                    let mut sub_leaves = sub.leaves;
                    let ghost sub_view = leaves_view(sub_leaves);
                    leaves.append(&mut sub_leaves);
                    assert(leaves_view(leaves) =~= before + sub_view);
                    p = q;
                    i = i + 1;
                },
                Err(e) => {
                    proof {
                        lemma_subs_err_persists(
                            data@,
                            p4 as int,
                            (i + 1) as nat,
                            n as nat,
                            sub_fuel,
                        );
                    }
                    return Err(e);
                },
            }
        }
        Ok((WkbParts { leaves, collection: true }, p))
    } else {
        Err(ErffError::InvalidWkb(unknown_geometry_type(base_type)))
    }
}

/// The coordinates of an ISO WKB or EWKB geometry, grouped by the simple
/// geometries they belong to: everything its 2D bounding box is made of.
pub fn wkb_shape(wkb: &[u8]) -> (res: Result<WkbShape, ErffError>)
    ensures
        match parse_wkb(wkb@) {
            Ok(v) => res matches Ok(r) && r@ == v,
            Err(c) => res matches Err(e) && e.case() == c,
        },
{
    if wkb.len() == 0 {
        return Ok(WkbShape::Empty);
    }
    let (parts, _) = extract_parts(wkb, 0, Ghost((wkb@.len() + 1) as nat))?;
    if parts.collection {
        Ok(WkbShape::Collection(parts.leaves))
    } else {
        let mut leaves = parts.leaves;
        let leaf = leaves.remove(0);
        Ok(WkbShape::Single(leaf))
    }
}

// ── Encoding ──────────────────────────────────────────────────────────────

/// An X/Y coordinate, little-endian.
pub open spec fn enc_coord(c: (u64, u64)) -> Seq<u8> {
    enc_u64(c.0) + enc_u64(c.1)
}

pub open spec fn coord_encoder() -> spec_fn((u64, u64)) -> Seq<u8> {
    |c: (u64, u64)| enc_coord(c)
}

/// A ring: its number of points (truncated to 32 bits), then the points.
pub open spec fn enc_ring(r: Seq<(u64, u64)>) -> Seq<u8> {
    enc_u32(r.len() as u32) + enc_repeat(r, coord_encoder())
}

pub open spec fn ring_encoder() -> spec_fn(Seq<(u64, u64)>) -> Seq<u8> {
    |r: Seq<(u64, u64)>| enc_ring(r)
}

/// ISO WKB of a 2D point, little-endian.
pub open spec fn point_wkb(x: u64, y: u64) -> Seq<u8> {
    enc_u8(1) + enc_u32(1) + enc_coord((x, y))
}

/// ISO WKB of a 2D linestring, little-endian; the point count is truncated
/// to 32 bits.
pub open spec fn linestring_wkb(cs: Seq<(u64, u64)>) -> Seq<u8> {
    enc_u8(1) + enc_u32(2) + enc_u32(cs.len() as u32) + enc_repeat(cs, coord_encoder())
}

/// ISO WKB of a 2D polygon, little-endian; counts are truncated to 32 bits.
pub open spec fn polygon_wkb(rings: Seq<Seq<(u64, u64)>>) -> Seq<u8> {
    enc_u8(1) + enc_u32(3) + enc_u32(rings.len() as u32) + enc_repeat(rings, ring_encoder())
}

/// A simple geometry by its coordinates: a point, a linestring, or a
/// polygon given by its rings.
pub enum SimpleGeometry {
    Point((u64, u64)),
    LineString(Seq<(u64, u64)>),
    Polygon(Seq<Seq<(u64, u64)>>),
}

/// ISO WKB of a simple geometry, little-endian.
pub open spec fn simple_wkb(g: SimpleGeometry) -> Seq<u8> {
    match g {
        SimpleGeometry::Point(c) => point_wkb(c.0, c.1),
        SimpleGeometry::LineString(cs) => linestring_wkb(cs),
        SimpleGeometry::Polygon(rings) => polygon_wkb(rings),
    }
}

pub open spec fn simple_encoder() -> spec_fn(SimpleGeometry) -> Seq<u8> {
    |g: SimpleGeometry| simple_wkb(g)
}

/// ISO WKB, little-endian, of a multi-geometry or collection (base type
/// `base`) of simple geometries; the count is truncated to 32 bits.
pub open spec fn multi_wkb(base: u32, gs: Seq<SimpleGeometry>) -> Seq<u8> {
    enc_u8(1) + enc_u32(base) + enc_u32(gs.len() as u32) + enc_repeat(gs, simple_encoder())
}

fn put_coords(buf: &mut Vec<u8>, coords: &[(u64, u64)])
    ensures
        final(buf)@ == old(buf)@ + enc_repeat(coords@, coord_encoder()),
{
    let ghost base = buf@;
    let mut i: usize = 0;
    while i < coords.len()
        invariant
            i <= coords.len(),
            buf@ == base + enc_repeat(coords@.take(i as int), coord_encoder()),
        decreases coords.len() - i,
    {
        let (x, y) = coords[i];
        put_u64(buf, x);
        put_u64(buf, y);
        proof {
            let t = coords@.take(i + 1);
            assert(t.drop_last() =~= coords@.take(i as int));
            assert(t.last() == (x, y));
        }
        i = i + 1;
        assert(buf@ =~= base + enc_repeat(coords@.take(i as int), coord_encoder()));
    }
    assert(coords@.take(i as int) =~= coords@);
}

/// Encode a 2D point as ISO WKB (little-endian); the coordinates are `f64`
/// bit patterns.
pub fn encode_point_wkb(x: u64, y: u64) -> (buf: Vec<u8>)
    ensures
        buf@ == point_wkb(x, y),
{
    let mut buf: Vec<u8> = Vec::new();
    put_u8(&mut buf, 1);  // little-endian
    put_u32(&mut buf, 1);  // Point
    put_u64(&mut buf, x);
    put_u64(&mut buf, y);
    assert(buf@ =~= point_wkb(x, y));
    buf
}

/// Encode a 2D linestring as ISO WKB (little-endian).
pub fn encode_linestring_wkb(coords: &[(u64, u64)]) -> (buf: Vec<u8>)
    ensures
        buf@ == linestring_wkb(coords@),
{
    let mut buf: Vec<u8> = Vec::new();
    put_u8(&mut buf, 1);
    put_u32(&mut buf, 2);  // LineString
    put_u32(&mut buf, coords.len() as u32);
    put_coords(&mut buf, coords);
    assert(buf@ =~= linestring_wkb(coords@));
    buf
}

/// Encode a 2D polygon as ISO WKB (little-endian). Rings are (exterior,
/// holes...).
pub fn encode_polygon_wkb(rings: &[Vec<(u64, u64)>]) -> (buf: Vec<u8>)
    ensures
        buf@ == polygon_wkb(rings@.map_values(|r: Vec<(u64, u64)>| r@)),
{
    let ghost rv = rings@.map_values(|r: Vec<(u64, u64)>| r@);
    let mut buf: Vec<u8> = Vec::new();
    put_u8(&mut buf, 1);
    put_u32(&mut buf, 3);  // Polygon
    put_u32(&mut buf, rings.len() as u32);
    let ghost base = buf@;
    let mut i: usize = 0;
    while i < rings.len()
        invariant
            rv == rings@.map_values(|r: Vec<(u64, u64)>| r@),
            i <= rings.len(),
            buf@ == base + enc_repeat(rv.take(i as int), ring_encoder()),
        decreases rings.len() - i,
    {
        let ring = &rings[i];
        put_u32(&mut buf, ring.len() as u32);
        put_coords(&mut buf, ring.as_slice());
        proof {
            let t = rv.take(i + 1);
            assert(t.drop_last() =~= rv.take(i as int));
            assert(t.last() == ring@);
        }
        i = i + 1;
        assert(buf@ =~= base + enc_repeat(rv.take(i as int), ring_encoder()));
    }
    assert(rv.take(i as int) =~= rv);
    assert(buf@ =~= polygon_wkb(rv));
    buf
}

} // verus!
