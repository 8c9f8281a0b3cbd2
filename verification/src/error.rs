//! Errors of the format, and the two std error types they carry.

use vstd::prelude::*;
use vstd::utf8::*;

verus! {

/// `std::io::Error`, carried opaquely by [`ErffError::Io`].
#[verifier::external_type_specification]
#[verifier::external_body]
pub struct ExIoError(std::io::Error);

/// `std::string::FromUtf8Error`, carried opaquely by [`ErffError::InvalidUtf8`].
#[verifier::external_type_specification]
#[verifier::external_body]
pub struct ExFromUtf8Error(std::string::FromUtf8Error);

/// Every way an operation of this crate can fail.
#[derive(Debug)]
pub enum ErffError {
    /// An underlying read or write failed; within this crate this is always a
    /// read past the end of the data.
    Io(std::io::Error),
    /// The leading or trailing magic is not `ERFF`.
    InvalidMagic,
    /// The major version is not the one this crate reads.
    UnsupportedVersion { major: u8, minor: u8 },
    InvalidGeometryType(u8),
    InvalidCoordType(u8),
    InvalidColumnType(u8),
    /// A feature has a different number of geometry or attribute values than
    /// the schema has columns.
    SchemaMismatch { expected: usize, got: usize },
    InvalidWkb(String),
    FeatureOutOfRange(u64, u64),
    NoSpatialIndex,
    InvalidUtf8(std::string::FromUtf8Error),
    AlreadyFinalized,
}

/// What a contract says of an error: the variant and its plain payload.
pub enum ErrorCase {
    Io,
    InvalidMagic,
    UnsupportedVersion { major: u8, minor: u8 },
    InvalidGeometryType(u8),
    InvalidCoordType(u8),
    InvalidColumnType(u8),
    SchemaMismatch { expected: usize, got: usize },
    InvalidWkb(Seq<char>),
    FeatureOutOfRange(u64, u64),
    NoSpatialIndex,
    InvalidUtf8,
    AlreadyFinalized,
}

impl ErffError {
    /// The case of this error, with its payload by view.
    pub open spec fn case(&self) -> ErrorCase {
        match self {
            ErffError::Io(_) => ErrorCase::Io,
            ErffError::InvalidMagic => ErrorCase::InvalidMagic,
            ErffError::UnsupportedVersion { major, minor } => ErrorCase::UnsupportedVersion {
                major: *major,
                minor: *minor,
            },
            ErffError::InvalidGeometryType(v) => ErrorCase::InvalidGeometryType(*v),
            ErffError::InvalidCoordType(v) => ErrorCase::InvalidCoordType(*v),
            ErffError::InvalidColumnType(v) => ErrorCase::InvalidColumnType(*v),
            ErffError::SchemaMismatch { expected, got } => ErrorCase::SchemaMismatch {
                expected: *expected,
                got: *got,
            },
            ErffError::InvalidWkb(m) => ErrorCase::InvalidWkb(m@),
            ErffError::FeatureOutOfRange(i, n) => ErrorCase::FeatureOutOfRange(*i, *n),
            ErffError::NoSpatialIndex => ErrorCase::NoSpatialIndex,
            ErffError::InvalidUtf8(_) => ErrorCase::InvalidUtf8,
            ErffError::AlreadyFinalized => ErrorCase::AlreadyFinalized,
        }
    }
}

/// A parse result (a value and the position after it) agrees with its
/// specification: the same value by view and position, or an error of the
/// specified case.
pub open spec fn agrees<T: View>(
    res: Result<(T, usize), ErffError>,
    spec: Result<(T::V, int), ErrorCase>,
) -> bool {
    match spec {
        Ok((v, p)) => res matches Ok((w, q)) && w@ == v && q as int == p,
        Err(c) => res matches Err(e) && e.case() == c,
    }
}

/// The error that `Read::read_exact` reports when the data ends early:
/// `std::io::Error::from(std::io::ErrorKind::UnexpectedEof)`. Nothing is
/// claimed of it; contracts only speak of its variant of [`ErffError`].
#[verifier::external_body]
pub(crate) fn unexpected_eof() -> std::io::Error {
    std::io::Error::from(std::io::ErrorKind::UnexpectedEof)
}

/// `String::from_utf8`: succeeds exactly when the bytes are valid UTF-8, and
/// then holds the characters they decode to.
#[verifier::external_body]
pub(crate) fn string_from_utf8(bytes: Vec<u8>) -> (res: Result<
    String,
    std::string::FromUtf8Error,
>)
    ensures
        res is Ok <==> valid_utf8(bytes@),
        res matches Ok(s) ==> s@ == decode_utf8(bytes@),
{
    String::from_utf8(bytes)
}

/// The error that a seek to a position that cannot exist reports:
/// `std::io::Error::from(std::io::ErrorKind::InvalidInput)`. Nothing is
/// claimed of it; contracts only speak of its variant of [`ErffError`].
#[verifier::external_body]
pub(crate) fn invalid_input() -> std::io::Error {
    std::io::Error::from(std::io::ErrorKind::InvalidInput)
}

} // verus!
