//! Errors of the library.
use crate::shape::ShapeType;
use vstd::prelude::*;

verus! {

/// What can go wrong while reading or writing a shapefile.
#[derive(Debug)]
pub enum Error {
    /// The bytes end inside the header.
    UnexpectedEof,
    /// The first word of the header is not the file code.
    InvalidFileCode(i32),
    /// The header's version is not 1000.
    UnsupportedVersion(i32),
    /// A shape-type code outside the closed set.
    UnsupportedShapeType(i32),
    /// The shapes are not of the requested type.
    MismatchShapeType { requested: ShapeType, actual: ShapeType },
    /// A record is inconsistent: its parts, its length, or its tag.
    MalformedRecord,
    /// The file would not fit in a signed 32-bit count of 16-bit words.
    FileTooLarge,
    /// Shapes and attribute records differ in count.
    MismatchedSinkLengths,
    /// A record of the attribute table would exceed 65535 bytes.
    RecordTooLarge,
    /// dBase refused a field name, or its writer failed.
    DbaseError(String),
}

} // verus!
