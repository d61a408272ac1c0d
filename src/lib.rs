//! Reading and writing shapefiles: the main file of geometries, its
//! index, and the handshake with the attribute table.
//!
//! Doubles are carried as their IEEE-754 bit patterns (`u64`); ordering,
//! NaN and the "no data" sentinel are computed on those bits.
use vstd::prelude::*;

pub mod bytes;
pub mod codec;
pub mod dbf;
pub mod error;
pub mod float;
pub mod header;
pub mod laws;
pub mod reader;
pub mod shape;
pub mod writer;

pub use dbf::{FieldKind, Table};
pub use error::Error;
pub use header::Header;
pub use reader::{read, read_as, read_payload, read_record};
pub use shape::{BBox, Extent, Geometry, PatchType, Point, PointM, PointZ, Shape, ShapeType};
pub use writer::Writer;

verus! {

} // verus!
