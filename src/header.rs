//! The 100-byte header at the head of the main file and of the index.
use crate::bytes::{
    be32, le32, le64, lemma_sizes, push_i32_be, push_i32_le, push_u64_le, read_i32_be, read_i32_le,
    read_u64_le,
};
use crate::error::Error;
use crate::shape::{spec_code, BBox, Extent, ShapeType};
use vstd::prelude::*;

verus! {

/// Size of the header in bytes.
pub const HEADER_SIZE: i32 = 100;
/// The file code that opens every file.
pub const FILE_CODE: i32 = 9994;
/// The only version of the format.
pub const VERSION: i32 = 1000;

/// The file header.
#[derive(Debug, Clone, Copy, PartialEq, Eq, Structural)]
pub struct Header {
    /// Length of the whole file in 16-bit words.
    pub file_length: i32,
    pub version: i32,
    pub shape_type: ShapeType,
    pub bbox: BBox,
    pub z_range: Extent,
    pub m_range: Extent,
}

/// The 100 bytes of a header.
pub open spec fn header_bytes(h: Header) -> Seq<u8> {
    be32(FILE_CODE) + be32(0) + be32(0) + be32(0) + be32(0) + be32(0) + be32(h.file_length)
        + le32(h.version) + le32(spec_code(h.shape_type)) + le64(h.bbox.xmin) + le64(h.bbox.ymin)
        + le64(h.bbox.xmax) + le64(h.bbox.ymax) + le64(h.z_range.min) + le64(h.z_range.max)
        + le64(h.m_range.min) + le64(h.m_range.max)
}

pub proof fn lemma_header_len(h: Header)
    ensures
        header_bytes(h).len() == 100,
{
    lemma_sizes();
}

impl Header {
    /// Appends the 100 bytes of the header.
    pub fn write_to(&self, buf: &mut Vec<u8>)
        ensures
            final(buf)@ == old(buf)@ + header_bytes(*self),
    {
        push_i32_be(buf, FILE_CODE);
        push_i32_be(buf, 0);
        push_i32_be(buf, 0);
        push_i32_be(buf, 0);
        push_i32_be(buf, 0);
        push_i32_be(buf, 0);
        push_i32_be(buf, self.file_length);
        push_i32_le(buf, self.version);
        push_i32_le(buf, self.shape_type.code());
        push_u64_le(buf, self.bbox.xmin);
        push_u64_le(buf, self.bbox.ymin);
        push_u64_le(buf, self.bbox.xmax);
        push_u64_le(buf, self.bbox.ymax);
        push_u64_le(buf, self.z_range.min);
        push_u64_le(buf, self.z_range.max);
        push_u64_le(buf, self.m_range.min);
        push_u64_le(buf, self.m_range.max);
        proof {
            assert(final(buf)@ =~= old(buf)@ + header_bytes(*self));
        }
    }
}

/// The bytes hold a valid header, and `h` is it: the file code and the
/// version are right, and the other fields but the five reserved words
/// are those of `h`.
pub open spec fn header_read(b: Seq<u8>, h: Header) -> bool {
    &&& b.len() >= 100
    &&& b.subrange(0, 4) == be32(FILE_CODE)
    &&& h.version == VERSION
    &&& b.subrange(24, 100) == header_bytes(h).subrange(24, 100)
}

/// Where the length, version and type lie in a header.
pub proof fn lemma_header_fields(h: Header)
    ensures
        header_bytes(h).subrange(24, 28) == be32(h.file_length),
        header_bytes(h).subrange(28, 32) == le32(h.version),
        header_bytes(h).subrange(32, 36) == le32(spec_code(h.shape_type)),
{
    lemma_sizes();
    assert(header_bytes(h).subrange(24, 28) =~= be32(h.file_length));
    assert(header_bytes(h).subrange(28, 32) =~= le32(h.version));
    assert(header_bytes(h).subrange(32, 36) =~= le32(spec_code(h.shape_type)));
}

impl Header {
    /// Reads the header at the start of `b`.
    pub fn read_from(b: &[u8]) -> (r: Result<Header, Error>)
        ensures
            match r {
                Ok(h) => header_read(b@, h),
                Err(Error::UnexpectedEof) => b@.len() < 100,
                Err(Error::InvalidFileCode(c)) => {
                    &&& b@.len() >= 100
                    &&& b@.subrange(0, 4) == be32(c)
                    &&& c != FILE_CODE
                },
                Err(Error::UnsupportedVersion(v)) => {
                    &&& b@.len() >= 100
                    &&& b@.subrange(0, 4) == be32(FILE_CODE)
                    &&& b@.subrange(28, 32) == le32(v)
                    &&& v != VERSION
                },
                Err(Error::UnsupportedShapeType(c)) => {
                    &&& b@.len() >= 100
                    &&& b@.subrange(0, 4) == be32(FILE_CODE)
                    &&& b@.subrange(28, 32) == le32(VERSION)
                    &&& b@.subrange(32, 36) == le32(c)
                    &&& forall|t: ShapeType| spec_code(t) != c
                },
                Err(_) => false,
            },
    {
        if b.len() < 100 {
            return Err(Error::UnexpectedEof);
        }
        let code = read_i32_be(b, 0);
        if code != FILE_CODE {
            return Err(Error::InvalidFileCode(code));
        }
        let file_length = read_i32_be(b, 24);
        let version = read_i32_le(b, 28);
        if version != VERSION {
            return Err(Error::UnsupportedVersion(version));
        }
        let tc = read_i32_le(b, 32);
        let shape_type = match ShapeType::from_code(tc) {
            Some(t) => t,
            None => {
                return Err(Error::UnsupportedShapeType(tc));
            },
        };
        let h = Header {
            file_length,
            version,
            shape_type,
            bbox: BBox {
                xmin: read_u64_le(b, 36),
                ymin: read_u64_le(b, 44),
                xmax: read_u64_le(b, 52),
                ymax: read_u64_le(b, 60),
            },
            z_range: Extent { min: read_u64_le(b, 68), max: read_u64_le(b, 76) },
            m_range: Extent { min: read_u64_le(b, 84), max: read_u64_le(b, 92) },
        };
        proof {
            lemma_sizes();
            assert(b@.subrange(24, 100) =~= header_bytes(h).subrange(24, 100));
        }
        Ok(h)
    }
}

} // verus!
