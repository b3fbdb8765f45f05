//! The header of a chunk, read into its fields and checked.
use vstd::prelude::*;
use crate::blosc::byteorder::i32_le_at;
use crate::internal::constants::{BLOSC2_ERROR_READ_BUFFER, BLOSC2_ERROR_VERSION_SUPPORT, BLOSC2_ERROR_INVALID_HEADER};
use crate::internal::constants::{BLOSC2_VERSION_FORMAT, BLOSC_MAX_BLOCKSIZE};
use crate::internal::frame::read_le32;

verus! {

/// The fields of a chunk header. The fields after `cbytes` are read only from an extended
/// header whose flags mark both shuffles; otherwise they are zero.
#[derive(Debug, Clone, Copy)]
pub struct BloscHeader {
    pub version: u8,
    pub versionlz: u8,
    pub flags: u8,
    pub typesize: u8,
    pub nbytes: i32,
    pub blocksize: i32,
    pub cbytes: i32,
    pub filters: [u8; 6],
    pub udcompcode: u8,
    pub compcode_meta: u8,
    pub filters_meta: [u8; 6],
    pub reserved2: u8,
    pub blosc2_flags: u8,
}

/// The header with every field zero.
pub open spec fn zero_header() -> BloscHeader {
    BloscHeader {
        version: 0,
        versionlz: 0,
        flags: 0,
        typesize: 0,
        nbytes: 0,
        blocksize: 0,
        cbytes: 0,
        filters: [0u8, 0u8, 0u8, 0u8, 0u8, 0u8],
        udcompcode: 0,
        compcode_meta: 0,
        filters_meta: [0u8, 0u8, 0u8, 0u8, 0u8, 0u8],
        reserved2: 0,
        blosc2_flags: 0,
    }
}

impl Default for BloscHeader {
    fn default() -> (r: Self)
        ensures
            r == zero_header(),
    {
        BloscHeader {
            version: 0,
            versionlz: 0,
            flags: 0,
            typesize: 0,
            nbytes: 0,
            blocksize: 0,
            cbytes: 0,
            filters: [0u8, 0u8, 0u8, 0u8, 0u8, 0u8],
            udcompcode: 0,
            compcode_meta: 0,
            filters_meta: [0u8, 0u8, 0u8, 0u8, 0u8, 0u8],
            reserved2: 0,
            blosc2_flags: 0,
        }
    }
}

/// The first sixteen bytes of `src` read into a header: four single bytes, then the
/// uncompressed size, the block size and the compressed size, little-endian.
pub open spec fn header_fields(src: Seq<u8>) -> BloscHeader {
    BloscHeader {
        version: src[0],
        versionlz: src[1],
        flags: src[2],
        typesize: src[3],
        nbytes: i32_le_at(src, 4),
        blocksize: i32_le_at(src, 8),
        cbytes: i32_le_at(src, 12),
        ..zero_header()
    }
}

/// [`header_fields`] with the sixteen bytes of the extended part: six filter codes, the
/// user codec, the codec metadata, six filter metadata bytes, a reserved byte and the flags.
pub open spec fn extended_fields(src: Seq<u8>) -> BloscHeader {
    BloscHeader {
        filters: [src[16], src[17], src[18], src[19], src[20], src[21]],
        udcompcode: src[22],
        compcode_meta: src[23],
        filters_meta: [src[24], src[25], src[26], src[27], src[28], src[29]],
        reserved2: src[30],
        blosc2_flags: src[31],
        ..header_fields(src)
    }
}

/// Whether the flags byte marks both the byte shuffle and the bitshuffle, the mark of an
/// extended header.
pub open spec fn marks_extended(flags: u8) -> bool {
    flags & 0x1u8 != 0 && flags & 0x4u8 != 0
}

/// What reading the header of `src` gives: the header, or the error code of the first check
/// that fails.
pub open spec fn chunk_header(src: Seq<u8>, extended_header: bool) -> Result<BloscHeader, i32> {
    if src.len() < 16 {
        Err(BLOSC2_ERROR_READ_BUFFER)
    } else {
        let h = header_fields(src);
        if h.version > BLOSC2_VERSION_FORMAT {
            Err(BLOSC2_ERROR_VERSION_SUPPORT)
        } else if h.cbytes < 16 {
            Err(BLOSC2_ERROR_INVALID_HEADER)
        } else if h.blocksize <= 0 || (h.nbytes > 0 && h.blocksize > h.nbytes) {
            Err(BLOSC2_ERROR_INVALID_HEADER)
        } else if h.blocksize > BLOSC_MAX_BLOCKSIZE {
            Err(BLOSC2_ERROR_INVALID_HEADER)
        } else if h.typesize == 0 {
            Err(BLOSC2_ERROR_INVALID_HEADER)
        } else if extended_header && marks_extended(h.flags) {
            if h.cbytes < 32 {
                Err(BLOSC2_ERROR_INVALID_HEADER)
            } else if src.len() < 32 {
                Err(BLOSC2_ERROR_READ_BUFFER)
            } else {
                Ok(extended_fields(src))
            }
        } else {
            Ok(h)
        }
    }
}

fn read_i32_le(src: &[u8], pos: usize) -> (r: i32)
    requires
        pos + 4 <= src.len(),
    ensures
        r == i32_le_at(src@, pos as int),
{
    let v = read_le32(src, pos);
    (v as u32) as i32
}

/// Reads and checks the header of a chunk. Errors: fewer than 16 bytes (or, for an extended
/// header, 32) give the read-buffer error; a version above the current format, the version
/// error; a compressed size under the header's, a block size that is not positive or exceeds
/// the uncompressed size or the largest block, or an item size of zero, the invalid-header
/// error.
pub fn read_chunk_header(src: &[u8], extended_header: bool) -> (r: Result<BloscHeader, i32>)
    ensures
        r == chunk_header(src@, extended_header),
{
    if src.len() < 16 {
        return Err(BLOSC2_ERROR_READ_BUFFER);
    }
    let mut header = BloscHeader::default();
    header.version = src[0];
    header.versionlz = src[1];
    header.flags = src[2];
    header.typesize = src[3];
    header.nbytes = read_i32_le(src, 4);
    header.blocksize = read_i32_le(src, 8);
    header.cbytes = read_i32_le(src, 12);
    assert(header == header_fields(src@));

    if header.version > BLOSC2_VERSION_FORMAT {
        return Err(BLOSC2_ERROR_VERSION_SUPPORT);
    }
    if header.cbytes < 16 {
        return Err(BLOSC2_ERROR_INVALID_HEADER);
    }
    if header.blocksize <= 0 || (header.nbytes > 0 && header.blocksize > header.nbytes) {
        return Err(BLOSC2_ERROR_INVALID_HEADER);
    }
    if header.blocksize as usize > BLOSC_MAX_BLOCKSIZE {
        return Err(BLOSC2_ERROR_INVALID_HEADER);
    }
    if header.typesize == 0 {
        return Err(BLOSC2_ERROR_INVALID_HEADER);
    }
    if extended_header && (header.flags & 0x1u8 != 0) && (header.flags & 0x4u8 != 0) {
        if header.cbytes < 32 {
            return Err(BLOSC2_ERROR_INVALID_HEADER);
        }
        if src.len() < 32 {
            return Err(BLOSC2_ERROR_READ_BUFFER);
        }
        header.filters = [src[16], src[17], src[18], src[19], src[20], src[21]];
        header.udcompcode = src[22];
        header.compcode_meta = src[23];
        header.filters_meta = [src[24], src[25], src[26], src[27], src[28], src[29]];
        header.reserved2 = src[30];
        header.blosc2_flags = src[31];
        assert(header == extended_fields(src@));
    }
    Ok(header)
}

} // verus!
