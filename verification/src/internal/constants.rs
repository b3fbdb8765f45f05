//! Format constants, codec and filter codes, and error codes.
use vstd::prelude::*;

verus! {

/// For major interface/format changes
pub const BLOSC2_VERSION_MAJOR: u8 = 2;
/// For minor interface/format changes
pub const BLOSC2_VERSION_MINOR: u8 = 22;
pub const BLOSC2_MAX_DIM: u8 = 8;
pub const BLOSC1_VERSION_FORMAT_PRE1: u8 = 1;
pub const BLOSC1_VERSION_FORMAT: u8 = 2;
pub const BLOSC2_VERSION_FORMAT_ALPHA: u8 = 3;
pub const BLOSC2_VERSION_FORMAT_BETA1: u8 = 4;
pub const BLOSC2_VERSION_FORMAT_STABLE: u8 = 5;
pub const BLOSC2_VERSION_FORMAT: u8 = BLOSC2_VERSION_FORMAT_STABLE;
/// For 2.0.0-beta2 and after
pub const BLOSC2_VERSION_FRAME_FORMAT_BETA2: u8 = 1;
/// For 2.0.0-rc1 and after
pub const BLOSC2_VERSION_FRAME_FORMAT_RC1: u8 = 2;
pub const BLOSC2_VERSION_FRAME_FORMAT: u8 = BLOSC2_VERSION_FRAME_FORMAT_RC1;
pub const BLOSC_MIN_HEADER_LENGTH: usize = 16;
pub const BLOSC_EXTENDED_HEADER_LENGTH: usize = 32;
pub const BLOSC2_MAX_OVERHEAD: usize = BLOSC_EXTENDED_HEADER_LENGTH;
pub const INT_MAX: usize = 2147483647;
pub const UINT8_MAX: usize = 255;
pub const BLOSC2_MAX_BUFFERSIZE: usize = INT_MAX - BLOSC2_MAX_OVERHEAD;
pub const BLOSC_MAX_TYPESIZE: usize = UINT8_MAX;
pub const BLOSC_MIN_BUFFERSIZE: usize = 32;
pub const L1: usize = 32 * 1024;
pub const L2: usize = 256 * 1024;
pub const BLOSC_MAX_BLOCKSIZE: usize = BLOSC2_MAX_BUFFERSIZE;
pub const BLOSC2_DEFINED_TUNER_START: u8 = 0;
pub const BLOSC2_DEFINED_TUNER_STOP: u8 = 31;
pub const BLOSC2_GLOBAL_REGISTERED_TUNER_START: u8 = 32;
pub const BLOSC2_GLOBAL_REGISTERED_TUNER_STOP: u8 = 159;
pub const BLOSC2_GLOBAL_REGISTERED_TUNERS: u8 = 0;
pub const BLOSC2_USER_REGISTERED_TUNER_START: u8 = 160;
pub const BLOSC2_USER_REGISTERED_TUNER_STOP: u8 = 255;
pub const BLOSC_STUNE: u8 = 0;
pub const BLOSC_LAST_TUNER: u8 = 1;
pub const BLOSC_LAST_REGISTERED_TUNER: u8 = BLOSC2_GLOBAL_REGISTERED_TUNER_START + BLOSC2_GLOBAL_REGISTERED_TUNERS - 1;
pub const BLOSC2_DEFINED_FILTERS_START: u8 = 0;
pub const BLOSC2_DEFINED_FILTERS_STOP: u8 = 31;
pub const BLOSC2_GLOBAL_REGISTERED_FILTERS_START: u8 = 32;
pub const BLOSC2_GLOBAL_REGISTERED_FILTERS_STOP: u8 = 159;
pub const BLOSC2_GLOBAL_REGISTERED_FILTERS: u8 = 5;
pub const BLOSC2_USER_REGISTERED_FILTERS_START: u8 = 160;
pub const BLOSC2_USER_REGISTERED_FILTERS_STOP: u8 = 255;
pub const BLOSC2_MAX_FILTERS: u8 = 6;
pub const BLOSC2_MAX_UDFILTERS: u8 = 16;
pub const BLOSC_NOSHUFFLE: u8 = 0;
pub const BLOSC_NOFILTER: u8 = 0;
pub const BLOSC_SHUFFLE: u8 = 1;
pub const BLOSC_BITSHUFFLE: u8 = 2;
pub const BLOSC_DELTA: u8 = 3;
pub const BLOSC_TRUNC_PREC: u8 = 4;
pub const BLOSC_LAST_FILTER: u8 = 5;
pub const BLOSC_LAST_REGISTERED_FILTER: u8 = BLOSC2_GLOBAL_REGISTERED_FILTERS_START + BLOSC2_GLOBAL_REGISTERED_FILTERS - 1;
/// Byte-wise shuffle
pub const BLOSC_DOSHUFFLE: u8 = 0x1;
/// Plain copy
pub const BLOSC_MEMCPYED: u8 = 0x2;
/// Bit-wise shuffle
pub const BLOSC_DOBITSHUFFLE: u8 = 0x4;
/// Delta coding
pub const BLOSC_DODELTA: u8 = 0x8;
/// Use dictionaries with codec
pub const BLOSC2_USEDICT: u8 = 0x1;
/// Data is in big-endian ordering
pub const BLOSC2_BIGENDIAN: u8 = 0x2;
/// Codec is instrumented (mainly for development)
pub const BLOSC2_INSTR_CODEC: u8 = 0x80;
/// Maximum size for compression dicts
pub const BLOSC2_MAXDICTSIZE: u32 = 128 * 1024;
/// Maximum size for blocks
pub const BLOSC2_MAXBLOCKSIZE: u32 = 536866816;
/// Maximum size for types
pub const BLOSC2_MAXTYPESIZE: u32 = BLOSC2_MAXBLOCKSIZE;
pub const BLOSC2_DEFINED_CODECS_START: u8 = 0;
pub const BLOSC2_DEFINED_CODECS_STOP: u8 = 31;
pub const BLOSC2_GLOBAL_REGISTERED_CODECS_START: u8 = 32;
pub const BLOSC2_GLOBAL_REGISTERED_CODECS_STOP: u8 = 159;
pub const BLOSC2_GLOBAL_REGISTERED_CODECS: u8 = 5;
pub const BLOSC2_USER_REGISTERED_CODECS_START: u8 = 160;
pub const BLOSC2_USER_REGISTERED_CODECS_STOP: u8 = 255;
pub const BLOSC_BLOSCLZ: u8 = 0;
pub const BLOSC_LZ4: u8 = 1;
pub const BLOSC_LZ4HC: u8 = 2;
pub const BLOSC_SNAPPY: u8 = 3;
pub const BLOSC_ZLIB: u8 = 4;
pub const BLOSC_ZSTD: u8 = 5;
pub const BLOSC_LAST_CODEC: u8 = 6;
pub const BLOSC_LAST_REGISTERED_CODEC: u8 = BLOSC2_GLOBAL_REGISTERED_CODECS_START + BLOSC2_GLOBAL_REGISTERED_CODECS - 1;
pub const BLOSC_BLOSCLZ_LIB: u8 = 0;
pub const BLOSC_LZ4_LIB: u8 = 1;
pub const BLOSC_ZLIB_LIB: u8 = 3;
pub const BLOSC_ZSTD_LIB: u8 = 4;
pub const BLOSC_UDCODEC_LIB: u8 = 6;
/// Compressor library in super-chunk header
pub const BLOSC_SCHUNK_LIB: u8 = 7;
pub const BLOSC_BLOSCLZ_FORMAT: u8 = BLOSC_BLOSCLZ_LIB;
pub const BLOSC_LZ4_FORMAT: u8 = BLOSC_LZ4_LIB;
pub const BLOSC_LZ4HC_FORMAT: u8 = BLOSC_LZ4_LIB;
pub const BLOSC_ZLIB_FORMAT: u8 = BLOSC_ZLIB_LIB;
pub const BLOSC_ZSTD_FORMAT: u8 = BLOSC_ZSTD_LIB;
pub const BLOSC_UDCODEC_FORMAT: u8 = BLOSC_UDCODEC_LIB;
pub const BLOSC_BLOSCLZ_VERSION_FORMAT: u8 = 1;
pub const BLOSC_LZ4_VERSION_FORMAT: u8 = 1;
/// LZ4HC and LZ4 share the same format
pub const BLOSC_LZ4HC_VERSION_FORMAT: u8 = 1;
pub const BLOSC_ZLIB_VERSION_FORMAT: u8 = 1;
pub const BLOSC_ZSTD_VERSION_FORMAT: u8 = 1;
pub const BLOSC_UDCODEC_VERSION_FORMAT: u8 = 1;
pub const BLOSC_ALWAYS_SPLIT: u8 = 1;
pub const BLOSC_NEVER_SPLIT: u8 = 2;
pub const BLOSC_AUTO_SPLIT: u8 = 3;
pub const BLOSC_FORWARD_COMPAT_SPLIT: u8 = 4;
/// The version for the chunk format
pub const BLOSC2_CHUNK_VERSION: u8 = 0x0;
/// The version for the format of internal codec
pub const BLOSC2_CHUNK_VERSIONLZ: u8 = 0x1;
/// Flags and codec info
pub const BLOSC2_CHUNK_FLAGS: u8 = 0x2;
/// (uint8) the number of bytes of the atomic type
pub const BLOSC2_CHUNK_TYPESIZE: u8 = 0x3;
/// (int32) uncompressed size of the buffer (this header is not included)
pub const BLOSC2_CHUNK_NBYTES: u8 = 0x4;
/// (int32) size of internal blocks
pub const BLOSC2_CHUNK_BLOCKSIZE: u8 = 0x8;
/// (int32) compressed size of the buffer (including this header)
pub const BLOSC2_CHUNK_CBYTES: u8 = 0xc;
/// The codecs for the filter pipeline (1 byte per code)
pub const BLOSC2_CHUNK_FILTER_CODES: u8 = 0x10;
/// Meta info for the filter pipeline (1 byte per code)
pub const BLOSC2_CHUNK_FILTER_META: u8 = 0x18;
/// Flags specific for Blosc2 functionality
pub const BLOSC2_CHUNK_BLOSC2_FLAGS: u8 = 0x1F;
/// No special value
pub const BLOSC2_NO_SPECIAL: u8 = 0x0;
/// Zero special value
pub const BLOSC2_SPECIAL_ZERO: u8 = 0x1;
/// NaN special value
pub const BLOSC2_SPECIAL_NAN: u8 = 0x2;
/// Repeated special value
pub const BLOSC2_SPECIAL_VALUE: u8 = 0x3;
/// Non initialized values
pub const BLOSC2_SPECIAL_UNINIT: u8 = 0x4;
/// Last valid ID for special value (update this adequately)
pub const BLOSC2_SPECIAL_LASTID: u8 = 0x4;
/// Special value mask (prev IDs cannot be larger than this)
pub const BLOSC2_SPECIAL_MASK: u8 = 0x7;
/// Success
pub const BLOSC2_ERROR_SUCCESS: i32 = 0;
/// Generic failure
pub const BLOSC2_ERROR_FAILURE: i32 = -1;
/// Bad stream
pub const BLOSC2_ERROR_STREAM: i32 = -2;
/// Invalid data
pub const BLOSC2_ERROR_DATA: i32 = -3;
/// Memory alloc/realloc failure
pub const BLOSC2_ERROR_MEMORY_ALLOC: i32 = -4;
/// Not enough space to read
pub const BLOSC2_ERROR_READ_BUFFER: i32 = -5;
/// Not enough space to write
pub const BLOSC2_ERROR_WRITE_BUFFER: i32 = -6;
/// Codec not supported
pub const BLOSC2_ERROR_CODEC_SUPPORT: i32 = -7;
/// Invalid parameter supplied to codec
pub const BLOSC2_ERROR_CODEC_PARAM: i32 = -8;
/// Codec dictionary error
pub const BLOSC2_ERROR_CODEC_DICT: i32 = -9;
/// Version not supported
pub const BLOSC2_ERROR_VERSION_SUPPORT: i32 = -10;
/// Invalid value in header
pub const BLOSC2_ERROR_INVALID_HEADER: i32 = -11;
/// Invalid parameter supplied to function
pub const BLOSC2_ERROR_INVALID_PARAM: i32 = -12;
/// File read failure
pub const BLOSC2_ERROR_FILE_READ: i32 = -13;
/// File write failure
pub const BLOSC2_ERROR_FILE_WRITE: i32 = -14;
/// File open failure
pub const BLOSC2_ERROR_FILE_OPEN: i32 = -15;
/// Not found
pub const BLOSC2_ERROR_NOT_FOUND: i32 = -16;
/// Bad run length encoding
pub const BLOSC2_ERROR_RUN_LENGTH: i32 = -17;
/// Filter pipeline error
pub const BLOSC2_ERROR_FILTER_PIPELINE: i32 = -18;
/// Chunk insert failure
pub const BLOSC2_ERROR_CHUNK_INSERT: i32 = -19;
/// Chunk append failure
pub const BLOSC2_ERROR_CHUNK_APPEND: i32 = -20;
/// Chunk update failure
pub const BLOSC2_ERROR_CHUNK_UPDATE: i32 = -21;
/// Sizes larger than 2gb not supported
pub const BLOSC2_ERROR_2GB_LIMIT: i32 = -22;
/// Super-chunk copy failure
pub const BLOSC2_ERROR_SCHUNK_COPY: i32 = -23;
/// Wrong type for frame
pub const BLOSC2_ERROR_FRAME_TYPE: i32 = -24;
/// File truncate failure
pub const BLOSC2_ERROR_FILE_TRUNCATE: i32 = -25;
/// Thread or thread context creation failure
pub const BLOSC2_ERROR_THREAD_CREATE: i32 = -26;
/// Postfilter failure
pub const BLOSC2_ERROR_POSTFILTER: i32 = -27;
/// Special frame failure
pub const BLOSC2_ERROR_FRAME_SPECIAL: i32 = -28;
/// Special super-chunk failure
pub const BLOSC2_ERROR_SCHUNK_SPECIAL: i32 = -29;
/// IO plugin error
pub const BLOSC2_ERROR_PLUGIN_IO: i32 = -30;
/// Remove file failure
pub const BLOSC2_ERROR_FILE_REMOVE: i32 = -31;
/// Pointer is null
pub const BLOSC2_ERROR_NULL_POINTER: i32 = -32;
/// Invalid index
pub const BLOSC2_ERROR_INVALID_INDEX: i32 = -33;
/// Metalayer has not been found
pub const BLOSC2_ERROR_METALAYER_NOT_FOUND: i32 = -34;
/// Max buffer size exceeded
pub const BLOSC2_ERROR_MAX_BUFSIZE_EXCEEDED: i32 = -35;
/// Tuner failure
pub const BLOSC2_ERROR_TUNER: i32 = -36;

} // verus!
