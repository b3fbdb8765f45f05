//! The Blosc-style entry points: compress and decompress a buffer, read its header, extract
//! items, and the same through a context that carries the parameters.
use vstd::prelude::*;
use vstd::string::StringSliceAdditionalSpecFns;
use crate::codecs::blosclz::u32_le_at;
use crate::internal;
use crate::internal::frame::{DecompressError, frame_decode, parse_header, getitem_decode};
use crate::internal::writer::{compress_ok, compress_fails, roundtrip_conditions, stored_frame, stores_plain};
use crate::internal::writer::{slots_contain, read_filter, applied_filter, blocksize_spec};

verus! {

/// Parameters of a compression call.
#[derive(Clone, Copy)]
pub struct Blosc2Cparams {
    /// Codec: 0 BloscLZ, 1 LZ4, 3 Snappy, 4 Zlib, 5 Zstd.
    pub compcode: u8,
    /// Codec-specific metadata byte.
    pub compcode_meta: u8,
    /// Compression level, 0 (none) to 9 (most).
    pub clevel: u8,
    /// Whether to use a dictionary (not used by this library).
    pub use_dict: i32,
    /// Size in bytes of one item.
    pub typesize: i32,
    /// Number of threads (this library uses one).
    pub nthreads: i16,
    /// Requested block size; 0 picks one automatically (this library always does).
    pub blocksize: i32,
    /// Block split mode.
    pub splitmode: i32,
    /// The filter pipeline: up to six filter codes.
    pub filters: [u8; 6],
    /// One metadata byte per filter slot.
    pub filters_meta: [u8; 6],
    /// Tuner identifier.
    pub tuner_id: i32,
    /// Whether to instrument the codec.
    pub instr_codec: bool,
}

/// Parameters of a decompression call.
#[derive(Clone, Copy)]
pub struct Blosc2Dparams {
    /// Number of threads (this library uses one).
    pub nthreads: i16,
}

/// Compression and decompression parameters together.
#[derive(Clone, Copy)]
pub struct Blosc2Context {
    pub cparams: Blosc2Cparams,
    pub dparams: Blosc2Dparams,
}

/// The default compression parameters: BloscLZ at level 5, 8-byte items, byte shuffle in the
/// last filter slot, forward-compatible splitting.
pub open spec fn cparams_defaults() -> Blosc2Cparams {
    Blosc2Cparams {
        compcode: 0,
        compcode_meta: 0,
        clevel: 5,
        use_dict: 0,
        typesize: 8,
        nthreads: 1,
        blocksize: 0,
        splitmode: 4,
        filters: [0u8, 0u8, 0u8, 0u8, 0u8, 1u8],
        filters_meta: [0u8, 0u8, 0u8, 0u8, 0u8, 0u8],
        tuner_id: 0,
        instr_codec: false,
    }
}

impl Default for Blosc2Cparams {
    fn default() -> (r: Self)
        ensures
            r == cparams_defaults(),
    {
        Blosc2Cparams {
            compcode: 0,
            compcode_meta: 0,
            clevel: 5,
            use_dict: 0,
            typesize: 8,
            nthreads: 1,
            blocksize: 0,
            splitmode: 4,
            filters: [0u8, 0u8, 0u8, 0u8, 0u8, 1u8],
            filters_meta: [0u8, 0u8, 0u8, 0u8, 0u8, 0u8],
            tuner_id: 0,
            instr_codec: false,
        }
    }
}

impl Default for Blosc2Dparams {
    fn default() -> (r: Self)
        ensures
            r.nthreads == 1,
    {
        Blosc2Dparams { nthreads: 1 }
    }
}

/// The item size and the flags byte of a buffer's header, or `None` for fewer than 16 bytes.
pub fn blosc1_cbuffer_metainfo(cbuffer: &[u8]) -> (r: Option<(usize, i32)>)
    ensures
        r == if cbuffer.len() < 16 { None } else { Some((cbuffer@[3] as usize, cbuffer@[2] as i32)) },
{
    if cbuffer.len() < 16 {
        return None;
    }
    Some((cbuffer[3] as usize, cbuffer[2] as i32))
}

/// Checks that the compressed size in the header is `cbytes`, and returns the uncompressed
/// size; `Err(())` for fewer than 16 bytes or another compressed size.
pub fn blosc1_cbuffer_validate(cbuffer: &[u8], cbytes: usize) -> (r: Result<usize, ()>)
    ensures
        r == if cbuffer.len() < 16 || cbytes != u32_le_at(cbuffer@, 12) { Err(()) } else {
            Ok::<usize, ()>(u32_le_at(cbuffer@, 4) as usize)
        },
{
    if cbuffer.len() < 16 {
        return Err(());
    }
    let cb = internal::frame::read_le32(cbuffer, 12);
    if cbytes != cb {
        return Err(());
    }
    Ok(internal::frame::read_le32(cbuffer, 4))
}

/// The uncompressed size, compressed size and block size in a header, or zeros for fewer than
/// 16 bytes.
pub open spec fn cbuffer_sizes(s: Seq<u8>) -> (usize, usize, usize) {
    if s.len() < 16 {
        (0, 0, 0)
    } else {
        (u32_le_at(s, 4) as usize, u32_le_at(s, 12) as usize, u32_le_at(s, 8) as usize)
    }
}

/// Returns `(uncompressed size, compressed size, block size)` from the header of `cbuffer`, or
/// `(0, 0, 0)` for fewer than 16 bytes.
pub fn blosc2_cbuffer_sizes(cbuffer: &[u8]) -> (r: (usize, usize, usize))
    ensures
        r == cbuffer_sizes(cbuffer@),
{
    if cbuffer.len() < 16 {
        return (0, 0, 0);
    }
    let nb = internal::frame::read_le32(cbuffer, 4);
    let bs = internal::frame::read_le32(cbuffer, 8);
    let cb = internal::frame::read_le32(cbuffer, 12);
    (nb, cb, bs)
}

/// The same as [`blosc2_cbuffer_sizes`].
pub fn blosc1_cbuffer_sizes(cbuffer: &[u8]) -> (r: (usize, usize, usize))
    ensures
        r == cbuffer_sizes(cbuffer@),
{
    blosc2_cbuffer_sizes(cbuffer)
}

/// The part of `cbuffer` that [`blosc1_getitem`] reads: the first `cbytes` bytes of the header
/// where the buffer holds them, else all of it.
pub open spec fn getitem_window(cbuffer: Seq<u8>) -> Seq<u8> {
    let cb = u32_le_at(cbuffer, 12);
    if cbuffer.len() >= cb { cbuffer.subrange(0, cb) } else { cbuffer }
}

/// Decompresses `nitems` items from item `start` on into `dest` and returns the number of
/// bytes written, 0 on an error (fewer than 16 bytes, or where [`getitem_decode`] refuses).
pub fn blosc1_getitem(cbuffer: &[u8], start: i32, nitems: i32, dest: &mut [u8]) -> (r: i32)
    ensures
        final(dest).len() == old(dest).len(),
        cbuffer.len() < 16 ==> r == 0 && final(dest)@ == old(dest)@,
        cbuffer.len() >= 16 ==> match getitem_decode(getitem_window(cbuffer@), start as usize as nat,
            nitems as usize as nat, old(dest).len() as nat) {
            Some(items) => r == items.len() as i32 && final(dest)@ == items + old(dest)@.skip(items.len() as int),
            None => r == 0 && final(dest)@ == old(dest)@,
        },
{
    if cbuffer.len() < 16 {
        return 0;
    }
    let cbytes = internal::frame::read_le32(cbuffer, 12);
    let src_slice = if cbuffer.len() >= cbytes { &cbuffer[0..cbytes] } else { cbuffer };
    assert(src_slice@ == getitem_window(cbuffer@));
    match internal::getitem(src_slice, start as usize, nitems as usize, dest) {
        Ok(size) => size as i32,
        Err(_) => 0,
    }
}

/// The name, version and code of a compression library, by the name of its codec.
pub open spec fn complib_code(name: Seq<u8>) -> Option<i32> {
    if name == seq![98u8, 108u8, 111u8, 115u8, 99u8, 108u8, 122u8] {
        Some(0)
    } else if name == seq![108u8, 122u8, 52u8] || name == seq![108u8, 122u8, 52u8, 104u8, 99u8] {
        Some(1)
    } else if name == seq![115u8, 110u8, 97u8, 112u8, 112u8, 121u8] {
        Some(2)
    } else if name == seq![122u8, 108u8, 105u8, 98u8] {
        Some(3)
    } else if name == seq![122u8, 115u8, 116u8, 100u8] {
        Some(4)
    } else {
        None
    }
}

/// Whether `a` holds exactly the bytes `b`.
fn bytes_equal(a: &[u8], b: &[u8]) -> (r: bool)
    ensures
        r == (a@ == b@),
{
    if a.len() != b.len() {
        return false;
    }
    let mut k: usize = 0;
    while k < a.len()
        invariant
            a.len() == b.len(),
            k <= a.len(),
            forall|j: int| 0 <= j < k ==> a@[j] == b@[j],
        decreases a.len() - k,
    {
        if a[k] != b[k] {
            return false;
        }
        k += 1;
    }
    assert(a@ =~= b@);
    true
}

/// Looks up a compression library by codec name ("blosclz", "lz4", "lz4hc", "snappy", "zlib",
/// "zstd") and returns its name, version and library code.
pub fn blosc2_get_complib_info(compcode: &str) -> (r: Option<(&'static str, &'static str, i32)>)
    ensures
        match complib_code(compcode.spec_bytes()) {
            None => r is None,
            Some(code) => r matches Some((lib, version, c)) && c == code
                && (code == 0 ==> lib@ == "BloscLZ"@ && version@ == "2.5.1"@)
                && (code == 1 ==> lib@ == "LZ4"@ && version@ == "1.9.4"@)
                && (code == 2 ==> lib@ == "Snappy"@ && version@ == "1.1.9"@)
                && (code == 3 ==> lib@ == "Zlib"@ && version@ == "1.2.11"@)
                && (code == 4 ==> lib@ == "Zstd"@ && version@ == "1.5.2"@),
        },
{
    let name = compcode.as_bytes();
    let blosclz: [u8; 7] = [98u8, 108u8, 111u8, 115u8, 99u8, 108u8, 122u8];
    let lz4: [u8; 3] = [108u8, 122u8, 52u8];
    let lz4hc: [u8; 5] = [108u8, 122u8, 52u8, 104u8, 99u8];
    let snappy: [u8; 6] = [115u8, 110u8, 97u8, 112u8, 112u8, 121u8];
    let zlib: [u8; 4] = [122u8, 108u8, 105u8, 98u8];
    let zstd: [u8; 4] = [122u8, 115u8, 116u8, 100u8];
    if bytes_equal(name, blosclz.as_slice()) {
        Some(("BloscLZ", "2.5.1", 0))
    } else if bytes_equal(name, lz4.as_slice()) || bytes_equal(name, lz4hc.as_slice()) {
        Some(("LZ4", "1.9.4", 1))
    } else if bytes_equal(name, snappy.as_slice()) {
        Some(("Snappy", "1.1.9", 2))
    } else if bytes_equal(name, zlib.as_slice()) {
        Some(("Zlib", "1.2.11", 3))
    } else if bytes_equal(name, zstd.as_slice()) {
        Some(("Zstd", "1.5.2", 4))
    } else {
        None
    }
}

/// What a compression call returns to the caller: the compressed size, or 0 on an error.
pub open spec fn compress_code(r: Result<usize, i32>) -> i32 {
    match r {
        Ok(c) => c as i32,
        Err(_) => 0,
    }
}

/// The filter slots that [`blosc2_compress`] records: the last slot names byte shuffle (for
/// items of more than one byte) or bitshuffle.
pub open spec fn api_filters(doshuffle: i32, typesize: usize) -> Seq<u8> {
    let f5: u8 = if doshuffle == 1 && typesize > 1 { 1 } else if doshuffle == 2 { 2 } else { 0 };
    seq![0u8, 0u8, 0u8, 0u8, 0u8, f5]
}

/// Compresses `src` into `dest` with BloscLZ and the extended header; `doshuffle` picks byte
/// shuffle (1), bitshuffle (2) or no filter and `typesize` is the item size. `dest` should hold
/// `src.len() + BLOSC2_MAX_OVERHEAD` bytes, which makes room for storing the data as is.
/// Returns the compressed size, or 0 on an error. Level 0 means no compression: the data is
/// stored as is after the header, or 0 is returned where it does not fit.
pub fn blosc2_compress(clevel: i32, doshuffle: i32, typesize: usize, src: &[u8], dest: &mut [u8]) -> (r: i32)
    requires
        typesize > 0,
        old(dest).len() >= 32,
        src.len() >= 16 ==> 0 <= clevel <= 9,
        doshuffle == 2 ==> 8 * typesize <= usize::MAX + 1,
    ensures
        final(dest).len() == old(dest).len(),
        exists|res: Result<usize, i32>| r == compress_code(res) && #[trigger] compress_ok(clevel, doshuffle,
            typesize, src@, old(dest).len() as nat, 0, true, api_filters(doshuffle, typesize),
            crate::internal::no_filters(), final(dest)@, res),
        compress_fails(clevel, doshuffle, typesize, src.len() as nat, old(dest).len() as nat, 0, true) ==> r == 0,
        clevel == 0 && src.len() + 32 > old(dest).len() ==> r == 0,
        clevel == 0 && src.len() + 32 <= old(dest).len() ==> r == (src.len() + 32) as i32
            && stored_frame(clevel, doshuffle, typesize, src@, 0, true, api_filters(doshuffle, typesize),
                crate::internal::no_filters(), final(dest)@, (src.len() + 32) as nat),
{
    let filters: [u8; 6] = if doshuffle == 1 && typesize > 1 {
        [0u8, 0u8, 0u8, 0u8, 0u8, 1u8]
    } else if doshuffle == 2 {
        [0u8, 0u8, 0u8, 0u8, 0u8, 2u8]
    } else {
        [0u8, 0u8, 0u8, 0u8, 0u8, 0u8]
    };
    let filters_meta: [u8; 6] = [0u8, 0u8, 0u8, 0u8, 0u8, 0u8];
    assert(filters@ == api_filters(doshuffle, typesize));
    assert(filters_meta@ == crate::internal::no_filters());
    let res = internal::compress_extended(clevel, doshuffle, typesize, src, dest, 0, &filters, &filters_meta);
    match res {
        Ok(size) => size as i32,
        Err(_) => 0,
    }
}

/// What a decompression call returns to the caller: the uncompressed size, or -1 on an error.
pub open spec fn decompress_code(s: Seq<u8>, old: Seq<u8>) -> i32 {
    match frame_decode(s, old) {
        Ok(_) => parse_header(s).nbytes as i32,
        Err(_) => -1i32,
    }
}

/// Decompresses `src` into `dest` and returns the uncompressed size, or -1 on an error; `dest`
/// then holds what [`frame_decode`] says.
pub fn blosc2_decompress(src: &[u8], dest: &mut [u8]) -> (r: i32)
    ensures
        final(dest).len() == old(dest).len(),
        r == decompress_code(src@, old(dest)@),
        frame_decode(src@, old(dest)@) matches Ok(out) ==> final(dest)@ == out,
        frame_decode(src@, old(dest)@) is Ok ==> r == u32_le_at(src@, 4) as i32,
{
    proof { lemma_decompress_returns_header_size(src@, old(dest)@, old(dest)@); }
    match internal::decompress(src, dest) {
        Ok(size) => size as i32,
        Err(_) => -1i32,
    }
}

/// A successful decompression returns the uncompressed size that the header records in its
/// bytes 4 to 8, whatever the destination: two destinations that both hold the data give the
/// same count.
pub proof fn lemma_decompress_returns_header_size(s: Seq<u8>, old1: Seq<u8>, old2: Seq<u8>)
    ensures
        frame_decode(s, old1) is Ok ==> decompress_code(s, old1) == u32_le_at(s, 4) as i32,
        frame_decode(s, old1) is Ok && frame_decode(s, old2) is Ok ==> decompress_code(s, old1)
            == decompress_code(s, old2),
{
    let v = u32_le_at(s, 4);
    if frame_decode(s, old1) is Ok {
        let x = v as u32;
        assert(x == v);
        assert((x as usize) as i32 == x as i32) by (bit_vector);
        assert(parse_header(s).nbytes == x as usize);
    }
}

/// A context for compression with `cparams`, with the default decompression parameters.
pub fn blosc2_create_cctx(cparams: Blosc2Cparams) -> (r: Blosc2Context)
    ensures
        r.cparams == cparams,
        r.dparams.nthreads == 1,
{
    Blosc2Context { cparams, dparams: Blosc2Dparams { nthreads: 1 } }
}

/// A context for decompression with `dparams`, with the default compression parameters.
pub fn blosc2_create_dctx(dparams: Blosc2Dparams) -> (r: Blosc2Context)
    ensures
        r.cparams == cparams_defaults(),
        r.dparams == dparams,
{
    Blosc2Context { cparams: Blosc2Cparams::default(), dparams }
}

/// The filter that the slots scanned so far ask for, with a later slot winning.
pub open spec fn scan_shuffle(filters: Seq<u8>, k: int) -> i32
    decreases k,
{
    if k <= 0 {
        0
    } else {
        let prev = scan_shuffle(filters, k - 1);
        if filters[k - 1] == 2 { 2 } else if filters[k - 1] == 1 { 1 } else { prev }
    }
}

/// The filter that a context's slots ask for is the one a reader of the extended header undoes:
/// where the slots do not name both byte shuffle and bitshuffle, the filter applied is the one
/// read back, except that byte shuffle of one-byte items and bitshuffle of a block shorter
/// than an item change nothing and are read back as no filter.
pub proof fn lemma_ctx_filter_read_back(filters: Seq<u8>, typesize: nat, blocksize: nat)
    requires
        filters.len() == 6,
        typesize >= 1,
        !(slots_contain(filters, 1) && slots_contain(filters, 2)),
    ensures
        ({
            let applied = applied_filter(scan_shuffle(filters, 6));
            let read = read_filter(scan_shuffle(filters, 6), typesize, blocksize, true, filters);
            ||| applied == read
            ||| (applied == 1 && read == 0 && typesize == 1)
            ||| (applied == 2 && read == 0 && blocksize < typesize)
        }),
{
    reveal_with_fuel(scan_shuffle, 7);
}

/// What a context compression returned reads back as the data, where the item size fits its
/// header byte, the sizes fit, and the slots do not name both shuffles.
proof fn lemma_ctx_roundtrip(clevel: i32, filters: Seq<u8>, meta: Seq<u8>, typesize: usize, src: Seq<u8>,
    destlen: nat, compressor: u8, d: Seq<u8>, res: Result<usize, i32>, r: i32)
    requires
        compress_ok(clevel, scan_shuffle(filters, 6), typesize, src, destlen, compressor, true, filters, meta, d, res),
        r == compress_code(res),
        r > 0,
        filters.len() == 6,
        1 <= typesize <= 255,
        src.len() <= u32::MAX,
        destlen <= i32::MAX,
        !(slots_contain(filters, 1) && slots_contain(filters, 2)),
    ensures
        forall|old: Seq<u8>| old.len() >= src.len() ==> #[trigger] frame_decode(d.subrange(0, r as int), old)
            == Ok::<Seq<u8>, DecompressError>(src + old.skip(src.len() as int)),
{
    let c = res->Ok_0;
    assert(r == c);
    let ts = typesize as nat;
    lemma_ctx_filter_read_back(filters, ts, blocksize_spec(clevel, ts, src.len(), compressor));
    assert(roundtrip_conditions(clevel, scan_shuffle(filters, 6), ts, src.len(), compressor, true, filters, destlen,
        c as nat));
}

/// The item size that a compression call uses for the `typesize` parameter: an item size of 0
/// is taken as one byte.
pub open spec fn item_size(typesize: i32) -> usize {
    if typesize == 0 { 1 } else { typesize as usize }
}

/// Compresses `src` into `dest` with the codec, level, item size and filters of `context`, and
/// the extended header. An item size of 0 counts as 1. Returns the compressed size, or 0 on an
/// error.
#[verifier::rlimit(60)]
pub fn blosc2_compress_ctx(context: &Blosc2Context, src: &[u8], dest: &mut [u8]) -> (r: i32)
    requires
        context.cparams.typesize >= 0,
        old(dest).len() >= 32,
        context.cparams.compcode == 0 && src.len() >= 16 ==> context.cparams.clevel <= 9,
        context.cparams.compcode == 4 ==> context.cparams.clevel <= 10,
        scan_shuffle(context.cparams.filters@, 6) == 2 ==> 8 * item_size(context.cparams.typesize) <= usize::MAX + 1,
    ensures
        final(dest).len() == old(dest).len(),
        exists|res: Result<usize, i32>| r == compress_code(res) && #[trigger] compress_ok(context.cparams.clevel as i32,
            scan_shuffle(context.cparams.filters@, 6), item_size(context.cparams.typesize), src@, old(dest).len() as nat,
            context.cparams.compcode, true, context.cparams.filters@, context.cparams.filters_meta@, final(dest)@, res),
        compress_fails(context.cparams.clevel as i32, scan_shuffle(context.cparams.filters@, 6),
            item_size(context.cparams.typesize), src.len() as nat, old(dest).len() as nat, context.cparams.compcode, true)
            ==> r == 0,
        r > 0 && context.cparams.typesize <= 255 && src.len() <= u32::MAX && old(dest).len() <= i32::MAX
            && !(slots_contain(context.cparams.filters@, 1) && slots_contain(context.cparams.filters@, 2))
            ==> forall|old: Seq<u8>| old.len() >= src.len() ==> #[trigger] frame_decode(
                final(dest)@.subrange(0, r as int), old) == Ok::<Seq<u8>, DecompressError>(src@ + old.skip(
                src.len() as int)),
{
    let clevel = context.cparams.clevel as i32;
    let typesize: usize = if context.cparams.typesize == 0 { 1 } else { context.cparams.typesize as usize };
    let compressor = context.cparams.compcode;
    let filters = context.cparams.filters;
    let filters_meta = context.cparams.filters_meta;
    let mut doshuffle: i32 = 0;
    let mut k: usize = 0;
    while k < 6
        invariant
            k <= 6,
            filters@.len() == 6,
            doshuffle == scan_shuffle(filters@, k as int),
        decreases 6 - k,
    {
        let f = filters[k];
        if f == 1 {
            doshuffle = 1;
        }
        if f == 2 {
            doshuffle = 2;
        }
        k += 1;
    }
    assert(typesize == item_size(context.cparams.typesize));
    let res = internal::compress_extended(clevel, doshuffle, typesize, src, dest, compressor, &filters, &filters_meta);
    assert(compress_ok(context.cparams.clevel as i32, scan_shuffle(context.cparams.filters@, 6),
        item_size(context.cparams.typesize), src@, old(dest).len() as nat, context.cparams.compcode, true,
        context.cparams.filters@, context.cparams.filters_meta@, dest@, res));
    let r: i32 = match res {
        Ok(size) => size as i32,
        Err(_) => 0,
    };
    proof {
        if r > 0 && context.cparams.typesize <= 255 && src.len() <= u32::MAX && old(dest).len() <= i32::MAX
            && !(slots_contain(context.cparams.filters@, 1) && slots_contain(context.cparams.filters@, 2)) {
            lemma_ctx_roundtrip(clevel, filters@, filters_meta@, typesize, src@, old(dest).len() as nat, compressor,
                dest@, res, r);
        }
    }
    r
}

/// Decompresses `src` into `dest`, as [`blosc2_decompress`] does; the context does not change
/// the outcome.
pub fn blosc2_decompress_ctx(context: &Blosc2Context, src: &[u8], dest: &mut [u8]) -> (r: i32)
    ensures
        final(dest).len() == old(dest).len(),
        r == decompress_code(src@, old(dest)@),
        frame_decode(src@, old(dest)@) matches Ok(out) ==> final(dest)@ == out,
        frame_decode(src@, old(dest)@) is Ok ==> r == u32_le_at(src@, 4) as i32,
{
    blosc2_decompress(src, dest)
}

/// Decompressing what compression wrote gives the data back: if a compression call left `d`
/// and returned `Ok(c)`, and the inputs meet [`roundtrip_conditions`], then decompressing the
/// first `c` bytes of `d` over any destination `old` that holds the data puts the data at its
/// start and leaves the rest of `old` as it was.
pub proof fn lemma_compress_decompress_roundtrip(clevel: i32, doshuffle: i32, typesize: usize, src: Seq<u8>,
    destlen: nat, compressor: u8, extended: bool, filters: Seq<u8>, meta: Seq<u8>, d: Seq<u8>, c: usize,
    old: Seq<u8>)
    requires
        compress_ok(clevel, doshuffle, typesize, src, destlen, compressor, extended, filters, meta, d,
            Ok::<usize, i32>(c)),
        roundtrip_conditions(clevel, doshuffle, typesize as nat, src.len(), compressor, extended, filters, destlen,
            c as nat),
        old.len() >= src.len(),
    ensures
        frame_decode(d.subrange(0, c as int), old) == Ok::<Seq<u8>, DecompressError>(src + old.skip(src.len() as int)),
{
}

/// The header of a buffer that compression wrote names the item size it was given: where a
/// compression call left `d` and returned `Ok(c)` for an item size that fits its header byte,
/// the first `c` bytes of `d` hold at least a header, and their byte 3 is the item size.
pub proof fn lemma_compress_metainfo(clevel: i32, doshuffle: i32, typesize: usize, src: Seq<u8>, destlen: nat,
    compressor: u8, extended: bool, filters: Seq<u8>, meta: Seq<u8>, d: Seq<u8>, c: usize)
    requires
        compress_ok(clevel, doshuffle, typesize, src, destlen, compressor, extended, filters, meta, d,
            Ok::<usize, i32>(c)),
        typesize <= 255,
    ensures
        16 <= c <= d.len(),
        d.subrange(0, c as int)[3] as usize == typesize,
{
    let hl: int = if extended { 32 } else { 16 };
    let hdr = d.subrange(0, hl);
    assert(hdr[3] == d[3]);
    if stores_plain(clevel, doshuffle, typesize, src, destlen, compressor, extended) {
        assert(hdr[3] == typesize as u8);
    } else {
        assert(hdr[3] == typesize as u8);
    }
}

} // verus!
