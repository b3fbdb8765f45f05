//! The default tuner: picks the block size of a compression from the codec, the level, the
//! item size, the buffer size and the split mode.
use vstd::prelude::*;

verus! {

/// The compression parameters that the tuner reads and the block size it sets.
#[derive(Debug, Clone, Copy)]
pub struct TunerContext {
    /// Codec code.
    pub compcode: i32,
    /// Compression level, 0 to 9.
    pub clevel: i32,
    /// Item size in bytes.
    pub typesize: i32,
    /// Size of the buffer to compress.
    pub sourcesize: i32,
    /// Block size: the one asked for (0 picks one), then the one chosen.
    pub blocksize: i32,
    /// Split mode: 1 always, 2 never, 3 automatic, 4 forward-compatible.
    pub splitmode: i32,
    /// Filter flags; bit 0 is the byte shuffle.
    pub filter_flags: u8,
}

/// Whether the codec is meant for high compression ratios (LZ4HC, Zlib, Zstd).
pub open spec fn hcr_spec(compcode: i32) -> bool {
    compcode == 2 || compcode == 4 || compcode == 5
}

/// Whether blocks are split into one stream per byte of the item.
pub open spec fn split_spec(ctx: TunerContext, typesize: int, blocksize: int) -> bool {
    if ctx.splitmode == 1 {
        true
    } else if ctx.splitmode == 2 {
        false
    } else {
        &&& (ctx.compcode == 0 || ctx.compcode == 1 || (ctx.compcode == 5 && ctx.clevel <= 5))
        &&& ctx.filter_flags & 1u8 != 0
        &&& typesize <= 16
        &&& blocksize / typesize >= 32
    }
}

/// The block size for a buffer of at least 32 KiB, by level.
pub open spec fn level_blocksize(clevel: i32, hcr: bool) -> int {
    let base: int = if hcr { 65536 } else { 32768 };
    if clevel == 0 {
        base / 4
    } else if clevel == 1 {
        base / 2
    } else if clevel == 2 {
        base
    } else if clevel == 3 {
        base * 2
    } else if clevel == 4 || clevel == 5 {
        base * 4
    } else if 6 <= clevel <= 8 {
        base * 8
    } else if clevel == 9 {
        if hcr { base * 16 } else { base * 8 }
    } else {
        base
    }
}

/// The block size per byte of item for split blocks, by level.
pub open spec fn split_blocksize(clevel: i32) -> int {
    if 1 <= clevel <= 3 {
        32768
    } else if 4 <= clevel <= 6 {
        65536
    } else if clevel == 7 {
        131072
    } else if clevel == 8 {
        262144
    } else {
        524288
    }
}

/// The block size that the tuner sets: 1 for a buffer smaller than an item; else the one asked
/// for, or one picked by level (and for split blocks by item size, between 32 KiB and 4 MiB);
/// at most the buffer size, and a multiple of the item size where larger than it.
pub open spec fn stune_blocksize(ctx: TunerContext) -> int {
    let nbytes = ctx.sourcesize as int;
    let ts = ctx.typesize as int;
    if nbytes < ts {
        1
    } else {
        let split = split_spec(ctx, ts, nbytes);
        let b0 = if ctx.blocksize != 0 {
            ctx.blocksize as int
        } else {
            let b1 = if nbytes >= 32768 { level_blocksize(ctx.clevel, hcr_spec(ctx.compcode)) } else { nbytes };
            if ctx.clevel > 0 && split {
                let s = split_blocksize(ctx.clevel) * ts;
                if s > 4194304 { 4194304 } else if s < 32768 { 32768 } else { s }
            } else {
                b1
            }
        };
        let b2 = if b0 > nbytes { nbytes } else { b0 };
        if b2 > ts { b2 / ts * ts } else { b2 }
    }
}

fn is_hcr(context: &TunerContext) -> (r: bool)
    ensures
        r == hcr_spec(context.compcode),
{
    context.compcode == 2 || context.compcode == 4 || context.compcode == 5
}

/// Sets up the tuner; there is nothing to set up. Returns 0.
pub fn blosc_stune_init() -> (r: i32)
    ensures
        r == 0,
{
    0
}

/// Whether blocks of `blocksize` bytes of `typesize`-byte items are split into one stream per
/// byte of the item: always or never as the split mode says, else for the fast codecs (BloscLZ,
/// LZ4, Zstd up to level 5) with the byte shuffle, items of at most 16 bytes and at least 32
/// items per block. 1 for split, 0 for not.
pub fn split_block(context: &TunerContext, typesize: i32, blocksize: i32) -> (r: i32)
    requires
        context.splitmode != 1 && context.splitmode != 2 ==> typesize > 0 && blocksize >= 0,
    ensures
        r == if split_spec(*context, typesize as int, blocksize as int) { 1i32 } else { 0i32 },
{
    if context.splitmode == 1 {
        return 1;
    }
    if context.splitmode == 2 {
        return 0;
    }
    let compcode = context.compcode;
    let result = (compcode == 0 || compcode == 1 || (compcode == 5 && context.clevel <= 5))
        && (context.filter_flags & 1u8 != 0)
        && typesize <= 16
        && blocksize / typesize >= 32;
    if result { 1 } else { 0 }
}

/// Sets `context.blocksize` to [`stune_blocksize`]; nothing else changes. Returns 0.
pub fn blosc_stune_next_blocksize(context: &mut TunerContext) -> (r: i32)
    requires
        old(context).typesize > 0,
        old(context).sourcesize >= old(context).typesize && old(context).blocksize == 0
            && old(context).clevel > 0 ==> split_blocksize(old(context).clevel) * old(context).typesize <= i32::MAX,
    ensures
        r == 0,
        final(context).blocksize == stune_blocksize(*old(context)),
        *final(context) == (TunerContext { blocksize: final(context).blocksize, ..*old(context) }),
{
    let clevel = context.clevel;
    let typesize = context.typesize;
    let nbytes = context.sourcesize;
    let user_blocksize = context.blocksize;
    let mut blocksize = nbytes;
    if nbytes < typesize {
        context.blocksize = 1;
        return 0;
    }
    let splitmode = split_block(context, typesize, blocksize);
    if user_blocksize != 0 {
        blocksize = user_blocksize;
    } else {
        if nbytes >= 32768 {
            blocksize = 32768;
            if is_hcr(context) {
                blocksize = blocksize * 2;
            }
            if clevel == 0 {
                blocksize = blocksize / 4;
            } else if clevel == 1 {
                blocksize = blocksize / 2;
            } else if clevel == 2 {
            } else if clevel == 3 {
                blocksize = blocksize * 2;
            } else if clevel == 4 || clevel == 5 {
                blocksize = blocksize * 4;
            } else if 6 <= clevel && clevel <= 8 {
                blocksize = blocksize * 8;
            } else if clevel == 9 {
                blocksize = blocksize * 8;
                if is_hcr(context) {
                    blocksize = blocksize * 2;
                }
            }
        }
        if clevel > 0 && splitmode != 0 {
            blocksize = if clevel <= 3 {
                32 * 1024
            } else if clevel <= 6 {
                64 * 1024
            } else if clevel == 7 {
                128 * 1024
            } else if clevel == 8 {
                256 * 1024
            } else {
                512 * 1024
            };
            blocksize = blocksize * typesize;
            if blocksize > 4 * 1024 * 1024 {
                blocksize = 4 * 1024 * 1024;
            }
            if blocksize < 32 * 1024 {
                blocksize = 32 * 1024;
            }
        }
    }
    if blocksize > nbytes {
        blocksize = nbytes;
    }
    if blocksize > typesize {
        proof { crate::arith::lemma_div_mul_le(blocksize as int, typesize as int); }
        blocksize = blocksize / typesize * typesize;
    }
    context.blocksize = blocksize;
    0
}

/// Picks the next compression parameters; this tuner keeps them. Returns 0.
pub fn blosc_stune_next_cparams(context: &mut TunerContext) -> (r: i32)
    ensures
        r == 0,
        *final(context) == *old(context),
{
    0
}

/// Releases the tuner; it holds nothing. Returns 0.
pub fn blosc_stune_free(context: &mut TunerContext) -> (r: i32)
    ensures
        r == 0,
        *final(context) == *old(context),
{
    0
}

} // verus!
