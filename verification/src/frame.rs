//! The frame format: blocks behind a header, each with its size, closed by an
//! end mark and guarded by optional checksums.
//!
//! ```text
//! magic(4) | descriptor(3..15) | block | block | ... | end mark(4) | checksum(0..4)
//! ```
use vstd::prelude::*;

pub mod compress;
pub mod cuts;
pub mod decode;
pub mod decoder;
pub mod economy;
pub mod ending;
pub mod laws;
pub mod pieces;
pub mod progress;
pub mod round_trip;
pub mod sizes;
pub mod skipping;
pub mod strict;

pub use compress::{compress_frame, BlockCompressMode, CDict, Cctx};
pub use decode::{decompress, get_frame_info, header_size, Dctx, Progress};
pub use decoder::DStage;

verus! {

pub const LZ4F_VERSION: u32 = 100;
/// The least size of a frame header.
pub const HEADER_SIZE_MIN: usize = 7;
/// The greatest size of a frame header.
pub const HEADER_SIZE_MAX: usize = 19;
/// The size of a block header: little-endian, the top bit set for a block that
/// is stored as it is.
pub const BH_SIZE: usize = 4;
/// The size of the optional checksum behind a block.
pub const BF_SIZE: usize = 4;
pub const MAGICNUMBER: u32 = 0x184D_2204;
pub const MAGIC_SKIPPABLE_START: u32 = 0x184D_2A50;
pub const MIN_SIZE_TO_KNOW_HEADER_LENGTH: usize = 5;
pub const BLOCK_UNCOMPRESSED_FLAG: u32 = 0x8000_0000;
/// The block size that is used where none is asked for.
pub const BLOCKSIZEID_DEFAULT: i32 = 4;
/// The highest compression level.
pub const LZ4HC_CLEVEL_MAX: i32 = 12;
/// One past the last error number.
pub const ERROR_MAX_CODE: i32 = 24;

/// What can go wrong with a frame. The order is that of the error numbers,
/// which start at one.
#[derive(Debug, Clone, Copy, PartialEq, Eq, Structural)]
pub enum Error {
    Generic,
    MaxBlockSizeInvalid,
    BlockModeInvalid,
    ParameterInvalid,
    CompressionLevelInvalid,
    HeaderVersionWrong,
    BlockChecksumInvalid,
    ReservedFlagSet,
    AllocationFailed,
    SrcSizeTooLarge,
    DstMaxSizeTooSmall,
    FrameHeaderIncomplete,
    FrameTypeUnknown,
    FrameSizeWrong,
    SrcPtrWrong,
    DecompressionFailed,
    HeaderChecksumInvalid,
    ContentChecksumInvalid,
    FrameDecodingAlreadyStarted,
    CompressionStateUninitialized,
    ParameterNull,
    IoWrite,
    IoRead,
}

pub type Res<T> = Result<T, Error>;

impl Error {
    /// The number of an error.
    pub open spec fn number_spec(self) -> i32 {
        match self {
            Error::Generic => 1,
            Error::MaxBlockSizeInvalid => 2,
            Error::BlockModeInvalid => 3,
            Error::ParameterInvalid => 4,
            Error::CompressionLevelInvalid => 5,
            Error::HeaderVersionWrong => 6,
            Error::BlockChecksumInvalid => 7,
            Error::ReservedFlagSet => 8,
            Error::AllocationFailed => 9,
            Error::SrcSizeTooLarge => 10,
            Error::DstMaxSizeTooSmall => 11,
            Error::FrameHeaderIncomplete => 12,
            Error::FrameTypeUnknown => 13,
            Error::FrameSizeWrong => 14,
            Error::SrcPtrWrong => 15,
            Error::DecompressionFailed => 16,
            Error::HeaderChecksumInvalid => 17,
            Error::ContentChecksumInvalid => 18,
            Error::FrameDecodingAlreadyStarted => 19,
            Error::CompressionStateUninitialized => 20,
            Error::ParameterNull => 21,
            Error::IoWrite => 22,
            Error::IoRead => 23,
        }
    }

    /// The number of an error.
    #[verifier::when_used_as_spec(number_spec)]
    pub fn number(self) -> (n: i32)
        ensures
            n == self.number_spec(),
            0 < n < ERROR_MAX_CODE,
    {
        match self {
            Error::Generic => 1,
            Error::MaxBlockSizeInvalid => 2,
            Error::BlockModeInvalid => 3,
            Error::ParameterInvalid => 4,
            Error::CompressionLevelInvalid => 5,
            Error::HeaderVersionWrong => 6,
            Error::BlockChecksumInvalid => 7,
            Error::ReservedFlagSet => 8,
            Error::AllocationFailed => 9,
            Error::SrcSizeTooLarge => 10,
            Error::DstMaxSizeTooSmall => 11,
            Error::FrameHeaderIncomplete => 12,
            Error::FrameTypeUnknown => 13,
            Error::FrameSizeWrong => 14,
            Error::SrcPtrWrong => 15,
            Error::DecompressionFailed => 16,
            Error::HeaderChecksumInvalid => 17,
            Error::ContentChecksumInvalid => 18,
            Error::FrameDecodingAlreadyStarted => 19,
            Error::CompressionStateUninitialized => 20,
            Error::ParameterNull => 21,
            Error::IoWrite => 22,
            Error::IoRead => 23,
        }
    }

    /// The error as a size: its number, negated and wrapped. Tell it from a
    /// size with `is_error`.
    pub fn to_code(self) -> (code: usize)
        ensures
            code == usize::MAX + 1 - self.number(),
    {
        usize::MAX - (self.number() - 1) as usize
    }
}

/// Whether a returned size is an error.
pub fn is_error(code: usize) -> (b: bool)
    ensures
        b == (code > usize::MAX + 1 - ERROR_MAX_CODE),
{
    code > usize::MAX - (ERROR_MAX_CODE - 1) as usize
}

/// The error number in a returned size, or zero where it is no error.
pub fn error_code(result: usize) -> (n: i32)
    ensures
        n == (if result > usize::MAX + 1 - ERROR_MAX_CODE {
            usize::MAX + 1 - result
        } else {
            0
        }),
{
    if !is_error(result) {
        return 0;
    }
    (usize::MAX - result) as i32 + 1
}

/// An error can be told from a size, and its number read back, on every host.
pub proof fn law_error_codes(e: Error)
    ensures
        ({
            let code = usize::MAX + 1 - e.number();
            &&& 0 <= code <= usize::MAX
            &&& code > usize::MAX + 1 - ERROR_MAX_CODE
            &&& usize::MAX + 1 - code == e.number()
        }),
{
}

/// The names of the error numbers, from zero for no error to one past the
/// last.
pub open spec fn error_name_spec(n: int) -> Seq<char> {
    if n == 0 {
        "OK_NoError"@
    } else if n == 1 {
        "ERROR_GENERIC"@
    } else if n == 2 {
        "ERROR_maxBlockSize_invalid"@
    } else if n == 3 {
        "ERROR_blockMode_invalid"@
    } else if n == 4 {
        "ERROR_parameter_invalid"@
    } else if n == 5 {
        "ERROR_compressionLevel_invalid"@
    } else if n == 6 {
        "ERROR_headerVersion_wrong"@
    } else if n == 7 {
        "ERROR_blockChecksum_invalid"@
    } else if n == 8 {
        "ERROR_reservedFlag_set"@
    } else if n == 9 {
        "ERROR_allocation_failed"@
    } else if n == 10 {
        "ERROR_srcSize_tooLarge"@
    } else if n == 11 {
        "ERROR_dstMaxSize_tooSmall"@
    } else if n == 12 {
        "ERROR_frameHeader_incomplete"@
    } else if n == 13 {
        "ERROR_frameType_unknown"@
    } else if n == 14 {
        "ERROR_frameSize_wrong"@
    } else if n == 15 {
        "ERROR_srcPtr_wrong"@
    } else if n == 16 {
        "ERROR_decompressionFailed"@
    } else if n == 17 {
        "ERROR_headerChecksum_invalid"@
    } else if n == 18 {
        "ERROR_contentChecksum_invalid"@
    } else if n == 19 {
        "ERROR_frameDecoding_alreadyStarted"@
    } else if n == 20 {
        "ERROR_compressionState_uninitialized"@
    } else if n == 21 {
        "ERROR_parameter_null"@
    } else if n == 22 {
        "ERROR_io_write"@
    } else if n == 23 {
        "ERROR_io_read"@
    } else {
        "ERROR_maxCode"@
    }
}

/// The name of an error number.
pub fn error_name(n: usize) -> (s: &'static str)
    ensures
        s@ == error_name_spec(n as int),
{
    match n {
        0 => "OK_NoError",
        1 => "ERROR_GENERIC",
        2 => "ERROR_maxBlockSize_invalid",
        3 => "ERROR_blockMode_invalid",
        4 => "ERROR_parameter_invalid",
        5 => "ERROR_compressionLevel_invalid",
        6 => "ERROR_headerVersion_wrong",
        7 => "ERROR_blockChecksum_invalid",
        8 => "ERROR_reservedFlag_set",
        9 => "ERROR_allocation_failed",
        10 => "ERROR_srcSize_tooLarge",
        11 => "ERROR_dstMaxSize_tooSmall",
        12 => "ERROR_frameHeader_incomplete",
        13 => "ERROR_frameType_unknown",
        14 => "ERROR_frameSize_wrong",
        15 => "ERROR_srcPtr_wrong",
        16 => "ERROR_decompressionFailed",
        17 => "ERROR_headerChecksum_invalid",
        18 => "ERROR_contentChecksum_invalid",
        19 => "ERROR_frameDecoding_alreadyStarted",
        20 => "ERROR_compressionState_uninitialized",
        21 => "ERROR_parameter_null",
        22 => "ERROR_io_write",
        23 => "ERROR_io_read",
        _ => "ERROR_maxCode",
    }
}

/// What a frame header says.
#[derive(Debug, Clone, Copy, PartialEq, Eq, Structural)]
pub struct FrameInfo {
    pub block_size_id: i32,
    /// 0 for linked blocks, 1 for independent ones.
    pub block_mode: i32,
    pub content_checksum: bool,
    /// 0 for a normal frame, 1 for one to skip.
    pub frame_type: i32,
    /// 0 where the size is not known.
    pub content_size: u64,
    pub dict_id: u32,
    pub block_checksum: bool,
}

/// A `FrameInfo` with everything zero.
pub open spec fn no_info() -> FrameInfo {
    FrameInfo {
        block_size_id: 0,
        block_mode: 0,
        content_checksum: false,
        frame_type: 0,
        content_size: 0,
        dict_id: 0,
        block_checksum: false,
    }
}

impl Default for FrameInfo {
    fn default() -> (r: FrameInfo)
        ensures
            r == no_info(),
    {
        FrameInfo {
            block_size_id: 0,
            block_mode: 0,
            content_checksum: false,
            frame_type: 0,
            content_size: 0,
            dict_id: 0,
            block_checksum: false,
        }
    }
}

/// How a frame is to be compressed.
#[derive(Debug, Clone, Copy, PartialEq, Eq, Structural)]
pub struct Preferences {
    pub frame_info: FrameInfo,
    pub compression_level: i32,
    pub auto_flush: bool,
    pub favor_dec_speed: bool,
}

/// Preferences with everything zero.
pub open spec fn no_preferences() -> Preferences {
    Preferences {
        frame_info: no_info(),
        compression_level: 0,
        auto_flush: false,
        favor_dec_speed: false,
    }
}

impl Default for Preferences {
    fn default() -> (r: Preferences)
        ensures
            r == no_preferences(),
    {
        Preferences {
            frame_info: FrameInfo::default(),
            compression_level: 0,
            auto_flush: false,
            favor_dec_speed: false,
        }
    }
}

/// The preferences given, or none.
pub open spec fn given(prefs: Option<&Preferences>) -> Preferences {
    match prefs {
        Some(p) => *p,
        None => no_preferences(),
    }
}

pub fn or_default(prefs: Option<&Preferences>) -> (p: Preferences)
    ensures
        p == given(prefs),
{
    match prefs {
        Some(p) => *p,
        None => Preferences::default(),
    }
}

/// The size of the blocks of a frame, by its number; `None` where there is no
/// such number.
pub open spec fn block_size(id: i32) -> Option<int> {
    if id == 0 || id == 4 {
        Some(0x1_0000)
    } else if id == 5 {
        Some(0x4_0000)
    } else if id == 6 {
        Some(0x10_0000)
    } else if id == 7 {
        Some(0x40_0000)
    } else {
        None
    }
}

/// The size of the blocks of a frame, by its number.
pub fn get_block_size(block_size_id: i32) -> (r: Res<usize>)
    ensures
        match block_size(block_size_id) {
            Some(n) => r matches Ok(m) && m == n,
            None => r == Err::<usize, Error>(Error::MaxBlockSizeInvalid),
        },
{
    let id = if block_size_id == 0 {
        BLOCKSIZEID_DEFAULT
    } else {
        block_size_id
    };
    match id {
        4 => Ok(0x1_0000),
        5 => Ok(0x4_0000),
        6 => Ok(0x10_0000),
        7 => Ok(0x40_0000),
        _ => Err(Error::MaxBlockSizeInvalid),
    }
}

/// The smallest block size, up to the one requested, that holds `len` bytes.
pub open spec fn optimal_bsid_spec(requested: i32, len: int) -> i32 {
    if requested > 4 && len <= 0x1_0000 {
        4
    } else if requested > 5 && len <= 0x4_0000 {
        5
    } else if requested > 6 && len <= 0x10_0000 {
        6
    } else if requested > 7 && len <= 0x40_0000 {
        7
    } else {
        requested
    }
}

/// The smallest block size, up to the one requested, that holds `src_size`
/// bytes.
///
/// A number that stands for no block size comes back as it is, unless a
/// smaller one fits.
pub(crate) fn optimal_bsid(requested: i32, src_size: usize) -> (id: i32)
    requires
        requested <= 8,
    ensures
        id == optimal_bsid_spec(requested, src_size as int),
{
    let mut proposed: i32 = 4;
    let mut max_block_size: usize = 0x1_0000;
    while requested > proposed
        invariant
            4 <= proposed <= 8,
            requested <= 8,
            requested > 4 || proposed == 4,
            requested >= proposed || proposed == 4,
            proposed == 4 ==> max_block_size == 0x1_0000,
            proposed == 5 ==> max_block_size == 0x4_0000,
            proposed == 6 ==> max_block_size == 0x10_0000,
            proposed == 7 ==> max_block_size == 0x40_0000,
            proposed == 8 ==> max_block_size == 0x100_0000,
            proposed > 4 ==> src_size > 0x1_0000,
            proposed > 5 ==> src_size > 0x4_0000,
            proposed > 6 ==> src_size > 0x10_0000,
            proposed > 7 ==> src_size > 0x40_0000,
        decreases 8 - proposed,
    {
        if src_size <= max_block_size {
            return proposed;
        }
        proposed = proposed + 1;
        max_block_size = max_block_size * 4;
    }
    requested
}

/// The most bytes that compressing `src_size` bytes can give, when `buffered`
/// bytes wait in a context.
#[verifier::opaque]
pub open spec fn bound_internal(src_size: int, p: Preferences, buffered: int) -> int {
    let bs = match block_size(p.frame_info.block_size_id) {
        Some(n) => n,
        None => 0x1_0000,
    };
    let waiting = if buffered < bs - 1 {
        buffered
    } else {
        bs - 1
    };
    let most = src_size + waiting;
    let full = most / bs;
    let last = if p.auto_flush || src_size == 0 {
        most % bs
    } else {
        0
    };
    let blocks = full + (if last > 0 {
        1int
    } else {
        0
    });
    let crc = if p.frame_info.block_checksum {
        4int
    } else {
        0
    };
    let end = if p.frame_info.content_checksum {
        8int
    } else {
        4
    };
    (4 + crc) * blocks + bs * full + last + end
}

/// Preferences under which the bound is the largest.
pub open spec fn worst_preferences() -> Preferences {
    Preferences {
        frame_info: FrameInfo {
            block_size_id: 4,
            content_checksum: true,
            block_checksum: true,
            ..no_info()
        },
        ..no_preferences()
    }
}

/// `bound_internal` in a type that holds it for every size.
#[verifier::spinoff_prover]
#[verifier::rlimit(30)]
pub fn compress_bound_internal(src_size: usize, p: &Preferences, already_buffered: usize) -> (r: u128)
    ensures
        r == bound_internal(src_size as int, *p, already_buffered as int),
        r < 0x1_0000_0000_0000_0000_0000,
{
    let bs: u128 = match get_block_size(p.frame_info.block_size_id) {
        Ok(n) => n as u128,
        Err(_) => 0x1_0000,
    };
    let waiting: u128 = if (already_buffered as u128) < bs - 1 {
        already_buffered as u128
    } else {
        bs - 1
    };
    let most: u128 = src_size as u128 + waiting;
    let full: u128 = most / bs;
    let last: u128 = if p.auto_flush || src_size == 0 {
        most % bs
    } else {
        0
    };
    let blocks: u128 = full + (if last > 0 {
        1u128
    } else {
        0
    });
    let crc: u128 = if p.frame_info.block_checksum {
        4
    } else {
        0
    };
    let end: u128 = if p.frame_info.content_checksum {
        8
    } else {
        4
    };
    assert(full <= most) by (nonlinear_arith)
        requires
            full == most / bs,
            bs >= 1,
    ;
    assert((4 + crc) * blocks <= 8 * blocks) by (nonlinear_arith)
        requires
            crc <= 4,
    ;
    assert(bs * full <= most) by (nonlinear_arith)
        requires
            full == most / bs,
            bs >= 1,
    ;
    assert(last <= most);
    let heads: u128 = (4 + crc) * blocks;
    let bodies: u128 = bs * full;
    assert(heads + bodies + last + end == bound_internal(
        src_size as int,
        *p,
        already_buffered as int,
    )) by {
        reveal(bound_internal);
    }
    heads + bodies + last + end
}

/// The most bytes that `Cctx::update` or `Cctx::flush` can write for
/// `src_size` bytes of input. Without preferences, the most under any.
pub open spec fn compress_bound_spec(src_size: int, prefs: Option<&Preferences>) -> int {
    match prefs {
        Some(p) => if p.auto_flush {
            bound_internal(src_size, *p, 0)
        } else {
            bound_internal(src_size, *p, usize::MAX as int)
        },
        None => bound_internal(src_size, worst_preferences(), usize::MAX as int),
    }
}

/// The most bytes that `Cctx::update` or `Cctx::flush` can write for
/// `src_size` bytes of input.
pub fn compress_bound(src_size: usize, prefs: Option<&Preferences>) -> (n: usize)
    requires
        compress_bound_spec(src_size as int, prefs) <= usize::MAX,
    ensures
        n == compress_bound_spec(src_size as int, prefs),
{
    match prefs {
        Some(p) => if p.auto_flush {
            compress_bound_internal(src_size, p, 0) as usize
        } else {
            compress_bound_internal(src_size, p, usize::MAX) as usize
        },
        None => {
            let worst = Preferences {
                frame_info: FrameInfo {
                    block_size_id: 4,
                    content_checksum: true,
                    block_checksum: true,
                    ..FrameInfo::default()
                },
                ..Preferences::default()
            };
            assert(worst == worst_preferences());
            compress_bound_internal(src_size, &worst, usize::MAX) as usize
        },
    }
}

/// The most bytes that a frame of `src_size` bytes can take.
pub open spec fn compress_frame_bound_spec(src_size: int, prefs: Option<&Preferences>) -> int {
    let p = Preferences { auto_flush: true, ..given(prefs) };
    HEADER_SIZE_MAX + bound_internal(src_size, p, 0)
}

/// The most bytes that a frame of `src_size` bytes can take.
pub fn compress_frame_bound(src_size: usize, prefs: Option<&Preferences>) -> (n: usize)
    requires
        compress_frame_bound_spec(src_size as int, prefs) <= usize::MAX,
    ensures
        n == compress_frame_bound_spec(src_size as int, prefs),
{
    let mut p = or_default(prefs);
    p.auto_flush = true;
    HEADER_SIZE_MAX + compress_bound_internal(src_size, &p, 0) as usize
}

/// The sum of three sizes, or the largest size where they come to more.
pub open spec fn total(a: usize, b: usize, c: usize) -> int {
    if a + b + c <= usize::MAX {
        a + b + c
    } else {
        usize::MAX as int
    }
}

/// The sum of three sizes, or the largest size where they come to more.
pub fn heap_total(a: usize, b: usize, c: usize) -> (n: usize)
    ensures
        n == total(a, b, c),
{
    a.saturating_add(b).saturating_add(c)
}

} // verus!
