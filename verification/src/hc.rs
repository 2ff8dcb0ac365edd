//! The high-compression compressor: more effort on finding matches, for the
//! same block format.
//!
//! Levels up to two hash four and eight bytes at a time; levels three to nine
//! follow chains of positions with equal hashes and weigh overlapping matches
//! against each other; higher levels price whole runs of sequences.
//!
//! Positions are known by index. The bytes of a [`SrcView`] have consecutive
//! indices: first its dictionary, then the history, then the block.
use vstd::prelude::*;
use crate::block::compress::{bound, LZ4_MAX_INPUT_SIZE};
use crate::block::table::host_little_endian;
use crate::format::{enc_block, encodes};
use crate::bytes::{le32, le64, read_le32, read_le64};

pub mod chase;
pub mod dictionaries;
pub mod filled;
pub mod heedful;
pub mod laws;
pub mod lazy;
pub mod mid;
pub mod optimal;
pub mod output;
pub mod room;
pub mod runs;
pub mod scene;
pub mod search;
pub mod slots;
pub mod thorough;
pub mod unmissed;

pub use mid::{compress_mid, mid_fill_htable, mid_hash4, mid_hash7};
pub use scene::{MidDictCtx, SrcView};
pub use search::fill_chain_table;

use chase::Chains;
use lazy::{compress_hash_chain, same_but_tables};
use mid::MidTables;
use optimal::{compress_optimal, Effort, OPT_NUM};
use output::{gave, Done};
use scene::{in_order, scene_of, Scene};
use search::chains;

verus! {

pub const LZ4HC_CLEVEL_MIN: i32 = 2;
pub const LZ4HC_CLEVEL_DEFAULT: i32 = 9;
/// The least level of the optimal parser.
pub const LZ4HC_CLEVEL_OPT_MIN: i32 = 10;
pub const LZ4HC_CLEVEL_MAX: i32 = 12;
/// Entries of the hash table.
pub const HASH_ENTRIES: usize = 32768;
/// Entries of the chain table.
pub const CHAIN_ENTRIES: usize = 65536;
/// Entries of each of the two tables of the lower levels.
pub const LZ4MID_HASHTABLESIZE: usize = 16384;
/// How far a fresh context's first index is from zero.
pub const START_OFFSET: u32 = 65536;

/// The level that is used for a level asked for.
pub open spec fn clamp_level_spec(level: i32) -> i32 {
    if level < 1 {
        LZ4HC_CLEVEL_DEFAULT
    } else if level > LZ4HC_CLEVEL_MAX {
        LZ4HC_CLEVEL_MAX
    } else {
        level
    }
}

/// The level that is used for a level asked for: the default one for levels
/// below one, and the highest for levels beyond it.
#[verifier::when_used_as_spec(clamp_level_spec)]
pub fn clamp_level(level: i32) -> (r: i32)
    ensures
        r == clamp_level_spec(level),
{
    if level < 1 {
        LZ4HC_CLEVEL_DEFAULT
    } else if level > LZ4HC_CLEVEL_MAX {
        LZ4HC_CLEVEL_MAX
    } else {
        level
    }
}

/// A level that is used stands for itself, and lies between one and the
/// highest.
pub proof fn law_clamp_level(level: i32)
    ensures
        clamp_level(clamp_level(level)) == clamp_level(level),
        1 <= clamp_level(level) <= LZ4HC_CLEVEL_MAX,
{
}

/// Whether a level hashes four and eight bytes instead of following chains.
pub fn is_mid_level(level: i32) -> (b: bool)
    ensures
        b == (clamp_level(level) <= 2),
{
    clamp_level(level) <= 2
}

/// How a level looks for matches.
#[derive(Clone, Copy, PartialEq, Eq, Structural)]
pub enum Strategy {
    Mid,
    HashChain,
    Optimal,
}

/// What a level stands for.
#[derive(Clone, Copy, PartialEq, Eq, Structural)]
pub struct CompressionParams {
    pub strategy: Strategy,
    /// How many candidates are tried for a match.
    pub searches: usize,
    /// A match beyond this length is taken at once by the optimal parser.
    pub target_length: usize,
}

/// What a level stands for.
pub open spec fn params_of(level: i32) -> CompressionParams {
    let l = clamp_level(level);
    if l <= 2 {
        CompressionParams { strategy: Strategy::Mid, searches: 2, target_length: 16 }
    } else if l == 3 {
        CompressionParams { strategy: Strategy::HashChain, searches: 4, target_length: 16 }
    } else if l == 4 {
        CompressionParams { strategy: Strategy::HashChain, searches: 8, target_length: 16 }
    } else if l == 5 {
        CompressionParams { strategy: Strategy::HashChain, searches: 16, target_length: 16 }
    } else if l == 6 {
        CompressionParams { strategy: Strategy::HashChain, searches: 32, target_length: 16 }
    } else if l == 7 {
        CompressionParams { strategy: Strategy::HashChain, searches: 64, target_length: 16 }
    } else if l == 8 {
        CompressionParams { strategy: Strategy::HashChain, searches: 128, target_length: 16 }
    } else if l == 9 {
        CompressionParams { strategy: Strategy::HashChain, searches: 256, target_length: 16 }
    } else if l == 10 {
        CompressionParams { strategy: Strategy::Optimal, searches: 96, target_length: 64 }
    } else if l == 11 {
        CompressionParams { strategy: Strategy::Optimal, searches: 512, target_length: 128 }
    } else {
        CompressionParams { strategy: Strategy::Optimal, searches: 16384, target_length: 4096 }
    }
}

/// Levels three to nine follow chains, and each tries twice as many candidates
/// as the one before, from four on. Levels below look at two tables, and levels
/// above try more candidates, and take matches at once that are longer, the
/// higher they are.
pub proof fn law_levels(l: i32)
    ensures
        ({
            let p = params_of(l);
            let q = params_of((l + 1) as i32);
            &&& 1 <= l <= 2 <==> p.strategy == Strategy::Mid
            &&& 3 <= l <= 9 || l < 1 <==> p.strategy == Strategy::HashChain
            &&& l == 3 ==> p.searches == 4
            &&& 3 <= l < 9 ==> q.searches == 2 * p.searches
            &&& l < 1 ==> p == params_of(9)
            &&& 10 <= l < 12 ==> p.searches < q.searches && p.target_length < q.target_length
            &&& l == 10 ==> p.searches == 96 && p.target_length == 64
            &&& l >= 12 ==> p.searches == 16384 && p.target_length == 4096
        }),
{
}

/// What a level stands for.
fn compression_params(level: i32) -> (p: CompressionParams)
    ensures
        p == params_of(level),
{
    let l = clamp_level(level);
    if l <= 2 {
        return CompressionParams { strategy: Strategy::Mid, searches: 2, target_length: 16 };
    }
    if l <= 9 {
        let searches: usize = match l {
            3 => 4,
            4 => 8,
            5 => 16,
            6 => 32,
            7 => 64,
            8 => 128,
            _ => 256,
        };
        return CompressionParams { strategy: Strategy::HashChain, searches, target_length: 16 };
    }
    let (searches, target_length): (usize, usize) = match l {
        10 => (96, 64),
        11 => (512, 128),
        _ => (16384, 4096),
    };
    CompressionParams { strategy: Strategy::Optimal, searches, target_length }
}

/// What to do when the output has too little room.
#[derive(Clone, Copy, PartialEq, Eq, Debug, Structural)]
pub enum Limit {
    /// The room is taken to be enough.
    NotLimited,
    /// Give up.
    LimitedOutput,
    /// Compress as much of the input as fits.
    FillOutput,
}

/// What the compressor keeps from block to block.
pub struct HcState {
    pub hash_table: Vec<u32>,
    pub chain_table: Vec<u16>,
    /// The address that follows the last byte of the prefix.
    pub end: usize,
    /// The address of the first byte of the prefix.
    pub prefix_start: usize,
    /// The address of the first byte of the dictionary.
    pub dict_start: usize,
    /// The index of the first byte of the prefix.
    pub dict_limit: u32,
    /// The index of the first byte of the dictionary.
    pub low_limit: u32,
    /// The index of the first byte that is not in the tables.
    pub next_to_update: u32,
    pub compression_level: i16,
    pub favor_dec_speed: i8,
    pub dirty: i8,
    /// The address of an attached dictionary context.
    pub dict_ctx: usize,
}

/// `n` entries of the value `v`.
fn filled_u32(n: usize, v: u32) -> (t: Vec<u32>)
    ensures
        t@ == Seq::new(n as nat, |i: int| v),
{
    let mut t: Vec<u32> = Vec::new();
    t.resize(n, v);
    assert(t@ =~= Seq::new(n as nat, |i: int| v));
    t
}

/// `n` entries of the value `v`.
fn filled_u16(n: usize, v: u16) -> (t: Vec<u16>)
    ensures
        t@ == Seq::new(n as nat, |i: int| v),
{
    let mut t: Vec<u16> = Vec::new();
    t.resize(n, v);
    assert(t@ =~= Seq::new(n as nat, |i: int| v));
    t
}

impl HcState {
    /// Whether the tables have their sizes.
    pub open spec fn wf(&self) -> bool {
        &&& self.hash_table@.len() == HASH_ENTRIES
        &&& self.chain_table@.len() == CHAIN_ENTRIES
    }

    /// Forgets every position.
    pub fn clear_tables(&mut self)
        ensures
            final(self).wf(),
            final(self).hash_table@ == Seq::new(HASH_ENTRIES as nat, |i: int| 0u32),
            final(self).chain_table@ == Seq::new(CHAIN_ENTRIES as nat, |i: int| 0xFFFFu16),
            *final(self) == (HcState {
                hash_table: final(self).hash_table,
                chain_table: final(self).chain_table,
                ..*old(self)
            }),
    {
        self.hash_table = filled_u32(HASH_ENTRIES, 0);
        self.chain_table = filled_u16(CHAIN_ENTRIES, 0xFFFF);
    }

    /// The index from which `init_internal` goes on: beyond every index in the
    /// tables, which are cleared once it would become too large.
    pub open spec fn next_start(&self) -> int {
        let used = self.end.wrapping_sub(self.prefix_start).wrapping_add(self.dict_limit as usize);
        if used > 0x4000_0000 {
            START_OFFSET as int
        } else {
            used + START_OFFSET
        }
    }

    /// Starts over with a prefix at the address `start`, with indices that the
    /// tables do not hold.
    pub fn init_internal(&mut self, start: usize)
        ensures
            final(self).dict_limit == old(self).next_start(),
            final(self).low_limit == old(self).next_start(),
            final(self).next_to_update == old(self).next_start(),
            final(self).prefix_start == start,
            final(self).end == start,
            final(self).dict_start == start,
            ({
                let used = old(self).end.wrapping_sub(old(self).prefix_start).wrapping_add(
                    old(self).dict_limit as usize,
                );
                if used > 0x4000_0000 {
                    &&& final(self).hash_table@ == Seq::new(HASH_ENTRIES as nat, |i: int| 0u32)
                    &&& final(self).chain_table@ == Seq::new(
                        CHAIN_ENTRIES as nat,
                        |i: int| 0xFFFFu16,
                    )
                } else {
                    &&& final(self).hash_table == old(self).hash_table
                    &&& final(self).chain_table == old(self).chain_table
                }
            }),
            final(self).compression_level == old(self).compression_level,
            final(self).favor_dec_speed == old(self).favor_dec_speed,
            final(self).dirty == old(self).dirty,
            final(self).dict_ctx == old(self).dict_ctx,
    {
        let buffer_size = self.end.wrapping_sub(self.prefix_start);
        let mut first = buffer_size.wrapping_add(self.dict_limit as usize);
        if first > 0x4000_0000 {
            self.clear_tables();
            first = 0;
        }
        let first = (first + START_OFFSET as usize) as u32;
        self.next_to_update = first;
        self.prefix_start = start;
        self.end = start;
        self.dict_start = start;
        self.dict_limit = first;
        self.low_limit = first;
    }

    /// A state that holds nothing, for the default level.
    pub open spec fn is_fresh(&self) -> bool {
        &&& self.wf()
        &&& self.hash_table@ == Seq::new(HASH_ENTRIES as nat, |i: int| 0u32)
        &&& self.chain_table@ == Seq::new(CHAIN_ENTRIES as nat, |i: int| 0u16)
        &&& self.end == 0 && self.prefix_start == 0 && self.dict_start == 0
        &&& self.dict_limit == 0 && self.low_limit == 0 && self.next_to_update == 0
        &&& self.favor_dec_speed == 0 && self.dirty == 0 && self.dict_ctx == 0
    }

    /// Empties the state, for the default level.
    pub fn init_stream(&mut self)
        ensures
            final(self).is_fresh(),
            final(self).compression_level == LZ4HC_CLEVEL_DEFAULT,
    {
        self.hash_table = filled_u32(HASH_ENTRIES, 0);
        self.chain_table = filled_u16(CHAIN_ENTRIES, 0);
        self.end = 0;
        self.prefix_start = 0;
        self.dict_start = 0;
        self.dict_limit = 0;
        self.low_limit = 0;
        self.next_to_update = 0;
        self.compression_level = 0;
        self.favor_dec_speed = 0;
        self.dirty = 0;
        self.dict_ctx = 0;
        self.set_level(LZ4HC_CLEVEL_DEFAULT);
    }

    /// Sets the level.
    pub fn set_level(&mut self, level: i32)
        ensures
            final(self).compression_level == clamp_level(level),
            *final(self) == (HcState {
                compression_level: final(self).compression_level,
                ..*old(self)
            }),
    {
        self.compression_level = clamp_level(level) as i16;
    }

    /// Sets whether matches are chosen for the speed of decompression.
    pub fn set_favor_dec_speed(&mut self, favor: bool)
        ensures
            final(self).favor_dec_speed == (if favor {
                1int
            } else {
                0
            }),
            *final(self) == (HcState {
                favor_dec_speed: final(self).favor_dec_speed,
                ..*old(self)
            }),
    {
        self.favor_dec_speed = if favor {
            1
        } else {
            0
        };
    }

    /// Empties the state, for the given level.
    pub fn reset_stream(&mut self, level: i32)
        ensures
            final(self).is_fresh(),
            final(self).compression_level == clamp_level(level),
    {
        self.init_stream();
        self.set_level(level);
    }

    /// Readies the state for another stream, for the given level. The tables
    /// stay, and indices go on beyond those they hold; only a state that a
    /// failure left behind is emptied.
    pub fn reset_stream_fast(&mut self, level: i32)
        ensures
            final(self).compression_level == clamp_level(level),
            old(self).dirty != 0 ==> final(self).is_fresh(),
            old(self).dirty == 0 ==> {
                &&& final(self).dict_limit == old(self).dict_limit.wrapping_add(
                    old(self).end.wrapping_sub(old(self).prefix_start) as u32,
                )
                &&& final(self).prefix_start == 0 && final(self).end == 0 && final(self).dict_ctx
                    == 0
                &&& *final(self) == (HcState {
                    dict_limit: final(self).dict_limit,
                    prefix_start: 0,
                    end: 0,
                    dict_ctx: 0,
                    compression_level: final(self).compression_level,
                    ..*old(self)
                })
            },
    {
        if self.dirty != 0 {
            self.init_stream();
        } else {
            self.dict_limit =
            self.dict_limit.wrapping_add(self.end.wrapping_sub(self.prefix_start) as u32);
            self.prefix_start = 0;
            self.end = 0;
            self.dict_ctx = 0;
        }
        self.set_level(level);
    }

    /// Makes the prefix the dictionary, and starts a new prefix at the address
    /// `new_block`.
    pub fn set_external_dict(&mut self, new_block: usize)
        ensures
            *final(self) == (HcState {
                low_limit: old(self).dict_limit,
                dict_start: old(self).prefix_start,
                dict_limit: old(self).dict_limit.wrapping_add(
                    old(self).end.wrapping_sub(old(self).prefix_start) as u32,
                ),
                prefix_start: new_block,
                end: new_block,
                next_to_update: old(self).dict_limit.wrapping_add(
                    old(self).end.wrapping_sub(old(self).prefix_start) as u32,
                ),
                dict_ctx: 0,
                ..*old(self)
            }),
    {
        self.low_limit = self.dict_limit;
        self.dict_start = self.prefix_start;
        self.dict_limit =
        self.dict_limit.wrapping_add(self.end.wrapping_sub(self.prefix_start) as u32);
        self.prefix_start = new_block;
        self.end = new_block;
        self.next_to_update = self.dict_limit;
        self.dict_ctx = 0;
    }

    /// Takes over everything that an attached dictionary context holds.
    pub fn copy_from_dict_ctx(&mut self, d: &MidDictCtx)
        ensures
            final(self).hash_table@ == d.hash_table@,
            final(self).chain_table@ == d.chain_table@,
            final(self).end == d.end,
            final(self).prefix_start == d.prefix_start,
            final(self).dict_start == d.dict_start,
            final(self).dict_limit == d.dict_limit,
            final(self).low_limit == d.low_limit,
            final(self).next_to_update == d.next_to_update,
            final(self).compression_level == d.compression_level,
            final(self).favor_dec_speed == d.favor_dec_speed,
            final(self).dirty == d.dirty,
            final(self).dict_ctx == d.dict_ctx,
    {
        let mut hash: Vec<u32> = Vec::new();
        hash.extend_from_slice(d.hash_table);
        assert(hash@ =~= d.hash_table@);
        self.hash_table = hash;
        let mut chain: Vec<u16> = Vec::new();
        chain.extend_from_slice(d.chain_table);
        assert(chain@ =~= d.chain_table@);
        self.chain_table = chain;
        self.end = d.end;
        self.prefix_start = d.prefix_start;
        self.dict_start = d.dict_start;
        self.dict_limit = d.dict_limit;
        self.low_limit = d.low_limit;
        self.next_to_update = d.next_to_update;
        self.compression_level = d.compression_level;
        self.favor_dec_speed = d.favor_dec_speed;
        self.dirty = d.dirty;
        self.dict_ctx = d.dict_ctx;
    }
}

/// The four bytes at `pos`, low byte first.
pub fn read_u32_le(src: &[u8], pos: usize) -> (v: u32)
    requires
        pos + 4 <= src.len(),
    ensures
        v == le32(src@, pos as int),
{
    read_le32(src, pos)
}

/// The eight bytes at `pos`, low byte first.
pub fn read_u64_le(src: &[u8], pos: usize) -> (v: u64)
    requires
        pos + 8 <= src.len(),
    ensures
        v == le64(src@, pos as int),
{
    read_le64(src, pos)
}

/// The most bytes that a block of `src_size` bytes takes; none for a size that
/// is negative or too large.
pub fn compress_bound(src_size: i32) -> (r: i32)
    ensures
        r == (if 0 <= src_size <= LZ4_MAX_INPUT_SIZE {
            bound(src_size as int)
        } else {
            0
        }),
{
    crate::block::compress::compress_bound(src_size)
}

/// The two tables of the lower levels, which share the hash table.
pub open spec fn mid_tables(c: Chains) -> MidTables {
    MidTables {
        four: c.hash.take(LZ4MID_HASHTABLESIZE as int),
        eight: c.hash.skip(LZ4MID_HASHTABLESIZE as int),
    }
}

/// How an upper level goes about it.
pub open spec fn effort_of(level: i32, favor: bool) -> Effort {
    let p = params_of(level);
    Effort {
        searches: p.searches,
        enough: if p.target_length < OPT_NUM {
            p.target_length
        } else {
            (OPT_NUM - 1) as usize
        },
        full: level >= LZ4HC_CLEVEL_MAX,
        favor,
    }
}

/// What becomes of a block at a level, and the tables afterwards. The lower
/// levels read words low byte first on every host.
pub open spec fn generic_outcome(sc: Scene, c: Chains, level: i32, favor: bool, limit: Limit, room: int) -> (Done, Chains) {
    let n = sc.len() - sc.start;
    let p = params_of(level);
    if n > LZ4_MAX_INPUT_SIZE || room == 0 {
        (Done { block: None, consumed: 0 }, c)
    } else if n == 0 {
        (Done { block: Some((Seq::empty(), Seq::empty())), consumed: 0 }, c)
    } else {
        match p.strategy {
            Strategy::Mid => {
                let even = Scene { little: true, ..sc };
                let (done, t) = even.mid_outcome(mid_tables(c), limit, room);
                (done, Chains { hash: t.four + t.eight, ..c })
            },
            Strategy::HashChain => sc.lazy_outcome(c, limit, room, p.searches),
            Strategy::Optimal => sc.opt_outcome(c, limit, room, effort_of(level, favor)),
        }
    }
}

/// Whether a view is that of the bytes that a state describes.
pub open spec fn describes(s: HcState, v: SrcView) -> bool {
    v.prefix_idx == s.dict_limit && v.dict_idx == s.low_limit
}

/// Whether `r`, `dst` and the state are what compressing comes to on a host of
/// the given byte order.
pub open spec fn compressed_to(s0: HcState, v: SrcView, dict_ctx: Option<&MidDictCtx>, level: i32, limit: Limit, room: int, little: bool, r: (usize, usize), dst: Seq<u8>, s1: HcState) -> bool {
    let (done, c) = generic_outcome(
        scene_of(v, dict_ctx, little),
        chains(s0),
        level,
        s0.favor_dec_speed != 0,
        limit,
        room,
    );
    let n = v.base@.len() - v.src_off;
    &&& gave(done, r, dst)
    &&& chains(s1) == c
    &&& s1.dirty == (if done.block is None && n <= LZ4_MAX_INPUT_SIZE && room > 0 {
        1i8
    } else {
        s0.dirty
    })
    &&& same_but_tables(s1, HcState { dirty: s1.dirty, ..s0 })
}

/// Whether `r` and `dst` are a block for the bytes of `v`: an encoding of as
/// much of them as it says, after what preceded them. With as much room as the
/// bound, there is one for all of them.
pub open spec fn stands_for(v: SrcView, dict_ctx: Option<&MidDictCtx>, room: int, r: (usize, usize), dst: Seq<u8>) -> bool {
    let n = v.base@.len() - v.src_off;
    &&& r.0 > 0 ==> r.1 <= n && encodes(
        scene_of(v, dict_ctx, true).hist(),
        dst.take(r.0 as int),
        v.base@.subrange(v.src_off as int, v.src_off + r.1),
    )
    &&& n <= LZ4_MAX_INPUT_SIZE && room >= bound(n) ==> r.0 > 0 && r.1 == n
}

/// An outcome is a block for its input.
proof fn lemma_stands_for(s0: HcState, v: SrcView, dict_ctx: Option<&MidDictCtx>, level: i32, limit: Limit, room: int, little: bool, r: (usize, usize), dst: Seq<u8>, s1: HcState)
    requires
        s0.wf(),
        in_order(v, dict_ctx),
        v.base@.len() <= usize::MAX,
        room >= 0,
        compressed_to(s0, v, dict_ctx, level, limit, room, little, r, dst, s1),
    ensures
        stands_for(v, dict_ctx, room, r, dst),
{
    let sc = scene_of(v, dict_ctx, little);
    let favor = s0.favor_dec_speed != 0;
    assert(sc.hist() == scene_of(v, dict_ctx, true).hist());
    if sc.len() - sc.start <= LZ4_MAX_INPUT_SIZE {
        sc.law_any_level(chains(s0), level, favor, limit, room);
        let done = generic_outcome(sc, chains(s0), level, favor, limit, room).0;
        if let Some((seqs, last)) = done.block {
            assert(enc_block(seqs, last).len() > 0);
        }
    }
}

/// `compress_generic_internal` on a host of the given byte order.
pub fn compress_generic_ordered(state: &mut HcState, v: &SrcView, dst: &mut [u8], level: i32, limit: Limit, dict_ctx: Option<&MidDictCtx>, little: bool) -> (r: (usize, usize))
    requires
        old(state).wf(),
        in_order(*v, dict_ctx),
        describes(*old(state), *v),
    ensures
        final(state).wf(),
        final(dst)@.len() == old(dst)@.len(),
        compressed_to(
            *old(state),
            *v,
            dict_ctx,
            level,
            limit,
            old(dst)@.len() as int,
            little,
            r,
            final(dst)@,
            *final(state),
        ),
        stands_for(*v, dict_ctx, old(dst)@.len() as int, r, final(dst)@),
{
    let ghost s0 = *state;
    let ghost room = dst@.len() as int;
    let r = compress_at_level(state, v, dst, level, limit, dict_ctx, little);
    proof {
        assert(v.base.len() <= usize::MAX);
        lemma_stands_for(s0, *v, dict_ctx, level, limit, room, little, r, dst@, *state);
    }
    r
}

/// The block of `v` at the given level, on a host of the given byte order.
#[verifier::rlimit(30)]
fn compress_at_level(state: &mut HcState, v: &SrcView, dst: &mut [u8], level: i32, limit: Limit, dict_ctx: Option<&MidDictCtx>, little: bool) -> (r: (usize, usize))
    requires
        old(state).wf(),
        in_order(*v, dict_ctx),
        describes(*old(state), *v),
    ensures
        final(state).wf(),
        final(dst)@.len() == old(dst)@.len(),
        compressed_to(
            *old(state),
            *v,
            dict_ctx,
            level,
            limit,
            old(dst)@.len() as int,
            little,
            r,
            final(dst)@,
            *final(state),
        ),
{
    let n = v.base.len() - v.src_off;
    if n > LZ4_MAX_INPUT_SIZE as usize || dst.len() == 0 {
        return (0, 0);
    }
    if n == 0 {
        dst[0] = 0;
        assert(dst@.take(1) =~= enc_block(Seq::empty(), Seq::empty()));
        return (1, 0);
    }
    let p = compression_params(level);
    let r = match p.strategy {
        Strategy::Mid => {
            let ghost c0 = chains(*state);
            let (four, eight) = state.hash_table.as_mut_slice().split_at_mut(LZ4MID_HASHTABLESIZE);
            assert(four@ =~= mid_tables(c0).four);
            assert(eight@ =~= mid_tables(c0).eight);
            compress_mid(four, eight, v, dst, limit, dict_ctx)
        },
        Strategy::HashChain => compress_hash_chain(
            state,
            v,
            dst,
            limit,
            p.searches,
            dict_ctx,
            little,
        ),
        Strategy::Optimal => {
            let f = Effort {
                searches: p.searches,
                enough: if p.target_length < OPT_NUM {
                    p.target_length
                } else {
                    OPT_NUM - 1
                },
                full: level >= LZ4HC_CLEVEL_MAX,
                favor: state.favor_dec_speed != 0,
            };
            compress_optimal(state, v, dst, limit, f, dict_ctx, little)
        },
    };
    if r.0 == 0 {
        state.dirty = 1;
    }
    r
}

/// Compresses the block of `v` into `dst`. Returns how many bytes that took,
/// none where it failed, and how many bytes of the block they stand for. A
/// state that a failure leaves behind is marked.
pub fn compress_generic_internal(state: &mut HcState, v: &SrcView, dst: &mut [u8], level: i32, limit: Limit, dict_ctx: Option<&MidDictCtx>) -> (r: (usize, usize))
    requires
        old(state).wf(),
        in_order(*v, dict_ctx),
        describes(*old(state), *v),
    ensures
        final(state).wf(),
        final(dst)@.len() == old(dst)@.len(),
        exists|little: bool| #[trigger]
            compressed_to(
                *old(state),
                *v,
                dict_ctx,
                level,
                limit,
                old(dst)@.len() as int,
                little,
                r,
                final(dst)@,
                *final(state),
            ),
        stands_for(*v, dict_ctx, old(dst)@.len() as int, r, final(dst)@),
{
    let little = host_little_endian();
    compress_generic_ordered(state, v, dst, level, limit, dict_ctx, little)
}

} // verus!
