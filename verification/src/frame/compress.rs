//! Compressing frames: a context that is begun, given input and ended.
use vstd::prelude::*;
use crate::block::entry::{
    clamped, compress_continue_ordered, compress_fast_ordered, fast_outcome, history, next_outcome,
    outcome, trimmed,
};
use crate::block::parse::{Env, Outcome};
use crate::block::stream::{dict_cells, reachable, StreamState, WINDOW};
use crate::block::table::{host_little_endian, Cells, TableType};
use crate::block::Input;
use crate::bytes::{copy_from, le32_bytes, le64_bytes, same_outside, splice, write_le32, write_le64};
use crate::format::enc_block;
use crate::xxh::{xxh32, xxh32_digest, xxh32_reset, xxh32_spec, xxh32_update, Xxh32State};
use super::{
    block_size, bound_internal, compress_bound_internal, compress_frame_bound_spec, get_block_size,
    given, heap_total, total, optimal_bsid, optimal_bsid_spec, or_default, Error, FrameInfo,
    Preferences, Res, BF_SIZE, BH_SIZE, BLOCKSIZEID_DEFAULT, HEADER_SIZE_MAX, LZ4F_VERSION,
    MAGICNUMBER,
};

verus! {

/// Whether blocks are compressed, or stored as they are.
#[derive(Clone, Copy, PartialEq, Eq, Structural)]
pub enum BlockCompressMode {
    Compressed,
    Uncompressed,
}

/// What a stream of blocks keeps: its table, the index of the next byte, and
/// how much history precedes it.
#[verifier::ext_equal]
pub struct Track {
    pub cells: Cells,
    pub offset: u32,
    pub size: u32,
}

/// The track of a stream.
pub open spec fn track_of(s: StreamState) -> Track {
    Track { cells: s.table@, offset: s.current_offset, size: s.dict_size }
}

/// The track of a stream that has seen nothing.
pub open spec fn no_track() -> Track {
    Track { cells: Cells::zero(TableType::U32), offset: 0, size: 0 }
}

/// What the next block of a stream is compressed under.
pub open spec fn stream_env(src: Seq<u8>, room: int, t: Track, dict: Seq<u8>, prefix: bool, acceleration: i32, little: bool) -> Env {
    Env {
        src,
        hist: history(dict, t.size),
        start: t.offset,
        apart: !prefix,
        attached: None,
        tt: TableType::U32,
        little,
        accel: clamped(acceleration),
        room,
        limited: true,
        fill: false,
    }
}

proof fn lemma_next_outcome(src: Seq<u8>, room: int, s: StreamState, dict: Seq<u8>, prefix: bool, acceleration: i32, little: bool)
    requires
        prefix || s.dict_size >= 4,
    ensures
        next_outcome(src, room, s, dict, prefix, None, acceleration, little) == outcome(
            stream_env(src, room, track_of(s), dict, prefix, acceleration, little),
            s.table@,
        ),
{
    let t = trimmed(s, src.len() as int, prefix, false);
    let mode = crate::block::entry::stream_mode(prefix, false, acceleration, little);
    assert(crate::block::entry::block_env(src, room, t, dict, None, mode) =~= stream_env(
        src,
        room,
        track_of(s),
        dict,
        prefix,
        acceleration,
        little,
    ));
}

/// The acceleration that a compression level asks for: the more negative the
/// level, the faster.
pub open spec fn acceleration_of(level: i32) -> i32 {
    if level < -65536 {
        65537
    } else if level < 0 {
        (1 - level) as i32
    } else {
        1
    }
}

/// What a compression context holds.
#[verifier::ext_equal]
pub struct Encoder {
    pub stage: u32,
    pub prefs: Preferences,
    /// The size of a full block.
    pub block: int,
    /// Input that waits to fill a block.
    pub buffered: Seq<u8>,
    /// How much input there was since the frame was begun.
    pub total: u64,
    /// The stream that linked blocks are part of.
    pub track: Track,
    /// The history of the next linked block.
    pub dict: Seq<u8>,
    /// The dictionary of the frame.
    pub frame_dict: Seq<u8>,
    pub mode: BlockCompressMode,
}

/// The last 64 KB of `s`.
pub open spec fn window_of(s: Seq<u8>) -> Seq<u8> {
    if s.len() > 0x1_0000 {
        s.skip(s.len() - 0x1_0000)
    } else {
        s
    }
}

/// The checksum behind the bytes of a block.
pub open spec fn block_crc(p: Preferences, payload: Seq<u8>) -> Seq<u8> {
    if p.frame_info.block_checksum {
        le32_bytes(xxh32_spec(payload, 0))
    } else {
        Seq::empty()
    }
}

/// A block as it stands in a frame, from the bytes it was compressed to, if it
/// was.
pub open spec fn block_bytes(p: Preferences, chunk: Seq<u8>, packed: Option<Seq<u8>>) -> Seq<u8> {
    match packed {
        Some(c) => le32_bytes(c.len() as u32) + c + block_crc(p, c),
        None => le32_bytes((chunk.len() + 0x8000_0000) as u32) + chunk + block_crc(p, chunk),
    }
}

/// The bytes of an outcome, where they are fewer than `len`.
pub open spec fn smaller(o: Outcome, len: int) -> Option<Seq<u8>> {
    match o.block {
        Some((seqs, last)) => if enc_block(seqs, last).len() < len {
            Some(enc_block(seqs, last))
        } else {
            None
        },
        None => None,
    }
}

/// How many bytes the blocks of `n` bytes of input take at most.
#[verifier::opaque]
pub open spec fn cost(p: Preferences, block: int, n: int) -> int {
    let over = crc_size(p) + 4;
    n / block * (block + over) + (if p.auto_flush && n % block > 0 {
        n % block + over
    } else {
        0
    })
}

/// The size of the checksum behind a block.
pub open spec fn crc_size(p: Preferences) -> int {
    if p.frame_info.block_checksum {
        4
    } else {
        0
    }
}

/// The space that a block of `n` bytes is compressed in: one byte less, so that
/// it has to become smaller.
pub open spec fn ample(n: int) -> int {
    if n > 1 {
        n - 1
    } else {
        1
    }
}

/// The space that a block of `n` bytes is compressed in, with `left` bytes for
/// the block and its header.
pub open spec fn space_in(n: int, left: int) -> int {
    if left - BH_SIZE < ample(n) {
        left - BH_SIZE
    } else {
        ample(n)
    }
}

impl Encoder {
    pub open spec fn linked(self) -> bool {
        self.prefs.frame_info.block_mode == 0
    }

    /// Whether the context is in order.
    pub open spec fn wf(self) -> bool {
        &&& self.stage == 1 ==> {
            &&& block_size(self.prefs.frame_info.block_size_id) == Some(self.block)
            &&& self.buffered.len() < self.block
            &&& self.prefs.auto_flush ==> self.buffered.len() == 0
            &&& self.linked() ==> {
                &&& self.track.cells.wf()
                &&& self.track.cells.tt == TableType::U32
                &&& self.track.size == self.dict.len()
                &&& self.dict.len() <= 0x1_0000
                &&& self.track.size <= self.track.offset
            }
            &&& self.frame_dict.len() == 0 || 8 <= self.frame_dict.len() <= 0x1_0000
        }
        &&& self.stage != 1 ==> self.buffered.len() == 0
        &&& self.stage <= 1
    }

    /// The compressor's outcome for `chunk` as the next block, with `space`
    /// bytes to write to.
    #[verifier::opaque]
    pub open spec fn attempt(self, chunk: Seq<u8>, space: int, little: bool) -> Outcome {
        let accel = acceleration_of(self.prefs.compression_level);
        if self.linked() {
            outcome(
                stream_env(chunk, space, self.track, self.dict, true, accel, little),
                self.track.cells,
            )
        } else if self.frame_dict.len() == 0 {
            fast_outcome(chunk, space, accel, little)
        } else {
            let cells = dict_cells(self.frame_dict, true, little);
            let t = Track { cells, offset: WINDOW, size: self.frame_dict.len() as u32 };
            outcome(stream_env(chunk, space, t, self.frame_dict, false, accel, little), cells)
        }
    }

    /// What `chunk` is compressed to as the next block, if that makes it
    /// smaller.
    pub open spec fn packed(self, chunk: Seq<u8>, space: int, mode: BlockCompressMode, little: bool) -> Option<Seq<u8>> {
        if mode == BlockCompressMode::Compressed {
            smaller(self.attempt(chunk, space, little), chunk.len() as int)
        } else {
            None
        }
    }

    /// The bytes of `chunk` as the next block of the frame, compressed in no
    /// more than `space` bytes.
    #[verifier::opaque]
    pub open spec fn block_in(self, chunk: Seq<u8>, space: int, mode: BlockCompressMode, little: bool) -> Seq<u8> {
        block_bytes(self.prefs, chunk, self.packed(chunk, space, mode, little))
    }

    /// The bytes of `chunk` as the next block of the frame.
    pub open spec fn block_for(self, chunk: Seq<u8>, mode: BlockCompressMode, little: bool) -> Seq<u8> {
        self.block_in(chunk, ample(chunk.len() as int), mode, little)
    }

    /// The context after `chunk` became a block, compressed in no more than
    /// `space` bytes.
    #[verifier::opaque]
    pub open spec fn after_in(self, chunk: Seq<u8>, space: int, mode: BlockCompressMode, little: bool) -> Encoder {
        if self.linked() {
            let dict = window_of(self.dict + chunk);
            let track = Track {
                cells: if mode == BlockCompressMode::Compressed {
                    self.attempt(chunk, space, little).cells
                } else {
                    self.track.cells
                },
                offset: (self.track.offset + chunk.len()) as u32,
                size: dict.len() as u32,
            };
            Encoder { buffered: Seq::empty(), track, dict, ..self }
        } else {
            Encoder { buffered: Seq::empty(), ..self }
        }
    }

    /// The context after `chunk` became a block.
    pub open spec fn after(self, chunk: Seq<u8>, mode: BlockCompressMode, little: bool) -> Encoder {
        self.after_in(chunk, ample(chunk.len() as int), mode, little)
    }

    /// `data` cut into blocks that have to fit in `left` bytes: their bytes,
    /// unless one does not fit, and the context afterwards. A frame of which a
    /// block does not fit is over.
    pub open spec fn blocks_in(self, data: Seq<u8>, left: int, mode: BlockCompressMode, little: bool) -> (Option<Seq<u8>>, Encoder)
        decreases data.len(),
    {
        let n = self.next_len(data.len() as int);
        if 0 < n <= data.len() {
            let chunk = data.take(n);
            let space = space_in(n, left);
            let block = self.block_in(chunk, space, mode, little);
            let e = self.after_in(chunk, space, mode, little);
            if left <= BH_SIZE {
                (None, Encoder { stage: 0, buffered: Seq::empty(), ..self })
            } else if block.len() > left {
                (None, Encoder { stage: 0, ..e })
            } else {
                let (rest, e1) = e.blocks_in(data.skip(n), left - block.len(), mode, little);
                (
                    match rest {
                        Some(rest) => Some(block + rest),
                        None => None,
                    },
                    e1,
                )
            }
        } else {
            (Some(Seq::empty()), Encoder { buffered: data, ..self })
        }
    }

    /// How many of `n` bytes the next block takes: none where they do not fill
    /// one and are not to be flushed.
    pub open spec fn next_len(self, n: int) -> int {
        if 0 < self.block <= n {
            self.block
        } else if self.prefs.auto_flush && n > 0 {
            n
        } else {
            0
        }
    }

    /// `data` cut into blocks: their bytes, and the context afterwards. What
    /// does not fill a block waits, unless it is to be flushed.
    pub open spec fn blocks(self, data: Seq<u8>, mode: BlockCompressMode, little: bool) -> (Seq<u8>, Encoder)
        decreases data.len(),
    {
        if 0 < self.block <= data.len() {
            let chunk = data.take(self.block);
            let (rest, e) = self.after(chunk, mode, little).blocks(
                data.skip(self.block),
                mode,
                little,
            );
            (self.block_for(chunk, mode, little) + rest, e)
        } else if self.prefs.auto_flush && data.len() > 0 {
            (self.block_for(data, mode, little), self.after(data, mode, little))
        } else {
            (Seq::empty(), Encoder { buffered: data, ..self })
        }
    }

    /// What flushing does with `room` bytes to write to.
    pub open spec fn flushed(self, room: int, little: bool) -> (Res<Seq<u8>>, Encoder) {
        if self.buffered.len() == 0 {
            (Ok(Seq::empty()), self)
        } else if self.stage != 1 {
            (Err(Error::CompressionStateUninitialized), self)
        } else if room < self.buffered.len() + BH_SIZE + BF_SIZE {
            (Err(Error::DstMaxSizeTooSmall), self)
        } else {
            (
                Ok(self.block_for(self.buffered, self.mode, little)),
                self.after(self.buffered, self.mode, little),
            )
        }
    }

    /// Whether `src` is refused before anything is written to the `room` bytes
    /// at hand.
    pub open spec fn refuses(self, src: Seq<u8>, mode: BlockCompressMode, room: int) -> bool {
        ||| self.stage != 1
        ||| room < bound_internal(src.len() as int, self.prefs, self.buffered.len() as int)
        ||| mode == BlockCompressMode::Uncompressed && room < src.len()
        ||| self.mode != mode && 0 < self.buffered.len() && room < self.buffered.len() + BH_SIZE
            + BF_SIZE
    }

    /// What giving `src` does with `room` bytes to write to.
    pub open spec fn updated(self, src: Seq<u8>, mode: BlockCompressMode, room: int, little: bool) -> (Res<Seq<u8>>, Encoder) {
        if self.stage != 1 {
            (Err(Error::CompressionStateUninitialized), self)
        } else if room < bound_internal(src.len() as int, self.prefs, self.buffered.len() as int) {
            (Err(Error::DstMaxSizeTooSmall), self)
        } else if mode == BlockCompressMode::Uncompressed && room < src.len() {
            (Err(Error::DstMaxSizeTooSmall), self)
        } else {
            let (head, e) = if self.mode != mode {
                self.flushed(room, little)
            } else {
                (Ok(Seq::empty()), self)
            };
            match head {
                Err(x) => (Err(x), e),
                Ok(head) => {
                    let e1 = Encoder { mode, ..e };
                    if room - head.len() < cost(e1.prefs, e1.block, (e1.buffered.len() + src.len()) as int) {
                        let (bytes, e2) = e1.blocks_in(
                            e1.buffered + src,
                            room - head.len(),
                            mode,
                            little,
                        );
                        match bytes {
                            Some(bytes) => (
                                Ok(head + bytes),
                                Encoder { total: (self.total + src.len()) as u64, ..e2 },
                            ),
                            None => (Err(Error::DstMaxSizeTooSmall), e2),
                        }
                    } else {
                        let (bytes, e2) = e1.blocks(e1.buffered + src, mode, little);
                        (Ok(head + bytes), Encoder { total: (self.total + src.len()) as u64, ..e2 })
                    }
                },
            }
        }
    }

    /// What ends a frame of the given content.
    pub open spec fn trailer(self, content: Seq<u8>) -> Seq<u8> {
        le32_bytes(0) + (if self.prefs.frame_info.content_checksum {
            le32_bytes(xxh32_spec(content, 0))
        } else {
            Seq::empty()
        })
    }

    /// What ending a frame of the given content leaves at the front of the
    /// `room` bytes to write to, whether or not it succeeds.
    pub open spec fn ending(self, content: Seq<u8>, room: int, little: bool) -> Seq<u8> {
        match self.flushed(room, little).0 {
            Err(_) => Seq::empty(),
            Ok(head) => if room - head.len() < 4 {
                head
            } else if room - head.len() < self.trailer(content).len() {
                head + le32_bytes(0)
            } else {
                head + self.trailer(content)
            },
        }
    }

    /// What ending a frame of the given content does with `room` bytes to
    /// write to.
    pub open spec fn ended(self, content: Seq<u8>, room: int, little: bool) -> (Res<Seq<u8>>, Encoder) {
        let (head, e) = self.flushed(room, little);
        match head {
            Err(x) => (Err(x), e),
            Ok(head) => if room - head.len() < self.trailer(content).len() {
                (Err(Error::DstMaxSizeTooSmall), e)
            } else {
                let e1 = Encoder { stage: 0, ..e };
                if self.prefs.frame_info.content_size != 0 && self.prefs.frame_info.content_size
                    != self.total {
                    (Err(Error::FrameSizeWrong), e1)
                } else {
                    (Ok(head + self.trailer(content)), e1)
                }
            },
        }
    }
}

/// The descriptor in a frame header: flags, block size, and what the flags
/// announce.
pub open spec fn descriptor(p: Preferences) -> Seq<u8> {
    let i = p.frame_info;
    let flg = 64 + (if i.block_mode & 1 != 0 {
        32int
    } else {
        0
    }) + (if i.block_checksum {
        16int
    } else {
        0
    }) + (if i.content_size > 0 {
        8int
    } else {
        0
    }) + (if i.content_checksum {
        4int
    } else {
        0
    }) + (if i.dict_id > 0 {
        1int
    } else {
        0
    });
    seq![flg as u8, (16 * i.block_size_id) as u8] + (if i.content_size > 0 {
        le64_bytes(i.content_size)
    } else {
        Seq::empty()
    }) + (if i.dict_id > 0 {
        le32_bytes(i.dict_id)
    } else {
        Seq::empty()
    })
}

/// The checksum of a descriptor: the second byte of its hash.
pub open spec fn header_checksum_spec(desc: Seq<u8>) -> u8 {
    (xxh32_spec(desc, 0) / 0x100 % 0x100) as u8
}

/// The header of a frame.
#[verifier::opaque]
pub open spec fn frame_header(p: Preferences) -> Seq<u8> {
    le32_bytes(MAGICNUMBER) + descriptor(p) + seq![header_checksum_spec(descriptor(p))]
}

/// The checksum of a descriptor.
pub fn header_checksum(desc: &[u8]) -> (b: u8)
    ensures
        b == header_checksum_spec(desc@),
{
    (xxh32(desc, 0) / 0x100 % 0x100) as u8
}

/// Preferences with the default block size where none is asked for.
pub open spec fn settled_preferences(p: Preferences) -> Preferences {
    if p.frame_info.block_size_id == 0 {
        Preferences {
            frame_info: FrameInfo { block_size_id: BLOCKSIZEID_DEFAULT, ..p.frame_info },
            ..p
        }
    } else {
        p
    }
}

/// The dictionary that a frame is begun with.
pub open spec fn loaded_dict(dict: Option<&[u8]>, cdict: Option<&CDict>) -> Option<Seq<u8>> {
    match (dict, cdict) {
        (Some(d), None) => Some(d@),
        (None, Some(c)) => Some(c.content@),
        _ => None,
    }
}

/// The part of a dictionary that is used: none of one that is too short.
pub open spec fn used_dict(d: Seq<u8>) -> Seq<u8> {
    if d.len() < 8 {
        Seq::empty()
    } else {
        reachable(d)
    }
}

/// A context that has begun no frame yet.
pub open spec fn idle() -> Encoder {
    Encoder {
        stage: 0,
        prefs: super::no_preferences(),
        block: 0,
        buffered: Seq::empty(),
        total: 0,
        track: no_track(),
        dict: Seq::empty(),
        frame_dict: Seq::empty(),
        mode: BlockCompressMode::Compressed,
    }
}

/// A context at the start of a frame.
pub open spec fn begun(p: Preferences, loaded: Option<Seq<u8>>, slow: bool, little: bool) -> Encoder {
    let p1 = settled_preferences(p);
    Encoder {
        stage: 1,
        prefs: p1,
        block: block_size(p1.frame_info.block_size_id)->0,
        buffered: Seq::empty(),
        total: 0,
        track: if p1.frame_info.block_mode == 0 {
            first_track(loaded, slow, little)
        } else {
            no_track()
        },
        dict: first_dict(loaded),
        frame_dict: first_dict(loaded),
        mode: BlockCompressMode::Compressed,
    }
}

/// A dictionary ready for use: its last 64 KB.
pub struct CDict {
    pub content: Vec<u8>,
}

/// A copy of `s[from..to]`.
pub fn copy_slice(s: &[u8], from: usize, to: usize) -> (v: Vec<u8>)
    requires
        from <= to <= s.len(),
    ensures
        v@ == s@.subrange(from as int, to as int),
{
    let mut v: Vec<u8> = Vec::with_capacity(to - from);
    let mut i: usize = from;
    while i < to
        invariant
            from <= i <= to <= s.len(),
            v@ == s@.subrange(from as int, i as int),
        decreases to - i,
    {
        v.push(s[i]);
        i = i + 1;
        assert(v@ =~= s@.subrange(from as int, i as int));
    }
    v
}

/// The last 64 KB of `a` followed by `b`.
pub fn joined_window(a: &[u8], b: &[u8]) -> (v: Vec<u8>)
    requires
        a.len() <= 0x1_0000,
    ensures
        v@ == window_of(a@ + b@),
{
    let max: usize = 0x1_0000;
    if b.len() >= max {
        let v = copy_slice(b, b.len() - max, b.len());
        assert(v@ =~= window_of(a@ + b@));
        return v;
    }
    let drop = if a.len() + b.len() > max {
        a.len() + b.len() - max
    } else {
        0
    };
    let mut v = copy_slice(a, drop, a.len());
    let mut i: usize = 0;
    while i < b.len()
        invariant
            i <= b.len(),
            drop <= a.len(),
            v@ == a@.subrange(drop as int, a@.len() as int) + b@.take(i as int),
        decreases b.len() - i,
    {
        v.push(b[i]);
        i = i + 1;
        assert(v@ =~= a@.subrange(drop as int, a@.len() as int) + b@.take(i as int));
    }
    assert(v@ =~= window_of(a@ + b@));
    v
}

impl CDict {
    /// Takes what matches can reach of a dictionary.
    pub fn new(dict: &[u8]) -> (c: CDict)
        ensures
            c.content@ == window_of(dict@),
    {
        let start = dict.len().saturating_sub(0x1_0000);
        let content = copy_slice(dict, start, dict.len());
        assert(content@ =~= window_of(dict@));
        CDict { content }
    }
}

/// A context that compresses frames.
pub struct Cctx {
    pub version: u32,
    /// 1 while a frame is begun and not ended, otherwise 0.
    pub stage: u32,
    pub prefs: Preferences,
    pub max_block_size: usize,
    /// Input that waits to fill a block, at the front.
    pub tmp: Vec<u8>,
    pub tmp_in_size: usize,
    pub total_in_size: u64,
    pub xxh: Xxh32State,
    /// The stream that linked blocks are part of.
    pub stream: StreamState,
    /// The history of the next linked block.
    pub dict: Vec<u8>,
    /// The dictionary that every independent block starts from.
    pub frame_dict: Vec<u8>,
    pub block_compress_mode: BlockCompressMode,
}

/// A hash state with seed zero and no input.
pub fn new_xxh32() -> (s: Xxh32State)
    ensures
        s.tracks(Seq::empty(), 0),
{
    let mut s = Xxh32State {
        total_len_32: 0,
        large_len: 0,
        v1: 0,
        v2: 0,
        v3: 0,
        v4: 0,
        mem: [0;16],
        memsize: 0,
        reserved: 0,
    };
    xxh32_reset(&mut s, 0);
    s
}

/// How many bytes `v` has room for without allocating, as `Vec::capacity`
/// tells. How much room an allocation leaves is up to the allocator; it is
/// never less than the length.
#[verifier::external_body]
pub(crate) fn allocated(v: &Vec<u8>) -> (n: usize)
    ensures
        n >= v@.len(),
{
    v.capacity()
}

impl View for Cctx {
    type V = Encoder;

    open spec fn view(&self) -> Encoder {
        Encoder {
            stage: self.stage,
            prefs: self.prefs,
            block: self.max_block_size as int,
            buffered: self.tmp@.take(self.tmp_in_size as int),
            total: self.total_in_size,
            track: if self.prefs.frame_info.block_mode == 0 {
                track_of(self.stream)
            } else {
                no_track()
            },
            dict: self.dict@,
            frame_dict: self.frame_dict@,
            mode: self.block_compress_mode,
        }
    }
}

impl Cctx {
    /// Whether the context is in order.
    pub open spec fn wf(&self) -> bool {
        &&& self.intact()
        &&& self@.wf()
        &&& self.tmp_in_size <= self.tmp@.len()
        &&& self.stage == 1 ==> self.tmp@.len() >= self.max_block_size
        &&& exists|data: Seq<u8>| self.xxh.tracks(data, 0)
    }

    /// Whether the parts that do not depend on a frame are in order.
    pub open spec fn intact(&self) -> bool {
        &&& self.stream.table@.wf()
        &&& self.stream.table@.tt == TableType::U32
    }

    pub fn new() -> (c: Cctx)
        ensures
            c.wf(),
            c.version == LZ4F_VERSION,
            c@ == idle(),
            c.xxh.tracks(Seq::empty(), 0),
    {
        let c = Cctx {
            version: LZ4F_VERSION,
            stage: 0,
            prefs: Preferences::default(),
            max_block_size: 0,
            tmp: Vec::new(),
            tmp_in_size: 0,
            total_in_size: 0,
            xxh: new_xxh32(),
            stream: StreamState::new(),
            dict: Vec::new(),
            frame_dict: Vec::new(),
            block_compress_mode: BlockCompressMode::Compressed,
        };
        assert(c.tmp@.take(0) =~= Seq::empty());
        assert(c.xxh.tracks(Seq::empty(), 0));
        c
    }

    /// How much memory the context holds besides itself. The allocator may
    /// have given more than is in use.
    pub fn heap_size(&self) -> (n: usize)
        ensures
            exists|a: usize, b: usize, c: usize|
                a >= self.tmp@.len() && b >= self.dict@.len() && c >= self.frame_dict@.len() && n
                    == #[trigger] total(a, b, c),
    {
        heap_total(allocated(&self.tmp), allocated(&self.dict), allocated(&self.frame_dict))
    }

    /// Begins a frame: writes its header to `dst`, and returns how many bytes
    /// that took.
    ///
    /// A dictionary is given either as bytes or ready for use; with both,
    /// neither is used.
    pub fn begin(&mut self, dst: &mut [u8], dict: Option<&[u8]>, cdict: Option<&CDict>, prefs: Option<&Preferences>) -> (r: Res<usize>)
        requires
            old(self).intact(),
        ensures
            final(self).intact(),
            final(self).version == old(self).version,
            final(dst)@.len() == old(dst)@.len(),
            ({
                let p = settled_preferences(given(prefs));
                if old(dst)@.len() < HEADER_SIZE_MAX {
                    &&& r == Err::<usize, Error>(Error::DstMaxSizeTooSmall)
                    &&& *final(self) == *old(self)
                    &&& final(dst)@ == old(dst)@
                } else if block_size(p.frame_info.block_size_id) is None {
                    &&& r == Err::<usize, Error>(Error::MaxBlockSizeInvalid)
                    &&& *final(self) == (Cctx { prefs: p, ..*old(self) })
                    &&& final(dst)@ == old(dst)@
                } else {
                    &&& r matches Ok(n) && n == frame_header(p).len()
                    &&& final(dst)@ == splice(old(dst)@, 0, frame_header(p))
                    &&& final(self).wf()
                    &&& final(self).xxh.tracks(Seq::empty(), 0)
                    &&& exists|little: bool|
                        final(self)@ == #[trigger] begun(
                            given(prefs),
                            loaded_dict(dict, cdict),
                            cdict is Some,
                            little,
                        )
                }
            }),
    {
        let little = host_little_endian();
        self.begin_ordered(dst, dict, cdict, prefs, little)
    }

    /// `begin` on a host of the given byte order.
    #[verifier::rlimit(30)]
    pub fn begin_ordered(&mut self, dst: &mut [u8], dict: Option<&[u8]>, cdict: Option<&CDict>, prefs: Option<&Preferences>, little: bool) -> (r: Res<usize>)
        requires
            old(self).intact(),
        ensures
            final(self).intact(),
            final(self).version == old(self).version,
            final(dst)@.len() == old(dst)@.len(),
            ({
                let p = settled_preferences(given(prefs));
                if old(dst)@.len() < HEADER_SIZE_MAX {
                    &&& r == Err::<usize, Error>(Error::DstMaxSizeTooSmall)
                    &&& *final(self) == *old(self)
                    &&& final(dst)@ == old(dst)@
                } else if block_size(p.frame_info.block_size_id) is None {
                    &&& r == Err::<usize, Error>(Error::MaxBlockSizeInvalid)
                    &&& *final(self) == (Cctx { prefs: p, ..*old(self) })
                    &&& final(dst)@ == old(dst)@
                } else {
                    &&& r matches Ok(n) && n == frame_header(p).len()
                    &&& final(dst)@ == splice(old(dst)@, 0, frame_header(p))
                    &&& final(self).wf()
                    &&& final(self).xxh.tracks(Seq::empty(), 0)
                    &&& final(self)@ == begun(
                        given(prefs),
                        loaded_dict(dict, cdict),
                        cdict is Some,
                        little,
                    )
                }
            }),
    {
        if dst.len() < HEADER_SIZE_MAX {
            return Err(Error::DstMaxSizeTooSmall);
        }
        self.prefs = or_default(prefs);
        if self.prefs.frame_info.block_size_id == 0 {
            self.prefs.frame_info.block_size_id = BLOCKSIZEID_DEFAULT;
        }
        let ghost p = settled_preferences(given(prefs));
        assert(self.prefs == p);
        let size = match get_block_size(self.prefs.frame_info.block_size_id) {
            Ok(n) => n,
            Err(e) => {
                return Err(e);
            },
        };
        self.max_block_size = size;
        if self.tmp.len() < size {
            self.tmp.resize(size, 0);
        }
        self.tmp_in_size = 0;
        self.total_in_size = 0;
        xxh32_reset(&mut self.xxh, 0);
        self.block_compress_mode = BlockCompressMode::Compressed;
        let loaded: Option<&[u8]> = match (dict, cdict) {
            (Some(d), None) => Some(d),
            (None, Some(c)) => Some(c.content.as_slice()),
            _ => None,
        };
        let (stream, kept) = primed(loaded, cdict.is_some(), little);
        self.stream = stream;
        self.dict = copy_slice(kept.as_slice(), 0, kept.len());
        assert(self.dict@ =~= kept@);
        self.frame_dict = kept;
        let n = write_header(dst, &self.prefs);
        self.stage = 1;
        proof {
            let e = begun(given(prefs), loaded_dict(dict, cdict), cdict is Some, little);
            assert(self.tmp@.take(0) =~= e.buffered);
            assert(self.xxh.tracks(Seq::empty(), 0));
            assert(self@ == e);
        }
        Ok(n)
    }
}

/// What becomes of the stream of linked blocks when a block is written, before
/// its history is cut to size.
spec fn moved_track(e: Encoder, chunk: Seq<u8>, space: int, mode: BlockCompressMode, little: bool) -> Track {
    Track {
        cells: if mode == BlockCompressMode::Compressed {
            e.attempt(chunk, space, little).cells
        } else {
            e.track.cells
        },
        offset: (e.track.offset + chunk.len()) as u32,
        size: (e.track.size + chunk.len()) as u32,
    }
}

impl Cctx {
    /// The acceleration that the compression level asks for.
    fn acceleration(&self) -> (a: i32)
        ensures
            a == acceleration_of(self.prefs.compression_level),
    {
        let level = self.prefs.compression_level;
        if level < -65536 {
            65537
        } else if level < 0 {
            1 - level
        } else {
            1
        }
    }

    fn linked(&self) -> (b: bool)
        ensures
            b == (self.prefs.frame_info.block_mode == 0),
    {
        self.prefs.frame_info.block_mode == 0
    }

    /// Compresses `src` into `dst[body..body + space]`; `None` unless that makes
    /// it smaller.
    fn compress_body(&mut self, dst: &mut [u8], body: usize, src: &[u8], space: usize, little: bool) -> (r: Option<usize>)
        requires
            old(self).wf(),
            old(self).stage == 1,
            0 < src@.len() <= old(self).max_block_size,
            0 < space <= src.len(),
            body + space <= old(dst).len(),
            old(self)@.linked() ==> old(self)@.track.offset + src@.len() <= u32::MAX,
        ensures
            same_outside(final(dst)@, old(dst)@, body as int, body + space),
            match smaller(old(self)@.attempt(src@, space as int, little), src@.len() as int) {
                Some(c) => r matches Some(n) && n == c.len() && n <= space && final(dst)@.subrange(
                    body as int,
                    body + n,
                ) == c,
                None => r is None,
            },
            old(self)@.linked() ==> track_of(final(self).stream) == moved_track(
                old(self)@,
                src@,
                space as int,
                BlockCompressMode::Compressed,
                little,
            ),
            final(self).intact(),
            final(self).stage == old(self).stage,
            final(self).version == old(self).version,
            final(self).prefs == old(self).prefs,
            final(self).max_block_size == old(self).max_block_size,
            final(self).tmp == old(self).tmp,
            final(self).tmp_in_size == old(self).tmp_in_size,
            final(self).total_in_size == old(self).total_in_size,
            final(self).xxh == old(self).xxh,
            final(self).dict == old(self).dict,
            final(self).frame_dict == old(self).frame_dict,
            final(self).block_compress_mode == old(self).block_compress_mode,
    {
        reveal(Encoder::attempt);
        let len = src.len();
        let accel = self.acceleration();
        let input = Input::Separate(src);
        let ghost s0 = *self;
        assert(input.bytes(dst@) == src@);
        let r = if self.linked() {
            proof {
                lemma_next_outcome(
                    src@,
                    space as int,
                    self.stream,
                    self.dict@,
                    true,
                    accel,
                    little,
                );
            }
            compress_continue_ordered(
                dst,
                body..body + space,
                &input,
                &mut self.stream,
                self.dict.as_slice(),
                true,
                None,
                accel,
                little,
            )
        } else if self.frame_dict.len() == 0 {
            compress_fast_ordered(dst, body..body + space, &input, accel, little)
        } else {
            let n = self.stream.load_dict_ordered(self.frame_dict.as_slice(), true, little);
            assert(reachable(self.frame_dict@) == self.frame_dict@);
            proof {
                lemma_next_outcome(
                    src@,
                    space as int,
                    self.stream,
                    self.frame_dict@,
                    false,
                    accel,
                    little,
                );
            }
            compress_continue_ordered(
                dst,
                body..body + space,
                &input,
                &mut self.stream,
                self.frame_dict.as_slice(),
                false,
                None,
                accel,
                little,
            )
        };
        match r {
            Ok(n) => if n < len {
                Some(n)
            } else {
                None
            },
            Err(_) => None,
        }
    }

    /// Compresses `src` as the next block into `dst[body..body + space]`, if its
    /// kind asks for it; `None` unless that makes it smaller.
    fn pack(&mut self, dst: &mut [u8], body: usize, src: &[u8], space: usize, mode: BlockCompressMode, little: bool) -> (r: Option<usize>)
        requires
            old(self).wf(),
            old(self).stage == 1,
            0 < src@.len() <= old(self).max_block_size,
            0 < space <= src.len(),
            body + space <= old(dst).len(),
            old(self)@.linked() ==> old(self)@.track.offset + src@.len() <= u32::MAX,
        ensures
            same_outside(final(dst)@, old(dst)@, body as int, body + space),
            match old(self)@.packed(src@, space as int, mode, little) {
                Some(c) => r matches Some(n) && n == c.len() && n <= space && n < src@.len()
                    && final(dst)@.subrange(body as int, body + n) == c,
                None => r is None,
            },
            old(self)@.linked() ==> track_of(final(self).stream) == moved_track(
                old(self)@,
                src@,
                space as int,
                mode,
                little,
            ),
            final(self).intact(),
            final(self).stage == old(self).stage,
            final(self).version == old(self).version,
            final(self).prefs == old(self).prefs,
            final(self).max_block_size == old(self).max_block_size,
            final(self).tmp == old(self).tmp,
            final(self).tmp_in_size == old(self).tmp_in_size,
            final(self).total_in_size == old(self).total_in_size,
            final(self).xxh == old(self).xxh,
            final(self).dict == old(self).dict,
            final(self).frame_dict == old(self).frame_dict,
            final(self).block_compress_mode == old(self).block_compress_mode,
    {
        match mode {
            BlockCompressMode::Uncompressed => {
                if self.linked() {
                    let n = src.len() as u32;
                    self.stream.dict_size = self.stream.dict_size + n;
                    self.stream.current_offset = self.stream.current_offset + n;
                }
                None
            },
            BlockCompressMode::Compressed => self.compress_body(dst, body, src, space, little),
        }
    }
}

/// The bytes that a block was compressed to at `body`, if it was.
spec fn as_packed(dst: Seq<u8>, body: int, packed: Option<usize>) -> Option<Seq<u8>> {
    match packed {
        Some(c) => Some(dst.subrange(body, body + c)),
        None => None,
    }
}

/// Completes a block at `dst_at`, as `seal_block` does; `None` if it does not
/// fit.
fn seal_fitting(dst: &mut [u8], dst_at: usize, src: &[u8], packed: Option<usize>, p: &Preferences) -> (r: Option<usize>)
    requires
        src.len() <= 0x40_0000,
        dst_at + 4 <= old(dst).len(),
        packed matches Some(c) ==> c < src.len() && dst_at + 4 + c <= old(dst).len(),
    ensures
        ({
            let block = block_bytes(*p, src@, as_packed(old(dst)@, dst_at + 4, packed));
            if dst_at + block.len() <= old(dst)@.len() {
                &&& r matches Some(n) && n == block.len()
                &&& final(dst)@.subrange(dst_at as int, dst_at + block.len()) == block
            } else {
                r is None
            }
        }),
        final(dst)@.len() == old(dst)@.len(),
        forall|i: int| 0 <= i < dst_at ==> #[trigger] final(dst)@[i] == old(dst)@[i],
{
    let size = match packed {
        Some(n) => n,
        None => src.len(),
    };
    let over: usize = if p.frame_info.block_checksum {
        BF_SIZE
    } else {
        0
    };
    let left = dst.len() - dst_at - BH_SIZE;
    if left < size || left - size < over {
        return None;
    }
    Some(seal_block(dst, dst_at, src, packed, p))
}

/// Completes a block at `dst_at`: writes its header, its bytes where it was not
/// compressed, and its checksum.
#[verifier::rlimit(30)]
fn seal_block(dst: &mut [u8], dst_at: usize, src: &[u8], packed: Option<usize>, p: &Preferences) -> (n: usize)
    requires
        src.len() <= 0x40_0000,
        dst_at + 4 + (match packed {
            Some(c) => c as int,
            None => src@.len() as int,
        }) + crc_size(*p) <= old(dst).len(),
        packed matches Some(c) ==> c < src.len(),
    ensures
        ({
            let c = match packed {
                Some(c) => Some(old(dst)@.subrange(dst_at + 4, dst_at + 4 + c)),
                None => None,
            };
            &&& n == block_bytes(*p, src@, c).len()
            &&& n <= 4 + src@.len() + crc_size(*p)
            &&& final(dst)@.subrange(dst_at as int, dst_at + n) == block_bytes(*p, src@, c)
        }),
        final(dst)@.len() == old(dst)@.len(),
        forall|i: int| 0 <= i < dst_at ==> #[trigger] final(dst)@[i] == old(dst)@[i],
{
    let ghost b0 = dst@;
    let body = dst_at + BH_SIZE;
    let size = match packed {
        Some(c) => {
            write_le32(dst, dst_at, c as u32);
            assert(dst@.subrange(body as int, body + c) =~= b0.subrange(body as int, body + c));
            c
        },
        None => {
            write_le32(dst, dst_at, src.len() as u32 + 0x8000_0000);
            copy_from(dst, body, src, 0, src.len());
            assert(dst@.subrange(body as int, body + src@.len()) =~= src@);
            src.len()
        },
    };
    let end = body + size;
    let ghost payload = dst@.subrange(body as int, end as int);
    let ghost head = dst@.subrange(dst_at as int, body as int);
    assert(head =~= (match packed {
        Some(c) => le32_bytes(c as u32),
        None => le32_bytes((src@.len() + 0x8000_0000) as u32),
    }));
    if p.frame_info.block_checksum {
        let crc = xxh32(&dst[body..end], 0);
        write_le32(dst, end, crc);
        assert(dst@.subrange(dst_at as int, end + 4) =~= head + payload + le32_bytes(
            xxh32_spec(payload, 0),
        ));
        end + BF_SIZE - dst_at
    } else {
        assert(dst@.subrange(dst_at as int, end as int) =~= head + payload + Seq::empty());
        end - dst_at
    }
}

/// The dictionary that a frame starts from, if any.
pub open spec fn first_dict(loaded: Option<Seq<u8>>) -> Seq<u8> {
    match loaded {
        Some(d) => used_dict(d),
        None => Seq::empty(),
    }
}

/// The track that a frame starts from.
pub open spec fn first_track(loaded: Option<Seq<u8>>, slow: bool, little: bool) -> Track {
    match loaded {
        Some(d) => Track {
            cells: dict_cells(d, slow, little),
            offset: WINDOW,
            size: used_dict(d).len() as u32,
        },
        None => Track { cells: Cells::zero(TableType::U32), offset: 0, size: 0 },
    }
}

/// A stream at the start of a frame, and what of the dictionary it uses.
fn primed(loaded: Option<&[u8]>, slow: bool, little: bool) -> (r: (StreamState, Vec<u8>))
    ensures
        ({
            let l = match loaded {
                Some(d) => Some(d@),
                None => None,
            };
            &&& track_of(r.0) == first_track(l, slow, little)
            &&& r.0.wf()
            &&& r.0.table@.tt == TableType::U32
            &&& r.1@ == first_dict(l)
        }),
{
    let mut stream = StreamState::new();
    match loaded {
        Some(d) => {
            // Only the tail that is indexed is kept, so that the bytes and
            // the indices agree.
            let kept = stream.load_dict_ordered(d, slow, little);
            let v = copy_slice(d, d.len() - kept, d.len());
            assert(v@ =~= used_dict(d@));
            (stream, v)
        },
        None => (stream, Vec::new()),
    }
}

/// Writes the header of a frame.
#[verifier::rlimit(30)]
fn write_header(dst: &mut [u8], p: &Preferences) -> (n: usize)
    requires
        old(dst).len() >= HEADER_SIZE_MAX,
        4 <= p.frame_info.block_size_id <= 7,
    ensures
        n == frame_header(*p).len(),
        final(dst)@ == splice(old(dst)@, 0, frame_header(*p)),
{
    reveal(frame_header);
    let ghost b0 = dst@;
    let ghost d = descriptor(*p);
    let i = p.frame_info;
    write_le32(dst, 0, MAGICNUMBER);
    let mut flg: u8 = 64;
    if i.block_mode & 1 != 0 {
        flg = flg + 32;
    }
    if i.block_checksum {
        flg = flg + 16;
    }
    if i.content_size > 0 {
        flg = flg + 8;
    }
    if i.content_checksum {
        flg = flg + 4;
    }
    if i.dict_id > 0 {
        flg = flg + 1;
    }
    dst[4] = flg;
    dst[5] = (16 * i.block_size_id) as u8;
    let mut n: usize = 6;
    if i.content_size > 0 {
        write_le64(dst, 6, i.content_size);
        n = 14;
    }
    if i.dict_id > 0 {
        write_le32(dst, n, i.dict_id);
        n = n + 4;
    }
    assert(dst@.subrange(4, n as int) =~= d);
    let hc = header_checksum(&dst[4..n]);
    dst[n] = hc;
    assert(dst@ =~= splice(b0, 0, frame_header(*p)));
    n + 1
}

impl Cctx {
    /// Adds `block` to the history of linked blocks, of which the last 64 KB
    /// are kept.
    fn set_history(&mut self, block: &[u8])
        requires
            old(self).intact(),
            old(self).prefs.frame_info.block_mode == 0 ==> old(self).dict.len() <= 0x1_0000,
        ensures
            final(self).intact(),
            ({
                if old(self).prefs.frame_info.block_mode == 0 {
                    &&& final(self).dict@ == window_of(old(self).dict@ + block@)
                    &&& final(self).stream.table == old(self).stream.table
                    &&& final(self).stream.current_offset == old(self).stream.current_offset
                    &&& old(self).stream.dict_size == old(self).dict@.len() + block@.len()
                        ==> final(self).stream.dict_size == final(self).dict@.len()
                } else {
                    &&& final(self).dict == old(self).dict
                    &&& final(self).stream == old(self).stream
                }
            }),
            final(self).stage == old(self).stage,
            final(self).version == old(self).version,
            final(self).prefs == old(self).prefs,
            final(self).max_block_size == old(self).max_block_size,
            final(self).tmp == old(self).tmp,
            final(self).tmp_in_size == old(self).tmp_in_size,
            final(self).total_in_size == old(self).total_in_size,
            final(self).xxh == old(self).xxh,
            final(self).frame_dict == old(self).frame_dict,
            final(self).block_compress_mode == old(self).block_compress_mode,
    {
        if !self.linked() {
            return;
        }
        self.dict = joined_window(self.dict.as_slice(), block);
        let kept = self.dict.len();
        self.stream.save_dict(kept);
    }

    /// Ends the frame with nothing waiting.
    fn close(&mut self)
        requires
            old(self).wf(),
            old(self).tmp_in_size == 0,
        ensures
            final(self).wf(),
            final(self)@ == (Encoder { stage: 0, buffered: Seq::empty(), ..old(self)@ }),
            *final(self) == (Cctx { stage: 0, ..*old(self) }),
    {
        self.stage = 0;
        proof {
            assert(self@.buffered =~= Seq::empty());
            assert(old(self)@.buffered =~= Seq::empty());
            assert(self@ =~= (Encoder { stage: 0, buffered: Seq::empty(), ..old(self)@ }));
            let data = choose|data: Seq<u8>| old(self).xxh.tracks(data, 0);
            assert(self.xxh.tracks(data, 0));
        }
    }

    /// Compresses `src` as the next block of the frame into `dst[body..body +
    /// space]`, as `pack` does, and goes on behind it.
    #[verifier::rlimit(30)]
    fn pass_block(&mut self, dst: &mut [u8], body: usize, src: &[u8], space: usize, mode: BlockCompressMode, little: bool) -> (r: Option<usize>)
        requires
            old(self).wf(),
            old(self).stage == 1,
            0 < src@.len() <= old(self).max_block_size,
            0 < space <= src.len(),
            body + space <= old(dst).len(),
            old(self)@.linked() ==> old(self)@.track.offset + src@.len() <= u32::MAX,
        ensures
            same_outside(final(dst)@, old(dst)@, body as int, body + space),
            match old(self)@.packed(src@, space as int, mode, little) {
                Some(c) => r matches Some(n) && n == c.len() && n <= space && n < src@.len()
                    && final(dst)@.subrange(body as int, body + n) == c,
                None => r is None,
            },
            final(self)@ == old(self)@.after_in(src@, space as int, mode, little),
            final(self)@.buffered.len() == 0,
            final(self).wf(),
            final(self).stage == 1,
            final(self).xxh == old(self).xxh,
            final(self).version == old(self).version,
            final(self).prefs == old(self).prefs,
            final(self).max_block_size == old(self).max_block_size,
            final(self).total_in_size == old(self).total_in_size,
            final(self).tmp_in_size == 0,
            final(self).block_compress_mode == old(self).block_compress_mode,
            old(self)@.linked() ==> final(self).stream.current_offset
                == old(self).stream.current_offset + src@.len(),
    {
        reveal(Encoder::after_in);
        let ghost e = self@.after_in(src@, space as int, mode, little);
        let packed = self.pack(dst, body, src, space, mode, little);
        let ghost mid = *self;
        self.set_history(src);
        self.tmp_in_size = 0;
        proof {
            assert(self.tmp@.take(0) =~= Seq::empty());
            if old(self)@.linked() {
                assert(track_of(self.stream) =~= e.track);
                assert(self.stream.table@ == mid.stream.table@);
            }
            assert(self@ =~= e);
            let data = choose|data: Seq<u8>| old(self).xxh.tracks(data, 0);
            assert(self.xxh.tracks(data, 0));
        }
        packed
    }

    /// Makes `src`, with `space` bytes to compress it to, the next block of the
    /// frame, at `dst_at`; `None` if it does not fit.
    #[verifier::rlimit(30)]
    fn emit_in(&mut self, dst: &mut [u8], dst_at: usize, src: &[u8], space: usize, mode: BlockCompressMode, little: bool) -> (r: Option<usize>)
        requires
            old(self).wf(),
            old(self).stage == 1,
            0 < src@.len() <= old(self).max_block_size,
            0 < space <= src.len(),
            dst_at + 4 + space <= old(dst).len(),
            old(self)@.linked() ==> old(self)@.track.offset + src@.len() <= u32::MAX,
        ensures
            ({
                let block = old(self)@.block_in(src@, space as int, mode, little);
                let e = old(self)@.after_in(src@, space as int, mode, little);
                if dst_at + block.len() <= old(dst)@.len() {
                    &&& r matches Some(n) && n == block.len()
                    &&& final(dst)@.subrange(dst_at as int, dst_at + block.len()) == block
                    &&& final(self)@ == e
                    &&& final(self).stage == 1
                } else {
                    &&& r is None
                    &&& final(self)@ == (Encoder { stage: 0, ..e })
                }
            }),
            final(dst)@.len() == old(dst)@.len(),
            forall|i: int| 0 <= i < dst_at ==> #[trigger] final(dst)@[i] == old(dst)@[i],
            final(self).wf(),
            final(self).xxh == old(self).xxh,
            final(self).version == old(self).version,
            final(self).prefs == old(self).prefs,
            final(self).max_block_size == old(self).max_block_size,
            final(self).total_in_size == old(self).total_in_size,
            final(self).tmp_in_size == 0,
            final(self).block_compress_mode == old(self).block_compress_mode,
            old(self)@.linked() ==> final(self).stream.current_offset
                == old(self).stream.current_offset + src@.len(),
    {
        reveal(Encoder::block_in);
        let body = dst_at + BH_SIZE;
        let packed = self.pass_block(dst, body, src, space, mode, little);
        assert(as_packed(dst@, body as int, packed) == old(self)@.packed(
            src@,
            space as int,
            mode,
            little,
        ));
        let r = seal_fitting(dst, dst_at, src, packed, &self.prefs);
        if r.is_none() {
            assert(self@.buffered =~= Seq::empty());
            self.close();
        }
        r
    }

    /// Makes `src` the next block of the frame, at `dst_at`, where there may be
    /// too little room for it as it stands; `None` if it does not fit.
    fn emit_tight(&mut self, dst: &mut [u8], dst_at: usize, src: &[u8], mode: BlockCompressMode, little: bool) -> (r: Option<usize>)
        requires
            old(self).wf(),
            old(self).stage == 1,
            0 < src@.len() <= old(self).max_block_size,
            dst_at <= old(dst).len(),
            old(self)@.linked() ==> old(self)@.track.offset + src@.len() <= u32::MAX,
        ensures
            ({
                let left = old(dst)@.len() - dst_at;
                let space = space_in(src@.len() as int, left);
                let block = old(self)@.block_in(src@, space, mode, little);
                let e = old(self)@.after_in(src@, space, mode, little);
                if left <= BH_SIZE {
                    &&& r is None
                    &&& final(self)@ == (Encoder { stage: 0, buffered: Seq::empty(), ..old(self)@ })
                } else if block.len() <= left {
                    &&& r matches Some(n) && n == block.len()
                    &&& final(dst)@.subrange(dst_at as int, dst_at + block.len()) == block
                    &&& final(self)@ == e
                    &&& final(self).stage == 1
                    &&& old(self)@.linked() ==> final(self).stream.current_offset
                        == old(self).stream.current_offset + src@.len()
                } else {
                    &&& r is None
                    &&& final(self)@ == (Encoder { stage: 0, ..e })
                }
            }),
            final(dst)@.len() == old(dst)@.len(),
            forall|i: int| 0 <= i < dst_at ==> #[trigger] final(dst)@[i] == old(dst)@[i],
            final(self).wf(),
            final(self).xxh == old(self).xxh,
            final(self).version == old(self).version,
            final(self).prefs == old(self).prefs,
            final(self).max_block_size == old(self).max_block_size,
            final(self).total_in_size == old(self).total_in_size,
            final(self).tmp_in_size == 0,
    {
        let left = dst.len() - dst_at;
        if left <= BH_SIZE {
            self.stage = 0;
            self.tmp_in_size = 0;
            proof {
                assert(self@.buffered =~= Seq::empty());
                let data = choose|data: Seq<u8>| old(self).xxh.tracks(data, 0);
                assert(self.xxh.tracks(data, 0));
            }
            return None;
        }
        let most = if src.len() > 1 {
            src.len() - 1
        } else {
            1
        };
        let space = if left - BH_SIZE < most {
            left - BH_SIZE
        } else {
            most
        };
        self.emit_in(dst, dst_at, src, space, mode, little)
    }

    /// Writes `src` as the next block of the frame, at `dst_at`.
    fn emit_block(&mut self, dst: &mut [u8], dst_at: usize, src: &[u8], mode: BlockCompressMode, little: bool) -> (n: usize)
        requires
            old(self).wf(),
            old(self).stage == 1,
            0 < src@.len() <= old(self).max_block_size,
            dst_at + 4 + src.len() + crc_size(old(self).prefs) <= old(dst).len(),
            old(self)@.linked() ==> old(self)@.track.offset + src@.len() <= u32::MAX,
        ensures
            n == old(self)@.block_for(src@, mode, little).len(),
            n <= 4 + src@.len() + crc_size(old(self).prefs),
            final(dst)@.subrange(dst_at as int, dst_at + n) == old(self)@.block_for(
                src@,
                mode,
                little,
            ),
            final(dst)@.len() == old(dst)@.len(),
            forall|i: int| 0 <= i < dst_at ==> #[trigger] final(dst)@[i] == old(dst)@[i],
            final(self).wf(),
            final(self)@ == old(self)@.after(src@, mode, little),
            final(self).xxh == old(self).xxh,
            final(self).version == old(self).version,
            final(self).stage == 1,
            final(self).prefs == old(self).prefs,
            final(self).max_block_size == old(self).max_block_size,
            final(self).total_in_size == old(self).total_in_size,
            final(self).tmp_in_size == 0,
            final(self).block_compress_mode == old(self).block_compress_mode,
            old(self)@.linked() ==> final(self).stream.current_offset
                == old(self).stream.current_offset + src@.len(),
    {
        let space = if src.len() > 1 {
            src.len() - 1
        } else {
            1
        };
        proof {
            lemma_block_len(self@, src@, mode, little);
        }
        match self.emit_in(dst, dst_at, src, space, mode, little) {
            Some(n) => n,
            None => {
                assert(false);
                0
            },
        }
    }

    /// Writes what waits to fill a block as a shorter one.
    pub fn flush(&mut self, dst: &mut [u8]) -> (r: Res<usize>)
        requires
            old(self).wf(),
            old(self)@.linked() ==> old(self).stream.current_offset + old(self).tmp_in_size
                <= u32::MAX,
        ensures
            final(self).wf(),
            final(self).xxh == old(self).xxh,
            final(self).version == old(self).version,
            final(dst)@.len() == old(dst)@.len(),
            exists|little: bool|
                ({
                    let (bytes, e) = #[trigger] old(self)@.flushed(
                        old(dst)@.len() as int,
                        little,
                    );
                    &&& final(self)@ == e
                    &&& wrote(r, final(dst)@, bytes)
                }),
            r is Err || old(self)@.buffered.len() == 0 ==> final(dst)@ == old(dst)@,
    {
        let little = host_little_endian();
        self.flush_ordered(dst, little)
    }

    /// `flush` on a host of the given byte order.
    pub fn flush_ordered(&mut self, dst: &mut [u8], little: bool) -> (r: Res<usize>)
        requires
            old(self).wf(),
            old(self)@.linked() ==> old(self).stream.current_offset + old(self).tmp_in_size
                <= u32::MAX,
        ensures
            final(self).wf(),
            final(self).xxh == old(self).xxh,
            final(self).version == old(self).version,
            final(dst)@.len() == old(dst)@.len(),
            ({
                let (bytes, e) = old(self)@.flushed(old(dst)@.len() as int, little);
                &&& final(self)@ == e
                &&& wrote(r, final(dst)@, bytes)
            }),
            r is Err || old(self)@.buffered.len() == 0 ==> final(dst)@ == old(dst)@,
            final(self).stage == old(self).stage,
            final(self).prefs == old(self).prefs,
            final(self).max_block_size == old(self).max_block_size,
            final(self).total_in_size == old(self).total_in_size,
            r is Ok ==> final(self).tmp_in_size == 0,
            old(self)@.linked() && r is Ok ==> final(self).stream.current_offset
                == old(self).stream.current_offset + old(self).tmp_in_size,
    {
        if self.tmp_in_size == 0 {
            assert(dst@.take(0) =~= Seq::empty());
            return Ok(0);
        }
        if self.stage != 1 {
            return Err(Error::CompressionStateUninitialized);
        }
        if dst.len() < BH_SIZE + BF_SIZE || dst.len() - (BH_SIZE + BF_SIZE) < self.tmp_in_size {
            return Err(Error::DstMaxSizeTooSmall);
        }
        let mode = self.block_compress_mode;
        let block = copy_slice(self.tmp.as_slice(), 0, self.tmp_in_size);
        assert(block@ =~= self@.buffered);
        let n = self.emit_block(dst, 0, block.as_slice(), mode, little);
        assert(dst@.take(n as int) =~= dst@.subrange(0, n as int));
        Ok(n)
    }
}

/// Whether blocks cut from `all` start with the bytes `w` and go on from the
/// context `e1` with `rest`.
spec fn leads(e0: Encoder, all: Seq<u8>, e1: Encoder, rest: Seq<u8>, w: Seq<u8>, mode: BlockCompressMode, little: bool) -> bool {
    let (b0, f0) = e0.blocks(all, mode, little);
    let (b1, f1) = e1.blocks(rest, mode, little);
    b0 == w + b1 && f0 == f1
}

/// One more full block.
proof fn lemma_leads(e0: Encoder, all: Seq<u8>, e1: Encoder, rest: Seq<u8>, w: Seq<u8>, mode: BlockCompressMode, little: bool)
    requires
        leads(e0, all, e1, rest, w, mode, little),
        0 < e1.block <= rest.len(),
    ensures
        ({
            let chunk = rest.take(e1.block);
            leads(
                e0,
                all,
                e1.after(chunk, mode, little),
                rest.skip(e1.block),
                w + e1.block_for(chunk, mode, little),
                mode,
                little,
            )
        }),
{
    let chunk = rest.take(e1.block);
    let b = e1.block_for(chunk, mode, little);
    let more = e1.after(chunk, mode, little).blocks(rest.skip(e1.block), mode, little).0;
    assert(w + (b + more) =~= (w + b) + more);
}

proof fn lemma_leads_joined(e0: Encoder, all: Seq<u8>, e1: Encoder, rest1: Seq<u8>, w1: Seq<u8>, e2: Encoder, rest2: Seq<u8>, w2: Seq<u8>, mode: BlockCompressMode, little: bool)
    requires
        leads(e0, all, e1, rest1, w1, mode, little),
        leads(e1, rest1, e2, rest2, w2, mode, little),
    ensures
        leads(e0, all, e2, rest2, w1 + w2, mode, little),
{
    let b2 = e2.blocks(rest2, mode, little).0;
    assert(w1 + (w2 + b2) =~= (w1 + w2) + b2);
}

/// Whether blocks cut from `all` to fit in `left0` bytes start with the bytes
/// `w` and go on from the context `e1` with `rest`, to fit in `left1`.
spec fn leads_in(e0: Encoder, all: Seq<u8>, left0: int, e1: Encoder, rest: Seq<u8>, left1: int, w: Seq<u8>, mode: BlockCompressMode, little: bool) -> bool {
    let (b0, f0) = e0.blocks_in(all, left0, mode, little);
    let (b1, f1) = e1.blocks_in(rest, left1, mode, little);
    &&& f0 == f1
    &&& match b1 {
        Some(b) => b0 == Some(w + b),
        None => b0 is None,
    }
}

/// One more block.
proof fn lemma_leads_in(e0: Encoder, all: Seq<u8>, left0: int, e1: Encoder, rest: Seq<u8>, left1: int, w: Seq<u8>, mode: BlockCompressMode, little: bool)
    requires
        leads_in(e0, all, left0, e1, rest, left1, w, mode, little),
        0 < e1.next_len(rest.len() as int) <= rest.len(),
    ensures
        ({
            let n = e1.next_len(rest.len() as int);
            let chunk = rest.take(n);
            let space = space_in(n, left1);
            let block = e1.block_in(chunk, space, mode, little);
            let e2 = e1.after_in(chunk, space, mode, little);
            if left1 <= BH_SIZE {
                e0.blocks_in(all, left0, mode, little) == (
                    None::<Seq<u8>>,
                    Encoder { stage: 0, buffered: Seq::empty(), ..e1 },
                )
            } else if block.len() <= left1 {
                leads_in(e0, all, left0, e2, rest.skip(n), left1 - block.len(), w + block, mode, little)
            } else {
                e0.blocks_in(all, left0, mode, little) == (
                    None::<Seq<u8>>,
                    Encoder { stage: 0, ..e2 },
                )
            }
        }),
{
    let n = e1.next_len(rest.len() as int);
    let chunk = rest.take(n);
    let space = space_in(n, left1);
    let block = e1.block_in(chunk, space, mode, little);
    let e2 = e1.after_in(chunk, space, mode, little);
    if BH_SIZE < left1 && block.len() <= left1 {
        let (more, e3) = e2.blocks_in(rest.skip(n), left1 - block.len(), mode, little);
        if let Some(more) = more {
            assert(w + (block + more) =~= (w + block) + more);
        }
    }
}

/// The room that is asked for is enough for the blocks.
proof fn lemma_cost(e: Encoder, n: int)
    requires
        block_size(e.prefs.frame_info.block_size_id) == Some(e.block),
        e.buffered.len() < e.block,
        0 <= n,
    ensures
        0 <= cost(e.prefs, e.block, (e.buffered.len() + n) as int),
        cost(e.prefs, e.block, (e.buffered.len() + n) as int) + e.trailer(Seq::empty()).len()
            <= bound_internal(n, e.prefs, e.buffered.len() as int),
{
    reveal(cost);
    reveal(bound_internal);
    let bs = e.block;
    let over = crc_size(e.prefs) + 4;
    let f1 = (e.buffered.len() + n) / bs;
    assert(f1 * (bs + over) == over * f1 + bs * f1) by (nonlinear_arith);
    assert(over * (f1 + 1) == over * f1 + over) by (nonlinear_arith);
    lemma_cost_pos(e.prefs, bs, (e.buffered.len() + n) as int);
}

proof fn lemma_cost_pos(p: Preferences, bs: int, n: int)
    requires
        bs > 0,
        n >= 0,
    ensures
        cost(p, bs, n) >= 0,
{
    reveal(cost);
    let over = crc_size(p) + 4;
    let f = n / bs;
    assert(f >= 0) by (nonlinear_arith)
        requires
            f == n / bs,
            n >= 0,
            bs > 0,
    ;
    assert(f * (bs + over) >= 0) by (nonlinear_arith)
        requires
            f >= 0,
            bs + over >= 0,
    ;
    vstd::arithmetic::div_mod::lemma_mod_bound(n, bs);
}

/// What is left to write for when no full block is left.
proof fn lemma_cost_tail(p: Preferences, bs: int, n: int)
    requires
        0 < n < bs,
    ensures
        cost(p, bs, n) == (if p.auto_flush {
            n + 4 + crc_size(p)
        } else {
            0
        }),
{
    reveal(cost);
    vstd::arithmetic::div_mod::lemma_basic_div(n, bs);
    vstd::arithmetic::div_mod::lemma_small_mod(n as nat, bs as nat);
    let f = n / bs;
    assert(f * (bs + (crc_size(p) + 4)) == 0) by (nonlinear_arith)
        requires
            f == 0,
    ;
}

/// What is left to write for after a full block.
proof fn lemma_cost_step(p: Preferences, bs: int, n: int)
    requires
        bs > 0,
        n >= bs,
    ensures
        cost(p, bs, n) == cost(p, bs, n - bs) + bs + 4 + crc_size(p),
        cost(p, bs, n - bs) >= 0,
{
    reveal(cost);
    let over = crc_size(p) + 4;
    vstd::arithmetic::div_mod::lemma_div_minus_one(n, bs);
    vstd::arithmetic::div_mod::lemma_mod_sub_multiples_vanish(n, bs);
    let f = n / bs;
    assert(n / bs == (n - bs) / bs + 1);
    assert((f - 1) * (bs + over) + (bs + over) == f * (bs + over)) by (nonlinear_arith);
    lemma_cost_pos(p, bs, n - bs);
}

/// Whether the result of writing `bytes` to `dst` is `r`.
pub open spec fn wrote(r: Res<usize>, dst: Seq<u8>, bytes: Res<Seq<u8>>) -> bool {
    match bytes {
        Ok(b) => r matches Ok(n) && n == b.len() && n <= dst.len() && dst.take(n as int) == b,
        Err(e) => r == Err::<usize, Error>(e),
    }
}

impl Cctx {
    /// Gives the frame more input: what fills a block is written to `dst`,
    /// the rest waits. Returns how many bytes were written.
    ///
    /// Where the kind of blocks changes, what waits is written first, and may
    /// leave too little room for a block that does not become smaller. Such an
    /// update fails, and the frame is over.
    pub fn update(&mut self, dst: &mut [u8], src: &[u8], mode: BlockCompressMode) -> (r: Res<usize>)
        requires
            old(self).wf(),
            old(self)@.linked() ==> old(self).stream.current_offset + old(self).tmp_in_size
                + src@.len() <= u32::MAX,
            old(self).total_in_size + src@.len() <= u64::MAX,
        ensures
            final(self).wf(),
            final(self).version == old(self).version,
            final(dst)@.len() == old(dst)@.len(),
            exists|little: bool|
                ({
                    let (bytes, e) = #[trigger] old(self)@.updated(
                        src@,
                        mode,
                        old(dst)@.len() as int,
                        little,
                    );
                    &&& final(self)@ == e
                    &&& wrote(r, final(dst)@, bytes)
                }),
            r is Ok && old(self).prefs.frame_info.content_checksum ==> forall|data: Seq<u8>|
                #[trigger] old(self).xxh.tracks(data, 0) ==> final(self).xxh.tracks(
                    data + src@,
                    0,
                ),
            r is Err ==> final(self).xxh == old(self).xxh,
            old(self)@.refuses(src@, mode, old(dst)@.len() as int) ==> final(dst)@ == old(dst)@,
    {
        let little = host_little_endian();
        self.update_ordered(dst, src, mode, little)
    }

    /// `update` on a host of the given byte order.
    #[verifier::rlimit(30)]
    pub fn update_ordered(&mut self, dst: &mut [u8], src: &[u8], mode: BlockCompressMode, little: bool) -> (r: Res<usize>)
        requires
            old(self).wf(),
            old(self)@.linked() ==> old(self).stream.current_offset + old(self).tmp_in_size
                + src@.len() <= u32::MAX,
            old(self).total_in_size + src@.len() <= u64::MAX,
        ensures
            final(self).wf(),
            final(self).version == old(self).version,
            final(dst)@.len() == old(dst)@.len(),
            ({
                let (bytes, e) = old(self)@.updated(src@, mode, old(dst)@.len() as int, little);
                &&& final(self)@ == e
                &&& wrote(r, final(dst)@, bytes)
            }),
            r is Ok && old(self).prefs.frame_info.content_checksum ==> forall|data: Seq<u8>|
                #[trigger] old(self).xxh.tracks(data, 0) ==> final(self).xxh.tracks(
                    data + src@,
                    0,
                ),
            r is Err ==> final(self).xxh == old(self).xxh,
            old(self)@.refuses(src@, mode, old(dst)@.len() as int) ==> final(dst)@ == old(dst)@,
    {
        let ghost e0 = self@;
        let room = dst.len();
        if self.stage != 1 {
            return Err(Error::CompressionStateUninitialized);
        }
        if (room as u128) < compress_bound_internal(src.len(), &self.prefs, self.tmp_in_size) {
            return Err(Error::DstMaxSizeTooSmall);
        }
        if mode == BlockCompressMode::Uncompressed && room < src.len() {
            return Err(Error::DstMaxSizeTooSmall);
        }
        let mut op: usize = 0;
        // Blocks of the two kinds are kept apart: what waits is written first.
        if self.block_compress_mode != mode {
            match self.flush_ordered(dst, little) {
                Ok(n) => {
                    op = n;
                },
                Err(e) => {
                    return Err(e);
                },
            }
            self.block_compress_mode = mode;
        }
        let ghost e1 = self@;
        let ghost head = dst@.take(op as int);
        proof {
            let data = choose|data: Seq<u8>| old(self).xxh.tracks(data, 0);
            assert(self.xxh.tracks(data, 0));
        }
        let need = self.blocks_cost(src.len());
        let ghost op0 = op as int;
        if ((room - op) as u128) < need {
            proof {
                lemma_cost(e0, src@.len() as int);
                assert(e1.buffered =~= Seq::empty());
                assert(e1.buffered + src@ =~= src@);
            }
            op =
            match self.write_tight(dst, op, src, mode, little) {
                Some(n) => n,
                None => {
                    return Err(Error::DstMaxSizeTooSmall);
                },
            };
        } else {
            op = self.write_blocks(dst, op, src, mode, little);
        }
        assert(dst@.take(op as int) =~= head + dst@.subrange(op0, op as int));
        if self.prefs.frame_info.content_checksum {
            xxh32_update(&mut self.xxh, src);
        }
        self.total_in_size = self.total_in_size + src.len() as u64;
        proof {
            let data = choose|data: Seq<u8>| old(self).xxh.tracks(data, 0);
            assert(self.xxh.tracks(data, 0) || self.xxh.tracks(data + src@, 0));
        }
        Ok(op)
    }

    /// Writes `src` as blocks from `at` on, with nothing waiting, and returns
    /// where they end; `None` if one does not fit.
    #[verifier::rlimit(60)]
    fn write_tight(&mut self, dst: &mut [u8], at: usize, src: &[u8], mode: BlockCompressMode, little: bool) -> (end: Option<usize>)
        requires
            old(self).wf(),
            old(self).stage == 1,
            old(self).tmp_in_size == 0,
            at <= old(dst).len(),
            old(self)@.linked() ==> old(self).stream.current_offset + src@.len() <= u32::MAX,
        ensures
            final(self).wf(),
            final(self).version == old(self).version,
            final(self).xxh == old(self).xxh,
            final(self).total_in_size == old(self).total_in_size,
            final(self).prefs == old(self).prefs,
            final(dst)@.len() == old(dst)@.len(),
            ({
                let (bytes, e) = old(self)@.blocks_in(src@, old(dst)@.len() - at, mode, little);
                &&& final(self)@ == e
                &&& match bytes {
                    Some(b) => end matches Some(n) && n == at + b.len() && n <= final(dst)@.len()
                        && final(dst)@.subrange(at as int, n as int) == b,
                    None => end is None,
                }
            }),
            forall|i: int| 0 <= i < at ==> #[trigger] final(dst)@[i] == old(dst)@[i],
    {
        let ghost e0 = self@;
        let ghost left0 = dst@.len() - at;
        let bs = self.max_block_size;
        let len = src.len();
        let mut sp: usize = 0;
        let mut op = at;
        proof {
            assert(dst@.subrange(at as int, at as int) =~= Seq::empty());
            assert(src@.skip(0) =~= src@);
            if let Some(b) = e0.blocks_in(src@, left0, mode, little).0 {
                assert(Seq::<u8>::empty() + b =~= b);
            }
        }
        while sp < len && (len - sp >= bs || self.prefs.auto_flush)
            invariant
                sp <= len,
                len == src.len(),
                bs == self.max_block_size,
                self.wf(),
                self.stage == 1,
                self.tmp_in_size == 0,
                self.version == old(self).version,
                self.xxh == old(self).xxh,
                self.prefs == old(self).prefs,
                self.total_in_size == old(self).total_in_size,
                dst@.len() == old(dst)@.len(),
                at <= op <= dst.len(),
                left0 == dst@.len() - at,
                self.prefs.frame_info.block_mode == 0 ==> self.stream.current_offset + (len - sp)
                    <= u32::MAX,
                forall|i: int| 0 <= i < at ==> #[trigger] dst@[i] == old(dst)@[i],
                e0 == old(self)@,
                leads_in(
                    e0,
                    src@,
                    left0,
                    self@,
                    src@.skip(sp as int),
                    dst@.len() - op,
                    dst@.subrange(at as int, op as int),
                    mode,
                    little,
                ),
            decreases len - sp,
        {
            let ghost e1 = self@;
            let ghost w = dst@.subrange(at as int, op as int);
            let ghost rest = src@.skip(sp as int);
            let n = if len - sp >= bs {
                bs
            } else {
                len - sp
            };
            let chunk = &src[sp..sp + n];
            assert(chunk@ =~= rest.take(n as int));
            proof {
                lemma_leads_in(e0, src@, left0, e1, rest, dst@.len() - op, w, mode, little);
            }
            let ghost op0 = op as int;
            match self.emit_tight(dst, op, chunk, mode, little) {
                Some(k) => {
                    op = op + k;
                },
                None => {
                    return None;
                },
            }
            sp = sp + n;
            proof {
                assert(rest.skip(n as int) =~= src@.skip(sp as int));
                assert(dst@.subrange(at as int, op as int) =~= w + dst@.subrange(op0, op as int));
            }
        }
        let ghost rest = src@.skip(sp as int);
        let ghost w = dst@.subrange(at as int, op as int);
        assert(w + Seq::<u8>::empty() =~= w);
        if sp < len {
            let ghost e1 = self@;
            self.wait(src, sp);
            assert(e1.buffered + rest =~= rest);
        } else {
            assert(rest =~= Seq::empty());
            assert(self@.buffered =~= Seq::empty());
            assert(self@ =~= (Encoder { buffered: rest, ..self@ }));
        }
        Some(op)
    }

    /// Writes the full blocks of `src` from `sp` on, with nothing waiting, and
    /// returns where they end in `dst` and in `src`.
    fn whole_blocks(&mut self, dst: &mut [u8], at: usize, src: &[u8], from: usize, mode: BlockCompressMode, little: bool) -> (r: (usize, usize))
        requires
            old(self).wf(),
            old(self).stage == 1,
            old(self).tmp_in_size == 0,
            from <= src.len(),
            at <= old(dst).len(),
            at + cost(
                old(self).prefs,
                old(self).max_block_size as int,
                src@.len() - from,
            ) <= old(dst).len(),
            old(self)@.linked() ==> old(self).stream.current_offset + (src@.len() - from)
                <= u32::MAX,
        ensures
            final(self).wf(),
            final(self).stage == 1,
            final(self).tmp_in_size == 0,
            final(self).version == old(self).version,
            final(self).xxh == old(self).xxh,
            final(self).prefs == old(self).prefs,
            final(self).max_block_size == old(self).max_block_size,
            final(self).total_in_size == old(self).total_in_size,
            final(dst)@.len() == old(dst)@.len(),
            forall|i: int| 0 <= i < at ==> #[trigger] final(dst)@[i] == old(dst)@[i],
            at <= r.0 <= final(dst)@.len(),
            from <= r.1 <= src@.len(),
            src@.len() - r.1 < final(self).max_block_size,
            r.0 + cost(final(self).prefs, final(self).max_block_size as int, src@.len() - r.1)
                <= final(dst)@.len(),
            final(self)@.linked() ==> final(self).stream.current_offset + (src@.len() - r.1)
                <= u32::MAX,
            leads(
                old(self)@,
                src@.skip(from as int),
                final(self)@,
                src@.skip(r.1 as int),
                final(dst)@.subrange(at as int, r.0 as int),
                mode,
                little,
            ),
    {
        let ghost e0 = self@;
        let bs = self.max_block_size;
        let len = src.len();
        let mut sp = from;
        let mut op = at;
        assert(dst@.subrange(at as int, at as int) =~= Seq::empty());
        proof {
            let (bytes, e) = e0.blocks(src@.skip(from as int), mode, little);
            assert(Seq::<u8>::empty() + bytes =~= bytes);
        }
        while len - sp >= bs
            invariant
                from <= sp <= len,
                len == src.len(),
                bs == self.max_block_size,
                bs == old(self).max_block_size,
                self.wf(),
                self.stage == 1,
                self.tmp_in_size == 0,
                self.version == old(self).version,
                self.xxh == old(self).xxh,
                self.prefs == old(self).prefs,
                self.total_in_size == old(self).total_in_size,
                dst@.len() == old(dst)@.len(),
                at <= op <= dst.len(),
                op + cost(self.prefs, bs as int, len - sp) <= dst.len(),
                self.prefs.frame_info.block_mode == 0 ==> self.stream.current_offset + (len - sp)
                    <= u32::MAX,
                forall|i: int| 0 <= i < at ==> #[trigger] dst@[i] == old(dst)@[i],
                e0 == old(self)@,
                leads(
                    e0,
                    src@.skip(from as int),
                    self@,
                    src@.skip(sp as int),
                    dst@.subrange(at as int, op as int),
                    mode,
                    little,
                ),
            decreases len - sp,
        {
            let ghost e1 = self@;
            let ghost w = dst@.subrange(at as int, op as int);
            let ghost rest = src@.skip(sp as int);
            proof {
                lemma_cost_step(self.prefs, bs as int, len - sp);
            }
            let chunk = &src[sp..sp + bs];
            assert(chunk@ =~= rest.take(bs as int));
            let ghost op0 = op as int;
            let n = self.emit_block(dst, op, chunk, mode, little);
            op = op + n;
            sp = sp + bs;
            proof {
                assert(rest.skip(bs as int) =~= src@.skip(sp as int));
                assert(dst@.subrange(at as int, op as int) =~= w + dst@.subrange(op0, op as int));
                lemma_leads(e0, src@.skip(from as int), e1, rest, w, mode, little);
            }
        }
        (op, sp)
    }

    /// Writes what waits, filled up from `src`, as a block. Returns where it
    /// ends in `dst` and in `src`.
    fn complete_block(&mut self, dst: &mut [u8], at: usize, src: &[u8], mode: BlockCompressMode, little: bool) -> (r: (usize, usize))
        requires
            old(self).wf(),
            old(self).stage == 1,
            old(self).tmp_in_size + src@.len() >= old(self).max_block_size,
            at + 4 + old(self).max_block_size + crc_size(old(self).prefs) <= old(dst).len(),
            old(self)@.linked() ==> old(self).stream.current_offset + old(self).max_block_size
                <= u32::MAX,
        ensures
            final(self).wf(),
            final(self).stage == 1,
            final(self).tmp_in_size == 0,
            final(self).version == old(self).version,
            final(self).xxh == old(self).xxh,
            final(self).prefs == old(self).prefs,
            final(self).max_block_size == old(self).max_block_size,
            final(self).total_in_size == old(self).total_in_size,
            final(dst)@.len() == old(dst)@.len(),
            forall|i: int| 0 <= i < at ==> #[trigger] final(dst)@[i] == old(dst)@[i],
            r.1 == old(self).max_block_size - old(self).tmp_in_size,
            at <= r.0 <= at + 4 + old(self).max_block_size + crc_size(old(self).prefs),
            old(self)@.linked() ==> final(self).stream.current_offset
                == old(self).stream.current_offset + old(self).max_block_size,
            leads(
                old(self)@,
                old(self)@.buffered + src@,
                final(self)@,
                src@.skip(r.1 as int),
                final(dst)@.subrange(at as int, r.0 as int),
                mode,
                little,
            ),
    {
        let ghost e0 = self@;
        let ghost all = e0.buffered + src@;
        let bs = self.max_block_size;
        let b = self.tmp_in_size;
        let need = bs - b;
        let mut block = copy_slice(self.tmp.as_slice(), 0, bs);
        copy_from(block.as_mut_slice(), b, src, 0, need);
        assert(block@ =~= all.take(bs as int));
        let n = self.emit_block(dst, at, block.as_slice(), mode, little);
        proof {
            assert(all.skip(bs as int) =~= src@.skip(need as int));
        }
        (at + n, need)
    }

    /// Writes what waits and `src` as blocks from `at` on, and returns where
    /// they end. What does not fill a block waits, unless it is to be flushed.
    #[verifier::rlimit(60)]
    #[verifier::spinoff_prover]
    fn write_blocks(&mut self, dst: &mut [u8], at: usize, src: &[u8], mode: BlockCompressMode, little: bool) -> (end: usize)
        requires
            old(self).wf(),
            old(self).stage == 1,
            at <= old(dst).len(),
            at + cost(
                old(self).prefs,
                old(self).max_block_size as int,
                (old(self)@.buffered.len() + src@.len()) as int,
            ) <= old(dst).len(),
            old(self)@.linked() ==> old(self).stream.current_offset + old(self).tmp_in_size
                + src@.len() <= u32::MAX,
        ensures
            final(self).wf(),
            final(self).version == old(self).version,
            final(self).xxh == old(self).xxh,
            final(self).total_in_size == old(self).total_in_size,
            final(self).prefs == old(self).prefs,
            final(dst)@.len() == old(dst)@.len(),
            ({
                let (bytes, e) = old(self)@.blocks(old(self)@.buffered + src@, mode, little);
                &&& final(self)@ == e
                &&& end == at + bytes.len()
                &&& end <= final(dst)@.len()
                &&& final(dst)@.subrange(at as int, end as int) == bytes
            }),
            forall|i: int| 0 <= i < at ==> #[trigger] final(dst)@[i] == old(dst)@[i],
    {
        let ghost e0 = self@;
        let ghost all = e0.buffered + src@;
        let bs = self.max_block_size;
        let len = src.len();
        let mut sp: usize = 0;
        let mut op = at;
        if self.tmp_in_size > 0 {
            let b = self.tmp_in_size;
            if bs - b > len {
                self.wait(src, 0);
                assert(dst@.subrange(at as int, at as int) =~= Seq::empty());
                assert(e0.buffered + src@.skip(0) =~= all);
                return op;
            }
            proof {
                lemma_cost_step(self.prefs, bs as int, all.len() as int);
            }
            let r = self.complete_block(dst, op, src, mode, little);
            op = r.0;
            sp = r.1;
        } else {
            proof {
                assert(e0.buffered =~= Seq::empty());
                assert(all =~= src@.skip(0));
                assert(dst@.subrange(at as int, at as int) =~= Seq::empty());
                let (bytes, e) = e0.blocks(all, mode, little);
                assert(Seq::<u8>::empty() + bytes =~= bytes);
            }
        }
        let ghost e1 = self@;
        let ghost w = dst@.subrange(at as int, op as int);
        let ghost op1 = op as int;
        let ghost rest1 = src@.skip(sp as int);
        let r = self.whole_blocks(dst, op, src, sp, mode, little);
        op = r.0;
        sp = r.1;
        let ghost e2 = self@;
        let ghost rest = src@.skip(sp as int);
        let ghost w2 = dst@.subrange(at as int, op as int);
        proof {
            assert(w2 =~= w + dst@.subrange(op1, op as int));
            lemma_leads_joined(e0, all, e1, rest1, w, e2, rest, dst@.subrange(op1, op as int), mode, little);
        }
        let ghost op2 = op as int;
        op = self.last_block(dst, op, src, sp, mode, little);
        assert(dst@.subrange(at as int, op as int) =~= w2 + dst@.subrange(op2, op as int));
        op
    }

    /// Writes or keeps the input from `sp` on, which does not fill a block,
    /// with nothing waiting.
    fn last_block(&mut self, dst: &mut [u8], at: usize, src: &[u8], sp: usize, mode: BlockCompressMode, little: bool) -> (end: usize)
        requires
            old(self).wf(),
            old(self).stage == 1,
            old(self).tmp_in_size == 0,
            sp <= src.len(),
            src@.len() - sp < old(self).max_block_size,
            at <= old(dst).len(),
            at + cost(old(self).prefs, old(self).max_block_size as int, src@.len() - sp) <= old(
                dst,
            ).len(),
            old(self)@.linked() ==> old(self).stream.current_offset + (src@.len() - sp) <= u32::MAX,
        ensures
            final(self).wf(),
            final(self).version == old(self).version,
            final(self).xxh == old(self).xxh,
            final(self).total_in_size == old(self).total_in_size,
            final(self).prefs == old(self).prefs,
            final(dst)@.len() == old(dst)@.len(),
            forall|i: int| 0 <= i < at ==> #[trigger] final(dst)@[i] == old(dst)@[i],
            ({
                let (bytes, e) = old(self)@.blocks(src@.skip(sp as int), mode, little);
                &&& final(self)@ == e
                &&& end == at + bytes.len()
                &&& end <= final(dst)@.len()
                &&& final(dst)@.subrange(at as int, end as int) == bytes
            }),
    {
        let ghost e2 = self@;
        let ghost rest = src@.skip(sp as int);
        let len = src.len();
        if sp < len {
            proof {
                lemma_cost_tail(self.prefs, self.max_block_size as int, len - sp);
            }
            if self.prefs.auto_flush {
                let chunk = &src[sp..len];
                assert(chunk@ =~= rest);
                let n = self.emit_block(dst, at, chunk, mode, little);
                return at + n;
            }
            self.wait(src, sp);
            assert(e2.buffered =~= Seq::empty());
            assert(e2.buffered + rest =~= rest);
        } else {
            assert(rest =~= Seq::empty());
            assert(e2.buffered =~= Seq::empty());
            assert(e2 =~= (Encoder { buffered: rest, ..e2 }));
        }
        assert(dst@.subrange(at as int, at as int) =~= Seq::empty());
        at
    }

    /// Lets the input from `from` on wait.
    fn wait(&mut self, src: &[u8], from: usize)
        requires
            old(self).wf(),
            old(self).stage == 1,
            from <= src.len(),
            !old(self).prefs.auto_flush,
            old(self).tmp_in_size + (src@.len() - from) < old(self).max_block_size,
        ensures
            final(self).wf(),
            final(self).version == old(self).version,
            final(self).xxh == old(self).xxh,
            final(self).total_in_size == old(self).total_in_size,
            final(self).prefs == old(self).prefs,
            final(self)@ == (Encoder {
                buffered: old(self)@.buffered + src@.skip(from as int),
                ..old(self)@
            }),
    {
        let b = self.tmp_in_size;
        let n = src.len() - from;
        let ghost all = self@.buffered + src@.skip(from as int);
        copy_from(self.tmp.as_mut_slice(), b, src, from, n);
        self.tmp_in_size = b + n;
        proof {
            assert(self.tmp@.take(b + n) =~= all);
            let data = choose|data: Seq<u8>| old(self).xxh.tracks(data, 0);
            assert(self.xxh.tracks(data, 0));
        }
    }

    /// How many bytes the blocks of what waits and `n` more bytes can take.
    fn blocks_cost(&self, n: usize) -> (c: u128)
        requires
            self.wf(),
            self.stage == 1,
        ensures
            c == cost(
                self.prefs,
                self.max_block_size as int,
                (self@.buffered.len() + n) as int,
            ),
    {
        reveal(cost);
        let bs = self.max_block_size as u128;
        let all = self.tmp_in_size as u128 + n as u128;
        let over: u128 = if self.prefs.frame_info.block_checksum {
            8
        } else {
            4
        };
        let full = all / bs;
        let left = all % bs;
        proof {
            assert(full * (bs + over) <= all * 2 + 16) by (nonlinear_arith)
                requires
                    full == all / bs,
                    bs >= 16,
                    over <= 8,
            ;
        }
        full * (bs + over) + (if self.prefs.auto_flush && left > 0 {
            left + over
        } else {
            0
        })
    }
}

/// The end mark of a frame, and a checksum behind it.
spec fn end_mark(crc: Option<u32>) -> Seq<u8> {
    le32_bytes(0) + (match crc {
        Some(c) => le32_bytes(c),
        None => Seq::empty(),
    })
}

/// Writes the end mark at `at`, and a checksum behind it, as far as there is
/// room; `None` if there is not enough.
fn write_end(dst: &mut [u8], at: usize, crc: Option<u32>) -> (end: Option<usize>)
    requires
        at <= old(dst).len(),
    ensures
        final(dst)@.len() == old(dst)@.len(),
        ({
            let room = old(dst)@.len() - at;
            let before = old(dst)@.take(at as int);
            if room < 4 {
                end is None && final(dst)@ == old(dst)@
            } else if room < end_mark(crc).len() {
                end is None && final(dst)@.take(at + 4) == before + le32_bytes(0)
            } else {
                end matches Some(n) && n == at + end_mark(crc).len() && final(dst)@.take(n as int)
                    == before + end_mark(crc)
            }
        }),
{
    let room = dst.len() - at;
    if room < 4 {
        return None;
    }
    write_le32(dst, at, 0);
    assert(dst@.take(at + 4) =~= old(dst)@.take(at as int) + le32_bytes(0));
    match crc {
        Some(c) => {
            if room < 8 {
                return None;
            }
            write_le32(dst, at + 4, c);
            assert(dst@.take(at + 8) =~= old(dst)@.take(at as int) + end_mark(crc));
            Some(at + 8)
        },
        None => {
            assert(end_mark(crc) =~= le32_bytes(0));
            Some(at + 4)
        },
    }
}

/// Whether ending a frame took the context from `c0` to `c1`, whatever content
/// its checksum stands for.
pub open spec fn closes(c0: Cctx, c1: Cctx, room: int, little: bool, r: Res<usize>, dst: Seq<u8>) -> bool {
    forall|content: Seq<u8>| #[trigger]
        c0.xxh.tracks(content, 0) ==> ({
            let (bytes, e) = c0@.ended(content, room, little);
            let written = c0@.ending(content, room, little);
            &&& c1@ == e
            &&& wrote(r, dst, bytes)
            &&& written.len() <= dst.len()
            &&& dst.take(written.len() as int) == written
        })
}

impl Cctx {
    /// Ends the frame: writes what waits, the end mark, and the checksum of
    /// the content if there is one. Returns how many bytes that took.
    ///
    /// A content size that was announced wrongly is reported once the frame
    /// is written.
    pub fn end(&mut self, dst: &mut [u8]) -> (r: Res<usize>)
        requires
            old(self).wf(),
            old(self)@.linked() ==> old(self).stream.current_offset + old(self).tmp_in_size
                <= u32::MAX,
        ensures
            final(self).wf(),
            final(self).version == old(self).version,
            final(self).xxh == old(self).xxh,
            final(dst)@.len() == old(dst)@.len(),
            exists|little: bool| #[trigger]
                closes(*old(self), *final(self), old(dst)@.len() as int, little, r, final(dst)@),
    {
        let little = host_little_endian();
        self.end_ordered(dst, little)
    }

    /// `end` on a host of the given byte order.
    #[verifier::rlimit(60)]
    #[verifier::spinoff_prover]
    pub fn end_ordered(&mut self, dst: &mut [u8], little: bool) -> (r: Res<usize>)
        requires
            old(self).wf(),
            old(self)@.linked() ==> old(self).stream.current_offset + old(self).tmp_in_size
                <= u32::MAX,
        ensures
            final(self).wf(),
            final(self).version == old(self).version,
            final(self).xxh == old(self).xxh,
            final(dst)@.len() == old(dst)@.len(),
            closes(*old(self), *final(self), old(dst)@.len() as int, little, r, final(dst)@),
    {
        let n = match self.flush_ordered(dst, little) {
            Ok(n) => n,
            Err(e) => {
                assert(dst@.take(0) =~= Seq::empty());
                return Err(e);
            },
        };
        let crc = if self.prefs.frame_info.content_checksum {
            Some(xxh32_digest(&self.xxh))
        } else {
            None
        };
        assert forall|content: Seq<u8>| #[trigger] old(self).xxh.tracks(content, 0) implies old(
            self,
        )@.trailer(content) == end_mark(crc) by {}
        let n = match write_end(dst, n, crc) {
            Some(end) => end,
            None => {
                return Err(Error::DstMaxSizeTooSmall);
            },
        };
        self.stage = 0;
        proof {
            let data = choose|data: Seq<u8>| old(self).xxh.tracks(data, 0);
            assert(self.xxh.tracks(data, 0));
        }
        if self.prefs.frame_info.content_size != 0 && self.prefs.frame_info.content_size
            != self.total_in_size {
            return Err(Error::FrameSizeWrong);
        }
        Ok(n)
    }
}

impl Default for Cctx {
    fn default() -> (c: Cctx)
        ensures
            c.wf(),
            c.version == LZ4F_VERSION,
            c@ == idle(),
            c.xxh.tracks(Seq::empty(), 0),
    {
        Cctx::new()
    }
}

/// The preferences that a whole frame of `len` bytes is compressed with: the
/// block size shrunk to fit, and a single block not linked to anything.
pub open spec fn frame_preferences(p: Preferences, len: int) -> Preferences {
    let id = optimal_bsid_spec(
        if p.frame_info.block_size_id > 8 {
            8
        } else {
            p.frame_info.block_size_id
        },
        len,
    );
    Preferences {
        frame_info: FrameInfo {
            content_size: if p.frame_info.content_size != 0 {
                len as u64
            } else {
                0
            },
            block_size_id: id,
            block_mode: if block_size(id) matches Some(n) && len <= n {
                1
            } else {
                p.frame_info.block_mode
            },
            ..p.frame_info
        },
        auto_flush: true,
        ..p
    }
}

/// A whole frame: header, blocks, end.
pub open spec fn whole_frame(p: Preferences, loaded: Option<Seq<u8>>, src: Seq<u8>, little: bool) -> Seq<u8> {
    let e = begun(p, loaded, loaded is Some, little);
    frame_header(settled_preferences(p)) + e.blocks(
        src,
        BlockCompressMode::Compressed,
        little,
    ).0 + e.trailer(src)
}

/// The blocks of a frame without history to wait for: nothing waits at its
/// end, and the bytes stay within their cost.
proof fn lemma_flushed_blocks(e: Encoder, data: Seq<u8>, mode: BlockCompressMode, little: bool)
    requires
        e.prefs.auto_flush,
        e.block > 0,
    ensures
        ({
            let (bytes, f) = e.blocks(data, mode, little);
            &&& f.buffered.len() == 0
            &&& f.prefs == e.prefs
            &&& f.stage == e.stage
            &&& f.total == e.total
            &&& bytes.len() <= cost(e.prefs, e.block, data.len() as int)
        }),
    decreases data.len(),
{
    if e.block <= data.len() {
        let chunk = data.take(e.block);
        let f = e.after(chunk, mode, little);
        reveal(Encoder::after_in);
        lemma_block_len(e, chunk, mode, little);
        lemma_cost_step(e.prefs, e.block, data.len() as int);
        lemma_flushed_blocks(f, data.skip(e.block), mode, little);
    } else if data.len() > 0 {
        reveal(Encoder::after_in);
        lemma_block_len(e, data, mode, little);
        lemma_cost_tail(e.prefs, e.block, data.len() as int);
    } else {
        lemma_cost_pos(e.prefs, e.block, 0);
    }
}

/// A block takes no more than its input, its header and its checksum.
pub proof fn lemma_block_len(e: Encoder, chunk: Seq<u8>, mode: BlockCompressMode, little: bool)
    ensures
        e.block_for(chunk, mode, little).len() <= 4 + chunk.len() + crc_size(e.prefs),
{
    reveal(Encoder::block_in);
}

/// What `compress_frame` gives on a host of the given byte order.
pub open spec fn framed(p: Preferences, loaded: Option<Seq<u8>>, src: Seq<u8>, room: int, little: bool) -> Res<Seq<u8>> {
    let q = frame_preferences(p, src.len() as int);
    if block_size(q.frame_info.block_size_id) is None {
        Err(Error::MaxBlockSizeInvalid)
    } else if room < compress_frame_bound_spec(src.len() as int, Some(&q)) {
        Err(Error::DstMaxSizeTooSmall)
    } else {
        Ok(whole_frame(q, loaded, src, little))
    }
}

/// Compresses `src` as a whole frame into `dst`, and returns how many bytes it
/// took.
#[verifier::rlimit(30)]
pub fn compress_frame(cctx: &mut Cctx, dst: &mut [u8], src: &[u8], cdict: Option<&CDict>, prefs: Option<&Preferences>) -> (r: Res<usize>)
    requires
        old(cctx).intact(),
        frame_preferences(given(prefs), src@.len() as int).frame_info.block_mode == 0
            ==> src@.len() + WINDOW <= u32::MAX,
    ensures
        final(cctx).intact(),
        r is Ok ==> final(cctx).wf() && final(cctx).stage == 0,
        r is Err ==> *final(cctx) == *old(cctx) && final(dst)@ == old(dst)@,
        final(dst)@.len() == old(dst)@.len(),
        exists|little: bool|
            wrote(
                r,
                final(dst)@,
                #[trigger] framed(
                    given(prefs),
                    loaded_dict(None, cdict),
                    src@,
                    old(dst)@.len() as int,
                    little,
                ),
            ),
{
    let little = host_little_endian();
    let mut p = or_default(prefs);
    if p.frame_info.content_size != 0 {
        p.frame_info.content_size = src.len() as u64;
    }
    p.frame_info.block_size_id =
    optimal_bsid(
        if p.frame_info.block_size_id > 8 {
            8
        } else {
            p.frame_info.block_size_id
        },
        src.len(),
    );
    p.auto_flush = true;
    let size = match get_block_size(p.frame_info.block_size_id) {
        Ok(n) => n,
        Err(e) => {
            assert(framed(
                given(prefs),
                loaded_dict(None, cdict),
                src@,
                old(dst)@.len() as int,
                little,
            ) == Err::<Seq<u8>, Error>(Error::MaxBlockSizeInvalid));
            return Err(e);
        },
    };
    if src.len() <= size {
        // A single block has nothing to link to.
        p.frame_info.block_mode = 1;
    }
    let ghost q = frame_preferences(given(prefs), src@.len() as int);
    assert(p == q);
    let ghost loaded = loaded_dict(None, cdict);
    let need = compress_bound_internal(src.len(), &p, 0);
    if (dst.len() as u128) < need + HEADER_SIZE_MAX as u128 {
        assert(framed(given(prefs), loaded, src@, old(dst)@.len() as int, little) == Err::<
            Seq<u8>,
            Error,
        >(Error::DstMaxSizeTooSmall));
        return Err(Error::DstMaxSizeTooSmall);
    }
    frame_parts(cctx, dst, src, cdict, &p, little)
}

/// The parts of a whole frame, one after the other.
#[verifier::rlimit(30)]
fn frame_parts(cctx: &mut Cctx, dst: &mut [u8], src: &[u8], cdict: Option<&CDict>, p: &Preferences, little: bool) -> (r: Res<usize>)
    requires
        old(cctx).intact(),
        block_size(p.frame_info.block_size_id) is Some,
        p.auto_flush,
        p.frame_info.content_size != 0 ==> p.frame_info.content_size == src@.len(),
        old(dst)@.len() >= HEADER_SIZE_MAX + bound_internal(src@.len() as int, *p, 0),
        p.frame_info.block_mode == 0 ==> src@.len() + WINDOW <= u32::MAX,
    ensures
        final(cctx).intact(),
        final(cctx).wf(),
        final(cctx).stage == 0,
        final(dst)@.len() == old(dst)@.len(),
        wrote(
            r,
            final(dst)@,
            Ok(whole_frame(*p, loaded_dict(None, cdict), src@, little)),
        ),
{
    let ghost loaded = loaded_dict(None, cdict);
    let ghost e0 = begun(*p, loaded, cdict is Some, little);
    proof {
        lemma_header_len(settled_preferences(*p));
        lemma_bound_pos(src@.len() as int, *p);
    }
    assert(bound_internal(src@.len() as int, settled_preferences(*p), 0) == bound_internal(
        src@.len() as int,
        *p,
        0,
    )) by {
        reveal(bound_internal);
    }
    let n0 = match cctx.begin_ordered(dst, None, cdict, Some(p), little) {
        Ok(n) => n,
        Err(e) => {
            assert(false);
            return Err(e);
        },
    };
    let ghost b0 = dst@;
    assert(cctx@ == e0);
    let ghost bytes = e0.blocks(src@, BlockCompressMode::Compressed, little).0;
    let n1: usize;
    {
        let (_head, rest) = dst.split_at_mut(n0);
        n1 = frame_rest(cctx, rest, src, little);
    }
    proof {
        let h = frame_header(settled_preferences(*p));
        assert(dst@.take(n0 as int) =~= h);
        let tail = dst@.skip(n0 as int);
        assert(tail.take(n1 as int) == bytes + e0.trailer(src@));
        assert(dst@.take(n0 + n1) =~= h + tail.take(n1 as int));
        assert(h + (bytes + e0.trailer(src@)) =~= h + bytes + e0.trailer(src@));
    }
    assert(n0 + n1 <= dst.len());
    Ok(n0 + n1)
}

/// What follows the header of a whole frame.
#[verifier::rlimit(30)]
fn frame_rest(cctx: &mut Cctx, dst: &mut [u8], src: &[u8], little: bool) -> (n: usize)
    requires
        old(cctx).wf(),
        old(cctx).stage == 1,
        old(cctx).tmp_in_size == 0,
        old(cctx).total_in_size == 0,
        old(cctx).prefs.auto_flush,
        old(cctx).block_compress_mode == BlockCompressMode::Compressed,
        old(cctx).xxh.tracks(Seq::empty(), 0),
        old(cctx).prefs.frame_info.content_size != 0 ==> old(
            cctx,
        ).prefs.frame_info.content_size == src@.len(),
        old(dst)@.len() >= bound_internal(src@.len() as int, old(cctx).prefs, 0),
        old(cctx)@.linked() ==> old(cctx).stream.current_offset + src@.len() <= u32::MAX,
    ensures
        final(cctx).wf(),
        final(cctx).stage == 0,
        final(dst)@.len() == old(dst)@.len(),
        n <= final(dst)@.len(),
        final(dst)@.take(n as int) == old(cctx)@.blocks(
            src@,
            BlockCompressMode::Compressed,
            little,
        ).0 + old(cctx)@.trailer(src@),
{
    let ghost e0 = cctx@;
    let ghost len = src@.len() as int;
    let slen: usize = src.len();
    let ghost mode = BlockCompressMode::Compressed;
    let ghost (bytes, f) = e0.blocks(src@, mode, little);
    proof {
        lemma_cost(e0, len);
        lemma_flushed_blocks(e0, src@, mode, little);
        law_update_succeeds(e0, src@, mode, dst@.len() as int, little);
        assert(e0.buffered + src@ =~= src@);
    }
    let n1 = match cctx.update_ordered(dst, src, BlockCompressMode::Compressed, little) {
        Ok(n) => n,
        Err(_) => {
            assert(false);
            0
        },
    };
    assert(Seq::<u8>::empty() + src@ =~= src@);
    let ghost content = if e0.prefs.frame_info.content_checksum {
        src@
    } else {
        choose|data: Seq<u8>| cctx.xxh.tracks(data, 0)
    };
    let n2: usize;
    {
        let (_body, tail) = dst.split_at_mut(n1);
        n2 =
        match cctx.end_ordered(tail, little) {
            Ok(n) => n,
            Err(_) => {
                assert(false);
                0
            },
        };
    }
    proof {
        assert(cctx.stage == 0);
        let rest = dst@.skip(n1 as int);
        assert(dst@.take(n1 as int) =~= bytes);
        assert(dst@.take(n1 + n2) =~= bytes + rest.take(n2 as int));
        assert(Seq::<u8>::empty() + e0.trailer(src@) =~= e0.trailer(src@));
    }
    assert(n1 + n2 <= dst.len());
    n1 + n2
}

/// Given as much room as the bound, an update that does not change the kind of
/// blocks succeeds.
pub proof fn law_update_succeeds(e: Encoder, src: Seq<u8>, mode: BlockCompressMode, room: int, little: bool)
    requires
        e.stage == 1,
        block_size(e.prefs.frame_info.block_size_id) == Some(e.block),
        e.buffered.len() < e.block,
        e.mode == mode,
        room >= bound_internal(src.len() as int, e.prefs, e.buffered.len() as int),
        mode == BlockCompressMode::Uncompressed ==> room >= src.len(),
    ensures
        ({
            let (bytes, f) = e.blocks(e.buffered + src, mode, little);
            e.updated(src, mode, room, little) == (
                Ok::<Seq<u8>, Error>(bytes),
                Encoder { total: (e.total + src.len()) as u64, ..f },
            )
        }),
{
    lemma_cost(e, src.len() as int);
    assert(e =~= (Encoder { mode, ..e }));
    let (bytes, f) = e.blocks(e.buffered + src, mode, little);
    assert(Seq::<u8>::empty() + bytes =~= bytes);
}

/// What cutting data into blocks leaves as it was, and how far it brings the
/// stream of linked blocks.
proof fn lemma_blocks_kept(e: Encoder, data: Seq<u8>, mode: BlockCompressMode, little: bool)
    requires
        e.linked() ==> e.track.offset + data.len() <= u32::MAX,
    ensures
        ({
            let f = e.blocks(data, mode, little).1;
            &&& f.prefs == e.prefs
            &&& f.stage == e.stage
            &&& f.block == e.block
            &&& f.mode == e.mode
            &&& f.total == e.total
            &&& e.linked() ==> f.track.offset + f.buffered.len() == e.track.offset + data.len()
        }),
    decreases data.len(),
{
    reveal(Encoder::after_in);
    if 0 < e.block <= data.len() {
        let chunk = data.take(e.block);
        lemma_blocks_kept(e.after(chunk, mode, little), data.skip(e.block), mode, little);
    }
}

/// What giving input of the kind at hand leaves as it was, and how far it
/// brings the stream of linked blocks.
pub proof fn lemma_updated(e: Encoder, src: Seq<u8>, room: int, little: bool)
    requires
        e.stage == 1 ==> block_size(e.prefs.frame_info.block_size_id) == Some(e.block)
            && e.buffered.len() < e.block,
        e.linked() ==> e.track.offset + e.buffered.len() + src.len() <= u32::MAX,
    ensures
        ({
            let (r, f) = e.updated(src, e.mode, room, little);
            &&& f.prefs == e.prefs
            &&& f.stage == e.stage
            &&& f.block == e.block
            &&& f.mode == e.mode
            &&& r is Err ==> f == e
            &&& r is Ok ==> f.total == (e.total + src.len()) as u64
            &&& r is Ok && e.linked() ==> f.track.offset + f.buffered.len() == e.track.offset
                + e.buffered.len() + src.len()
        }),
{
    let e1 = Encoder { mode: e.mode, ..e };
    assert(e1 =~= e);
    if e.stage == 1 {
        lemma_cost(e, src.len() as int);
    }
    lemma_blocks_kept(e1, e1.buffered + src, e.mode, little);
}

/// What ending a frame leaves as it was.
pub proof fn lemma_ended(e: Encoder, content: Seq<u8>, room: int, little: bool)
    requires
        e.linked() ==> e.track.offset + e.buffered.len() <= u32::MAX,
    ensures
        ({
            let f = e.ended(content, room, little).1;
            &&& f.prefs == e.prefs
            &&& f.mode == e.mode
            &&& e.linked() ==> f.track.offset + f.buffered.len() == e.track.offset
                + e.buffered.len()
        }),
{
    reveal(Encoder::after_in);
}

/// A single block takes as much as it holds, and what it is framed by.
proof fn lemma_single_bound(n: int, p: Preferences)
    requires
        p.auto_flush,
        block_size(p.frame_info.block_size_id) matches Some(bs) && 0 <= n <= bs,
    ensures
        bound_internal(n, p, 0) == n + (if n > 0 {
            4 + crc_size(p)
        } else {
            0
        }) + (if p.frame_info.content_checksum {
            8int
        } else {
            4
        }),
{
    reveal(bound_internal);
    let bs = block_size(p.frame_info.block_size_id)->0;
    if n < bs {
        vstd::arithmetic::div_mod::lemma_fundamental_div_mod_converse(n, bs, 0, n);
    } else {
        vstd::arithmetic::div_mod::lemma_fundamental_div_mod_converse(n, bs, 1, 0);
    }
    assert((4 + crc_size(p)) * 0 == 0 && (4 + crc_size(p)) * 1 == 4 + crc_size(p));
    assert(bs * 0 == 0 && bs * 1 == bs);
}

/// Compressing a whole frame fails for want of room exactly where there is less
/// of it than the frame's bound under the preferences given, and for no other
/// reason where those name a block size.
pub proof fn law_frame_room(prefs: Option<&Preferences>, loaded: Option<Seq<u8>>, src: Seq<u8>, room: int, little: bool)
    requires
        block_size(given(prefs).frame_info.block_size_id) is Some,
    ensures
        framed(given(prefs), loaded, src, room, little) is Err <==> room < compress_frame_bound_spec(
            src.len() as int,
            prefs,
        ),
        framed(given(prefs), loaded, src, room, little) matches Err(e) ==> e
            == Error::DstMaxSizeTooSmall,
{
    let p = given(prefs);
    let n = src.len() as int;
    let q = frame_preferences(p, n);
    let p1 = Preferences { auto_flush: true, ..p };
    if q.frame_info.block_size_id == p.frame_info.block_size_id {
        reveal(bound_internal);
    } else {
        lemma_single_bound(n, q);
        lemma_single_bound(n, p1);
    }
}

/// The bound covers at least the input's bytes.
proof fn lemma_bound_pos(size: int, p: Preferences)
    requires
        size >= 0,
    ensures
        bound_internal(size, p, 0) >= 4,
{
    reveal(bound_internal);
    let bs = match block_size(p.frame_info.block_size_id) {
        Some(n) => n,
        None => 0x1_0000,
    };
    let full = size / bs;
    assert(full >= 0 && bs * full >= 0 && size % bs >= 0) by (nonlinear_arith)
        requires
            size >= 0,
            bs >= 1,
            full == size / bs,
    ;
    let crc = if p.frame_info.block_checksum {
        4int
    } else {
        0
    };
    assert((4 + crc) * full >= 0 && (4 + crc) * (full + 1) >= 0) by (nonlinear_arith)
        requires
            crc >= 0,
            full >= 0,
    ;
}

pub proof fn lemma_header_len(p: Preferences)
    ensures
        7 <= frame_header(p).len() <= HEADER_SIZE_MAX,
{
    reveal(frame_header);
}

} // verus!
