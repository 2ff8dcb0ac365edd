//! The compressors: one block at a time, alone or as part of a stream.
use core::ops::Range;
use vstd::prelude::*;
use crate::bytes::same_outside;
use crate::format::encodes;
use super::compress::{bound, compress_block, packed, LZ4_MAX_INPUT_SIZE};
use super::input::Input;
use super::parse::{Attached, Env, Outcome};
use super::search::{Dictionary, Search};
use super::stream::{all_zero, AbiStreamState, StreamState, WINDOW};
use super::table::{host_little_endian, unpack, Cells, Table, TableType};
use super::Error;

verus! {

/// Blocks below this size are indexed with 16 bits.
pub const LZ4_64K_LIMIT: usize = 0x1_000B;
/// The least acceleration, and the one used for anything lower.
pub const LZ4_ACCELERATION_DEFAULT: i32 = 1;
/// The greatest acceleration, and the one used for anything higher.
pub const LZ4_ACCELERATION_MAX: i32 = 65537;

/// Where the bytes that precede a block are.
#[derive(Clone, Copy, PartialEq, Eq, Structural)]
pub enum DictDirective {
    /// Nowhere: nothing precedes it.
    NoDict,
    /// Directly before it, in one piece with it.
    WithPrefix64k,
    /// Apart from it.
    UsingExtDict,
    /// Apart from it, and indexed by the table of another stream.
    UsingDictCtx,
}

/// The acceleration that is used where `a` is asked for.
pub open spec fn clamped(a: i32) -> int {
    if a < LZ4_ACCELERATION_DEFAULT {
        LZ4_ACCELERATION_DEFAULT as int
    } else if a > LZ4_ACCELERATION_MAX {
        LZ4_ACCELERATION_MAX as int
    } else {
        a as int
    }
}

fn clamp_acceleration(a: i32) -> (r: u32)
    ensures
        r == clamped(a),
        1 <= r <= 65537,
{
    if a < LZ4_ACCELERATION_DEFAULT {
        1
    } else if a > LZ4_ACCELERATION_MAX {
        65537
    } else {
        a as u32
    }
}

/// The history of a stream that has `size` bytes of it, held in `dict`.
pub open spec fn history(dict: Seq<u8>, size: u32) -> Seq<u8> {
    if size == 0 {
        Seq::empty()
    } else {
        dict
    }
}

/// How a block is to be compressed, beyond its bytes and the state of the
/// stream.
#[derive(Clone, Copy)]
pub struct Mode {
    pub directive: DictDirective,
    pub tt: TableType,
    pub limited: bool,
    pub fill: bool,
    pub accel: u32,
    pub little: bool,
}

/// What the next block `src` of a stream is compressed under.
pub open spec fn block_env(src: Seq<u8>, room: int, state: StreamState, dict: Seq<u8>, context: Option<&StreamState>, mode: Mode) -> Env {
    Env {
        src,
        hist: history(dict, state.dict_size),
        start: state.current_offset,
        apart: mode.directive == DictDirective::UsingExtDict || mode.directive
            == DictDirective::UsingDictCtx,
        attached: match context {
            Some(c) => Some(
                Attached {
                    cells: c.table@,
                    offset: c.current_offset,
                    hist: history(dict, c.dict_size),
                },
            ),
            None => None,
        },
        tt: mode.tt,
        little: mode.little,
        accel: mode.accel as int,
        room,
        limited: mode.limited,
        fill: mode.fill,
    }
}

/// Whether a stream can take a block of `len` bytes after the history `dict`.
pub open spec fn takes(state: StreamState, len: int, dict: Seq<u8>, context: Option<&StreamState>) -> bool {
    &&& state.wf()
    &&& state.current_offset + len <= u32::MAX
    &&& state.dict_size == 0 || state.dict_size == dict.len()
    &&& context matches Some(c) ==> {
        &&& c.wf()
        &&& c.dict_size == 0 || c.dict_size == dict.len()
        &&& c.dict_size <= state.current_offset
    }
}

/// Whether the stream has moved on by a block of `len` bytes.
pub open spec fn advanced(s0: StreamState, s1: StreamState, len: int, tt: TableType) -> bool {
    if 0 < len <= LZ4_MAX_INPUT_SIZE {
        &&& s1.dict_size == s0.dict_size + len
        &&& s1.current_offset == s0.current_offset + len
        &&& s1.tt == tt
    } else {
        &&& s1.dict_size == s0.dict_size
        &&& s1.current_offset == s0.current_offset
        &&& s1.tt == s0.tt
    }
}

/// What compressing `env.src` comes to: nothing, where it is too large.
pub open spec fn outcome(env: Env, cells: Cells) -> Outcome {
    if env.len() > LZ4_MAX_INPUT_SIZE {
        Outcome { block: None, consumed: 0, cells }
    } else {
        env.parse(cells)
    }
}

/// Compresses the next block of a stream.
pub fn compress_generic(buf: &mut [u8], dst: Range<usize>, input: &Input, state: &mut StreamState, dict_content: &[u8], dict_context: Option<&StreamState>, mode: Mode, consumed: &mut usize) -> (r: Result<usize, Error>)
    requires
        dst.start <= dst.end <= old(buf).len(),
        input.wf(old(buf).len() as nat),
        input.spec_len() <= LZ4_MAX_INPUT_SIZE ==> takes(
            *old(state),
            input.spec_len(),
            dict_content@,
            dict_context,
        ),
        old(state).table@.wf(),
        mode.directive == DictDirective::UsingDictCtx <==> dict_context is Some,
        dict_context is Some ==> old(state).dict_size == 0 && mode.tt == TableType::U32,
        mode.tt == TableType::U16 ==> old(state).table@.tt == TableType::U16 && old(state).dict_size
            == 0 && input.spec_len() < LZ4_64K_LIMIT,
        mode.fill ==> mode.limited,
        !mode.limited && input.spec_len() <= LZ4_MAX_INPUT_SIZE ==> bound(input.spec_len())
            <= dst.end - dst.start,
        1 <= mode.accel <= 65537,
    ensures
        final(state).table@.wf(),
        final(state).table@.tt == old(state).table@.tt,
        advanced(*old(state), *final(state), input.spec_len(), mode.tt),
        same_outside(final(buf)@, old(buf)@, dst.start as int, dst.end as int),
        r matches Ok(n) ==> n <= dst.end - dst.start,
        r is Err ==> r == Err::<usize, Error>(Error::OutputTooSmall),
        input.spec_len() > LZ4_MAX_INPUT_SIZE ==> r is Err,
        input.clear(dst.start as int, dst.end as int) ==> ({
            let env = block_env(
                input.bytes(old(buf)@),
                dst.end - dst.start,
                *old(state),
                dict_content@,
                dict_context,
                mode,
            );
            let o = outcome(env, old(state).table@);
            &&& packed(o, dst.start as int, final(buf)@, r)
            &&& final(state).table@ == o.cells
            &&& mode.fill && r is Ok && input.spec_len() > 0 ==> *final(consumed) == o.consumed
        }),
        !mode.fill || r is Err || input.spec_len() == 0 ==> *final(consumed) == *old(consumed),
{
    let input_size = input.len();
    if input_size > LZ4_MAX_INPUT_SIZE as usize {
        return Err(Error::OutputTooSmall);
    }
    let empty: &[u8] = &[];
    let own = if state.dict_size == 0 {
        empty
    } else {
        dict_content
    };
    let attached = match dict_context {
        Some(c) => Some(
            Dictionary {
                table: &c.table,
                offset: c.current_offset,
                hist: if c.dict_size == 0 {
                    empty
                } else {
                    dict_content
                },
            },
        ),
        None => None,
    };
    let q = Search {
        hist: own,
        start: state.current_offset,
        apart: mode.directive == DictDirective::UsingExtDict || mode.directive
            == DictDirective::UsingDictCtx,
        attached,
        tt: mode.tt,
        little: mode.little,
        accel: mode.accel,
        room: dst.end - dst.start,
        limited: mode.limited,
        fill: mode.fill,
    };
    proof {
        let env = block_env(
            input.bytes(buf@),
            dst.end - dst.start,
            *old(state),
            dict_content@,
            dict_context,
            mode,
        );
        assert(q.env(input.bytes(buf@)) =~= env);
    }
    if input_size > 0 {
        state.dict_size = state.dict_size + input_size as u32;
        state.current_offset = state.current_offset + input_size as u32;
        state.tt = mode.tt;
    }
    compress_block(buf, &dst, input, &q, &mut state.table, consumed)
}

/// How wide the indices are for a block of `len` bytes compressed alone.
pub open spec fn own_type(len: int) -> TableType {
    if len < LZ4_64K_LIMIT {
        TableType::U16
    } else {
        TableType::U32
    }
}

fn table_type_for(len: usize) -> (tt: TableType)
    ensures
        tt == own_type(len as int),
{
    if len < LZ4_64K_LIMIT {
        TableType::U16
    } else {
        TableType::U32
    }
}

/// What a block compressed alone is compressed under.
pub open spec fn alone_env(src: Seq<u8>, start: u32, room: int, limited: bool, fill: bool, acceleration: i32, little: bool) -> Env {
    Env {
        src,
        hist: Seq::empty(),
        start,
        apart: false,
        attached: None,
        tt: own_type(src.len() as int),
        little,
        accel: clamped(acceleration),
        room,
        limited,
        fill,
    }
}

/// What `compress_fast` comes to on a host of the given byte order.
pub open spec fn fast_outcome(src: Seq<u8>, room: int, acceleration: i32, little: bool) -> Outcome {
    outcome(
        alone_env(src, 0, room, room < bound(src.len() as int), false, acceleration, little),
        Cells::zero(own_type(src.len() as int)),
    )
}

/// What `compress_dest_size` comes to on a host of the given byte order.
pub open spec fn filled_outcome(src: Seq<u8>, room: int, acceleration: i32, little: bool) -> Outcome {
    outcome(
        alone_env(src, 0, room, true, true, acceleration, little),
        Cells::zero(own_type(src.len() as int)),
    )
}

/// Whether a capacity is below the bound for `len` input bytes.
fn below_bound(capacity: usize, len: usize) -> (b: bool)
    requires
        len <= LZ4_MAX_INPUT_SIZE,
    ensures
        b == (capacity < bound(len as int)),
{
    capacity < len + len / 255 + 16
}

/// Compresses a block that has no history into `dst`, and returns how many
/// bytes it took.
///
/// The result is stated for an input that `dst` does not overlap; otherwise
/// only that nothing outside `dst` is written.
pub fn compress_fast(buf: &mut [u8], dst: Range<usize>, input: &Input, acceleration: i32) -> (r: Result<usize, Error>)
    requires
        dst.start <= dst.end <= old(buf).len(),
        input.wf(old(buf).len() as nat),
    ensures
        same_outside(final(buf)@, old(buf)@, dst.start as int, dst.end as int),
        r matches Ok(n) ==> n <= dst.end - dst.start,
        r is Err ==> r == Err::<usize, Error>(Error::OutputTooSmall),
        input.clear(dst.start as int, dst.end as int) ==> ({
            let src = input.bytes(old(buf)@);
            let room = dst.end - dst.start;
            &&& exists|little: bool|
                packed(
                    #[trigger] fast_outcome(src, room, acceleration, little),
                    dst.start as int,
                    final(buf)@,
                    r,
                )
            &&& r matches Ok(n) ==> encodes(
                Seq::empty(),
                final(buf)@.subrange(dst.start as int, dst.start + n),
                src,
            )
            &&& src.len() <= LZ4_MAX_INPUT_SIZE && room >= bound(src.len() as int) ==> r is Ok
        }),
{
    let little = host_little_endian();
    compress_fast_ordered(buf, dst, input, acceleration, little)
}

/// `compress_fast` on a host of the given byte order.
pub fn compress_fast_ordered(buf: &mut [u8], dst: Range<usize>, input: &Input, acceleration: i32, little: bool) -> (r: Result<usize, Error>)
    requires
        dst.start <= dst.end <= old(buf).len(),
        input.wf(old(buf).len() as nat),
    ensures
        same_outside(final(buf)@, old(buf)@, dst.start as int, dst.end as int),
        r matches Ok(n) ==> n <= dst.end - dst.start,
        r is Err ==> r == Err::<usize, Error>(Error::OutputTooSmall),
        input.clear(dst.start as int, dst.end as int) ==> ({
            let src = input.bytes(old(buf)@);
            let room = dst.end - dst.start;
            &&& packed(
                fast_outcome(src, room, acceleration, little),
                dst.start as int,
                final(buf)@,
                r,
            )
            &&& r matches Ok(n) ==> encodes(
                Seq::empty(),
                final(buf)@.subrange(dst.start as int, dst.start + n),
                src,
            )
            &&& src.len() <= LZ4_MAX_INPUT_SIZE && room >= bound(src.len() as int) ==> r is Ok
        }),
{
    let ghost src = input.bytes(buf@);
    let src_size = input.len();
    if src_size > LZ4_MAX_INPUT_SIZE as usize {
        return Err(Error::OutputTooSmall);
    }
    let tt = table_type_for(src_size);
    let limited = below_bound(dst.end - dst.start, src_size);
    let mut state = StreamState { table: Table::new(tt), current_offset: 0, dict_size: 0, tt };
    let mode = Mode {
        directive: DictDirective::NoDict,
        tt,
        limited,
        fill: false,
        accel: clamp_acceleration(acceleration),
        little,
    };
    let mut consumed: usize = 0;
    proof {
        let env = alone_env(
            src,
            0,
            dst.end - dst.start,
            limited,
            false,
            acceleration,
            little,
        );
        assert(block_env(src, dst.end - dst.start, state, Seq::empty(), None, mode) =~= env);
        lemma_outcome(env, Cells::zero(tt));
    }
    compress_generic(buf, dst, input, &mut state, &[], None, mode, &mut consumed)
}

/// What holds of every outcome.
proof fn lemma_outcome(env: Env, cells: Cells)
    requires
        env.len() <= LZ4_MAX_INPUT_SIZE ==> env.wf(),
    ensures
        env.encoded(outcome(env, cells)),
        env.src.take(env.len()) == env.src,
        env.len() <= LZ4_MAX_INPUT_SIZE && !env.fill && bound(env.len()) <= env.room ==> outcome(
            env,
            cells,
        ).block is Some,
        env.len() <= LZ4_MAX_INPUT_SIZE && env.fill && env.room > 0 ==> outcome(
            env,
            cells,
        ).block is Some,
{
    assert(env.src.take(env.len()) =~= env.src);
    if env.len() <= LZ4_MAX_INPUT_SIZE {
        env.law_parse_encodes(cells);
        if !env.fill && bound(env.len()) <= env.room {
            env.law_bound_suffices(cells);
        }
        if env.fill && env.room > 0 {
            env.law_fill_succeeds(cells);
        }
    }
}

/// Compresses as much of the input as fits `dst`, and returns how many bytes
/// were written and how many input bytes they stand for.
pub fn compress_dest_size(buf: &mut [u8], dst: Range<usize>, input: &Input, acceleration: i32) -> (r: Result<(usize, usize), Error>)
    requires
        dst.start <= dst.end <= old(buf).len(),
        input.wf(old(buf).len() as nat),
    ensures
        same_outside(final(buf)@, old(buf)@, dst.start as int, dst.end as int),
        r matches Ok((n, _)) ==> n <= dst.end - dst.start,
        r is Err ==> r == Err::<(usize, usize), Error>(Error::OutputTooSmall),
        dst.start == dst.end ==> r is Err,
        input.clear(dst.start as int, dst.end as int) && dst.start < dst.end ==> ({
            let src = input.bytes(old(buf)@);
            let room = dst.end - dst.start;
            &&& exists|little: bool|
                ({
                    let o = #[trigger] filled_outcome(src, room, acceleration, little);
                    match r {
                        Ok((n, k)) => packed(o, dst.start as int, final(buf)@, Ok(n)) && k
                            == o.consumed,
                        Err(e) => packed(o, dst.start as int, final(buf)@, Err(e)),
                    }
                })
            &&& r matches Ok((n, k)) ==> k <= src.len() && encodes(
                Seq::empty(),
                final(buf)@.subrange(dst.start as int, dst.start + n),
                src.take(k as int),
            )
            &&& r is Ok <==> src.len() <= LZ4_MAX_INPUT_SIZE
        }),
{
    if dst.start == dst.end {
        return Err(Error::OutputTooSmall);
    }
    let ghost src = input.bytes(buf@);
    let ghost room = dst.end - dst.start;
    let ghost start = dst.start as int;
    let little = host_little_endian();
    let src_size = input.len();
    let tt = table_type_for(src_size);
    let mut state = StreamState { table: Table::new(tt), current_offset: 0, dict_size: 0, tt };
    let mode = Mode {
        directive: DictDirective::NoDict,
        tt,
        limited: true,
        fill: true,
        accel: clamp_acceleration(acceleration),
        little,
    };
    let mut consumed: usize = 0;
    proof {
        let env = alone_env(src, 0, room, true, true, acceleration, little);
        assert(block_env(src, room, state, Seq::empty(), None, mode) =~= env);
        lemma_outcome(env, Cells::zero(tt));
    }
    let ghost o = filled_outcome(src, room, acceleration, little);
    match compress_generic(buf, dst, input, &mut state, &[], None, mode, &mut consumed) {
        Ok(n) => Ok((n, consumed)),
        Err(e) => Err(e),
    }
}

/// How much of its history a stream uses for the next block: nothing where
/// another stream's table is attached, nor where a history held apart is too
/// short to refer to.
pub open spec fn used_history(state: StreamState, len: int, prefix: bool, attached: bool) -> u32 {
    if attached || (state.dict_size < 4 && !prefix && len > 0) {
        0
    } else {
        state.dict_size
    }
}

/// A stream with only the history that it uses.
pub open spec fn trimmed(state: StreamState, len: int, prefix: bool, attached: bool) -> StreamState {
    StreamState {
        table: state.table,
        current_offset: state.current_offset,
        dict_size: used_history(state, len, prefix, attached),
        tt: state.tt,
    }
}

/// How the blocks of a stream are compressed.
pub open spec fn stream_mode(prefix: bool, attached: bool, acceleration: i32, little: bool) -> Mode {
    Mode {
        directive: if attached {
            DictDirective::UsingDictCtx
        } else if prefix {
            DictDirective::WithPrefix64k
        } else {
            DictDirective::UsingExtDict
        },
        tt: TableType::U32,
        limited: true,
        fill: false,
        accel: clamped(acceleration) as u32,
        little,
    }
}

/// What compressing the next block of a stream comes to on a host of the given
/// byte order.
pub open spec fn next_outcome(src: Seq<u8>, room: int, state: StreamState, dict: Seq<u8>, prefix: bool, context: Option<&StreamState>, acceleration: i32, little: bool) -> Outcome {
    let s = trimmed(state, src.len() as int, prefix, context is Some);
    let mode = stream_mode(prefix, context is Some, acceleration, little);
    outcome(block_env(src, room, s, dict, context, mode), state.table@)
}

/// The history that a decoder of the next block of a stream needs.
pub open spec fn next_history(state: StreamState, len: int, dict: Seq<u8>, prefix: bool, context: Option<&StreamState>) -> Seq<u8> {
    match context {
        Some(c) => history(dict, c.dict_size),
        None => history(dict, used_history(state, len, prefix, false)),
    }
}

/// Compresses the next block of a stream.
///
/// `dict` is the history that precedes it, all of it. With `prefix` set it
/// lies directly before the block in the caller's memory. With `dict_context`
/// given, `dict` is the dictionary loaded into that stream.
pub fn compress_continue(buf: &mut [u8], dst: Range<usize>, input: &Input, state: &mut StreamState, dict: &[u8], prefix: bool, dict_context: Option<&StreamState>, acceleration: i32) -> (r: Result<usize, Error>)
    requires
        dst.start <= dst.end <= old(buf).len(),
        input.wf(old(buf).len() as nat),
        old(state).table@.wf(),
        input.spec_len() <= LZ4_MAX_INPUT_SIZE ==> takes(
            trimmed(*old(state), input.spec_len(), prefix, dict_context is Some),
            input.spec_len(),
            dict@,
            dict_context,
        ),
    ensures
        final(state).table@.wf(),
        final(state).table@.tt == old(state).table@.tt,
        advanced(
            trimmed(*old(state), input.spec_len(), prefix, dict_context is Some),
            *final(state),
            input.spec_len(),
            TableType::U32,
        ),
        same_outside(final(buf)@, old(buf)@, dst.start as int, dst.end as int),
        r matches Ok(n) ==> n <= dst.end - dst.start,
        r is Err ==> r == Err::<usize, Error>(Error::OutputTooSmall),
        input.clear(dst.start as int, dst.end as int) ==> ({
            let src = input.bytes(old(buf)@);
            let room = dst.end - dst.start;
            &&& exists|little: bool|
                ({
                    let o = #[trigger] next_outcome(
                        src,
                        room,
                        *old(state),
                        dict@,
                        prefix,
                        dict_context,
                        acceleration,
                        little,
                    );
                    packed(o, dst.start as int, final(buf)@, r) && final(state).table@ == o.cells
                })
            &&& r matches Ok(n) ==> encodes(
                next_history(*old(state), src.len() as int, dict@, prefix, dict_context),
                final(buf)@.subrange(dst.start as int, dst.start + n),
                src,
            )
            &&& src.len() <= LZ4_MAX_INPUT_SIZE && room >= bound(src.len() as int) ==> r is Ok
        }),
{
    let little = host_little_endian();
    compress_continue_ordered(
        buf,
        dst,
        input,
        state,
        dict,
        prefix,
        dict_context,
        acceleration,
        little,
    )
}

/// `compress_continue` on a host of the given byte order.
pub fn compress_continue_ordered(buf: &mut [u8], dst: Range<usize>, input: &Input, state: &mut StreamState, dict: &[u8], prefix: bool, dict_context: Option<&StreamState>, acceleration: i32, little: bool) -> (r: Result<usize, Error>)
    requires
        dst.start <= dst.end <= old(buf).len(),
        input.wf(old(buf).len() as nat),
        old(state).table@.wf(),
        input.spec_len() <= LZ4_MAX_INPUT_SIZE ==> takes(
            trimmed(*old(state), input.spec_len(), prefix, dict_context is Some),
            input.spec_len(),
            dict@,
            dict_context,
        ),
    ensures
        final(state).table@.wf(),
        final(state).table@.tt == old(state).table@.tt,
        advanced(
            trimmed(*old(state), input.spec_len(), prefix, dict_context is Some),
            *final(state),
            input.spec_len(),
            TableType::U32,
        ),
        same_outside(final(buf)@, old(buf)@, dst.start as int, dst.end as int),
        r matches Ok(n) ==> n <= dst.end - dst.start,
        r is Err ==> r == Err::<usize, Error>(Error::OutputTooSmall),
        input.clear(dst.start as int, dst.end as int) ==> ({
            let src = input.bytes(old(buf)@);
            let room = dst.end - dst.start;
            let o = next_outcome(
                src,
                room,
                *old(state),
                dict@,
                prefix,
                dict_context,
                acceleration,
                little,
            );
            &&& packed(o, dst.start as int, final(buf)@, r)
            &&& final(state).table@ == o.cells
            &&& r matches Ok(n) ==> encodes(
                next_history(*old(state), src.len() as int, dict@, prefix, dict_context),
                final(buf)@.subrange(dst.start as int, dst.start + n),
                src,
            )
            &&& src.len() <= LZ4_MAX_INPUT_SIZE && room >= bound(src.len() as int) ==> r is Ok
        }),
{
    let ghost src = input.bytes(buf@);
    let ghost s0 = *state;
    if state.dict_size < 4 && !prefix && input.len() > 0 {
        state.dict_size = 0;
    }
    let directive = if dict_context.is_some() {
        DictDirective::UsingDictCtx
    } else if prefix {
        DictDirective::WithPrefix64k
    } else {
        DictDirective::UsingExtDict
    };
    if directive == DictDirective::UsingDictCtx {
        state.dict_size = 0;
    }
    let mode = Mode {
        directive,
        tt: TableType::U32,
        limited: true,
        fill: false,
        accel: clamp_acceleration(acceleration),
        little,
    };
    let mut consumed: usize = 0;
    proof {
        let t = trimmed(s0, src.len() as int, prefix, dict_context is Some);
        assert(*state == t);
        assert(mode == stream_mode(prefix, dict_context is Some, acceleration, little));
        let env = block_env(src, dst.end - dst.start, t, dict@, dict_context, mode);
        lemma_outcome(env, s0.table@);
    }
    compress_generic(buf, dst, input, state, dict, dict_context, mode, &mut consumed)
}

/// The stream that a caller-owned state stands for on a host of the given byte
/// order.
pub open spec fn stands_for(state: AbiStreamState, s: StreamState, tt: TableType, little: bool) -> bool {
    &&& s.table@ == unpack(state.hash_table@, tt, little)
    &&& s.current_offset == state.current_offset
    &&& s.dict_size == state.dict_size
    &&& s.tt == tt
}

/// Whether a caller-owned state can take a block of `len` bytes after the
/// history `dict`, possibly with another state attached.
pub open spec fn abi_takes(state: AbiStreamState, len: int, dict: Seq<u8>, prefix: bool, context: Option<AbiStreamState>) -> bool {
    let used = if context is Some || (state.dict_size < 4 && !prefix && len > 0) {
        0
    } else {
        state.dict_size
    };
    &&& used <= state.current_offset
    &&& state.current_offset + len <= u32::MAX
    &&& used == 0 || used == dict.len()
    &&& context matches Some(c) ==> {
        &&& c.dict_size <= c.current_offset
        &&& c.dict_size == 0 || c.dict_size == dict.len()
        &&& c.dict_size <= state.current_offset
    }
}

/// Whether compressing `src` took the caller-owned state from `a0` to `a1`.
pub open spec fn abi_step(src: Seq<u8>, room: int, a0: AbiStreamState, a1: AbiStreamState, dict: Seq<u8>, prefix: bool, context: Option<AbiStreamState>, acceleration: i32, little: bool, start: int, b1: Seq<u8>, r: Result<usize, Error>) -> bool {
    exists|s: StreamState, c: Option<&StreamState>|
        {
            let o = #[trigger] next_outcome(src, room, s, dict, prefix, c, acceleration, little);
            &&& stands_for(a0, s, a0.tt(), little)
            &&& (c is Some <==> context is Some)
            &&& context is Some ==> stands_for(context->0, *c->0, (context->0).tt(), little)
            &&& packed(o, start, b1, r)
            &&& unpack(a1.hash_table@, a0.tt(), little) == o.cells
        }
}

/// The dictionary that comes with an attached state, or `dict` without one.
pub open spec fn given_dict(dict: Seq<u8>, context: Option<(&AbiStreamState, &[u8])>) -> Seq<u8> {
    match context {
        Some((_, d)) => d@,
        None => dict,
    }
}

/// The attached state.
pub open spec fn given_state(context: Option<(&AbiStreamState, &[u8])>) -> Option<AbiStreamState> {
    match context {
        Some((c, _)) => Some(*c),
        None => None,
    }
}

/// Compresses the next block of a stream whose state the caller owns; see
/// `compress_continue`. An attached state comes with its dictionary, which
/// then takes the place of `dict`.
pub fn compress_abi_continue(buf: &mut [u8], dst: Range<usize>, input: &Input, state: &mut AbiStreamState, dict: &[u8], prefix: bool, dict_context: Option<(&AbiStreamState, &[u8])>, acceleration: i32) -> (r: Result<usize, Error>)
    requires
        dst.start <= dst.end <= old(buf).len(),
        input.wf(old(buf).len() as nat),
        input.spec_len() <= LZ4_MAX_INPUT_SIZE ==> abi_takes(
            *old(state),
            input.spec_len(),
            given_dict(dict@, dict_context),
            prefix,
            given_state(dict_context),
        ),
    ensures
        ({
            let len = input.spec_len();
            let used = if dict_context is Some || (old(state).dict_size < 4 && !prefix && len > 0) {
                0
            } else {
                old(state).dict_size
            };
            if 0 < len <= LZ4_MAX_INPUT_SIZE {
                &&& final(state).dict_size == used + len
                &&& final(state).current_offset == old(state).current_offset + len
                &&& final(state).table_type == 2
            } else {
                &&& final(state).dict_size == used
                &&& final(state).current_offset == old(state).current_offset
                &&& final(state).table_type == (if old(state).table_type == 3 {
                    3
                } else {
                    2u32
                })
            }
        }),
        final(state).dictionary == old(state).dictionary,
        final(state).dict_ctx == old(state).dict_ctx,
        final(state).padding == old(state).padding,
        same_outside(final(buf)@, old(buf)@, dst.start as int, dst.end as int),
        r matches Ok(n) ==> n <= dst.end - dst.start,
        r is Err ==> r == Err::<usize, Error>(Error::OutputTooSmall),
        input.clear(dst.start as int, dst.end as int) ==> ({
            let src = input.bytes(old(buf)@);
            let room = dst.end - dst.start;
            let hist = match dict_context {
                Some((c, d)) => history(d@, c.dict_size),
                None => if old(state).dict_size < 4 && !prefix && src.len() > 0 {
                    Seq::empty()
                } else {
                    history(dict@, old(state).dict_size)
                },
            };
            &&& exists|little: bool| #[trigger]
                abi_step(
                    src,
                    room,
                    *old(state),
                    *final(state),
                    given_dict(dict@, dict_context),
                    prefix,
                    given_state(dict_context),
                    acceleration,
                    little,
                    dst.start as int,
                    final(buf)@,
                    r,
                )
            &&& r matches Ok(n) ==> encodes(
                hist,
                final(buf)@.subrange(dst.start as int, dst.start + n),
                src,
            )
            &&& src.len() <= LZ4_MAX_INPUT_SIZE && room >= bound(src.len() as int) ==> r is Ok
        }),
{
    let ghost src = input.bytes(buf@);
    let ghost room = dst.end - dst.start;
    let ghost start = dst.start as int;
    let little = host_little_endian();
    let mut working = state.working(little);
    let ghost s0 = working;
    match dict_context {
        Some((c, content)) => {
            let context = c.working(little);
            let r = compress_continue_ordered(
                buf,
                dst,
                input,
                &mut working,
                content,
                prefix,
                Some(&context),
                acceleration,
                little,
            );
            state.store(&working, little);
            proof {
                if input.clear(start, start + room) {
                    let o = next_outcome(
                        src,
                        room,
                        s0,
                        content@,
                        prefix,
                        Some(&context),
                        acceleration,
                        little,
                    );
                    assert(abi_step(
                        src,
                        room,
                        *old(state),
                        *state,
                        given_dict(dict@, dict_context),
                        prefix,
                        given_state(dict_context),
                        acceleration,
                        little,
                        start,
                        buf@,
                        r,
                    ));
                }
            }
            r
        },
        None => {
            let r = compress_continue_ordered(
                buf,
                dst,
                input,
                &mut working,
                dict,
                prefix,
                None,
                acceleration,
                little,
            );
            state.store(&working, little);
            proof {
                if input.clear(start, start + room) {
                    let o = next_outcome(
                        src,
                        room,
                        s0,
                        dict@,
                        prefix,
                        None,
                        acceleration,
                        little,
                    );
                    assert(abi_step(
                        src,
                        room,
                        *old(state),
                        *state,
                        given_dict(dict@, dict_context),
                        prefix,
                        given_state(dict_context),
                        acceleration,
                        little,
                        start,
                        buf@,
                        r,
                    ));
                }
            }
            r
        },
    }
}

/// The index at which a block compressed alone starts in a caller-owned state.
pub open spec fn fresh_offset(state: AbiStreamState, len: int, fast_reset: bool) -> u32 {
    if !fast_reset || state.stale(len, own_type(len)) || state.current_offset == 0 {
        0
    } else if own_type(len) == TableType::U32 {
        state.current_offset.wrapping_add(WINDOW)
    } else {
        state.current_offset
    }
}

/// The table that a block compressed alone starts from in a caller-owned state.
pub open spec fn fresh_cells(state: AbiStreamState, len: int, fast_reset: bool, little: bool) -> Cells {
    if !fast_reset || state.stale(len, own_type(len)) {
        Cells::zero(own_type(len))
    } else {
        unpack(state.hash_table@, own_type(len), little)
    }
}

/// What `compress_abi_ext_state` comes to on a host of the given byte order.
pub open spec fn ext_outcome(src: Seq<u8>, room: int, state: AbiStreamState, acceleration: i32, fast_reset: bool, little: bool) -> Outcome {
    let len = src.len() as int;
    outcome(
        alone_env(
            src,
            fresh_offset(state, len, fast_reset),
            room,
            room < bound(len),
            false,
            acceleration,
            little,
        ),
        fresh_cells(state, len, fast_reset, little),
    )
}

/// Compresses a block that has no history, with the table in caller-owned
/// memory. With `fast_reset`, a table whose indices can go on is not cleared.
pub fn compress_abi_ext_state(buf: &mut [u8], dst: Range<usize>, input: &Input, state: &mut AbiStreamState, acceleration: i32, fast_reset: bool) -> (r: Result<usize, Error>)
    requires
        dst.start <= dst.end <= old(buf).len(),
        input.wf(old(buf).len() as nat),
        input.spec_len() <= LZ4_MAX_INPUT_SIZE ==> fresh_offset(
            *old(state),
            input.spec_len(),
            fast_reset,
        ) + input.spec_len() <= u32::MAX,
    ensures
        ({
            let len = input.spec_len();
            let taken = if len <= LZ4_MAX_INPUT_SIZE {
                len
            } else {
                0
            };
            &&& final(state).dict_size == taken
            &&& final(state).current_offset == fresh_offset(*old(state), len, fast_reset) + taken
            &&& final(state).table_type == (if own_type(len) == TableType::U16 {
                3
            } else {
                2u32
            })
        }),
        final(state).dictionary == 0,
        final(state).dict_ctx == 0,
        fast_reset ==> final(state).padding == old(state).padding,
        !fast_reset ==> all_zero(final(state).padding@),
        same_outside(final(buf)@, old(buf)@, dst.start as int, dst.end as int),
        r matches Ok(n) ==> n <= dst.end - dst.start,
        r is Err ==> r == Err::<usize, Error>(Error::OutputTooSmall),
        input.clear(dst.start as int, dst.end as int) ==> ({
            let src = input.bytes(old(buf)@);
            let room = dst.end - dst.start;
            &&& exists|little: bool|
                ({
                    let o = #[trigger] ext_outcome(
                        src,
                        room,
                        *old(state),
                        acceleration,
                        fast_reset,
                        little,
                    );
                    packed(o, dst.start as int, final(buf)@, r) && unpack(
                        final(state).hash_table@,
                        own_type(src.len() as int),
                        little,
                    ) == o.cells
                })
            &&& r matches Ok(n) ==> encodes(
                Seq::empty(),
                final(buf)@.subrange(dst.start as int, dst.start + n),
                src,
            )
            &&& src.len() <= LZ4_MAX_INPUT_SIZE && room >= bound(src.len() as int) ==> r is Ok
        }),
{
    let ghost src = input.bytes(buf@);
    let ghost room = dst.end - dst.start;
    let ghost a0 = *state;
    let little = host_little_endian();
    let src_size = input.len();
    let tt = table_type_for(src_size);
    if fast_reset {
        state.prepare(src_size, tt);
    } else {
        state.reset();
    }
    let mut working = StreamState {
        table: Table::from_abi(&state.hash_table, tt, little),
        current_offset: state.current_offset,
        dict_size: state.dict_size,
        tt,
    };
    let limited = src_size <= LZ4_MAX_INPUT_SIZE as usize && below_bound(
        dst.end - dst.start,
        src_size,
    );
    let mode = Mode {
        directive: DictDirective::NoDict,
        tt,
        limited,
        fill: false,
        accel: clamp_acceleration(acceleration),
        little,
    };
    let mut consumed: usize = 0;
    proof {
        assert(working.table@ =~= fresh_cells(a0, src.len() as int, fast_reset, little));
        let env = alone_env(
            src,
            working.current_offset,
            room,
            room < bound(src.len() as int),
            false,
            acceleration,
            little,
        );
        if src_size <= LZ4_MAX_INPUT_SIZE {
            assert(block_env(src, room, working, Seq::empty(), None, mode) =~= env);
        }
        lemma_outcome(env, working.table@);
    }
    let ghost o = ext_outcome(src, room, a0, acceleration, fast_reset, little);
    let r = compress_generic(buf, dst, input, &mut working, &[], None, mode, &mut consumed);
    state.store(&working, little);
    r
}

} // verus!
