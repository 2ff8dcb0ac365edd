//! What holds of the blocks of a stream, beyond what holds of each alone.
use vstd::prelude::*;
use crate::format::{enc_block, MFLIMIT};
use super::compress::{bound, LZ4_MAX_INPUT_SIZE};
use super::entry::{clamped, next_outcome};
use super::greedy::total;
use super::parse::{Attached, Env};
use super::stream::StreamState;
use super::table::{entries, Cells, TableType};

verus! {

/// What a block of a stream is compressed under: after all of the history `dict`
/// that precedes it, with the indices that follow those of the history.
pub open spec fn after_history(src: Seq<u8>, room: int, offset: u32, dict: Seq<u8>, prefix: bool, accel: int, little: bool) -> Env {
    Env {
        src,
        hist: dict,
        start: offset,
        apart: !prefix,
        attached: None,
        tt: TableType::U32,
        little,
        accel,
        room,
        limited: true,
        fill: false,
    }
}

/// Whether a stream can go on with `len` more bytes, after the history `dict`.
pub open spec fn goes_on(state: StreamState, len: int, dict: Seq<u8>, prefix: bool) -> bool {
    &&& state.wf()
    &&& state.table@.tt == TableType::U32
    &&& state.dict_size == dict.len()
    &&& prefix || dict.len() >= 4
    &&& state.current_offset + len <= u32::MAX
}

/// An acceleration within the limits is used as it is, and the nearest limit
/// stands for any other.
pub proof fn law_acceleration(a: i32, b: i32)
    ensures
        1 <= clamped(a) <= 65537,
        1 <= a <= 65537 ==> clamped(a) == a,
        a <= b ==> clamped(a) <= clamped(b),
{
}

/// The next block of a stream passes over no match either, in itself or in the
/// history: at every literal where one is looked for, what the table of the
/// stream can hold is more than 65,535 bytes back or differs within four bytes.
/// The table that is left remembers the block.
pub proof fn law_next_is_greedy(src: Seq<u8>, room: int, state: StreamState, dict: Seq<u8>, prefix: bool, acceleration: i32, little: bool, p: int)
    requires
        MFLIMIT < src.len() <= LZ4_MAX_INPUT_SIZE,
        goes_on(state, src.len() as int, dict, prefix),
    ensures
        ({
            let accel = clamped(acceleration);
            let offset = state.current_offset;
            let env = after_history(src, room, offset, dict, prefix, accel, little);
            let table = state.table@;
            let o = next_outcome(src, room, state, dict, prefix, None, acceleration, little);
            o.block matches Some((seqs, last)) ==> {
                let tried = env.tried_among(total(seqs), last.len() as int, p);
                &&& env.diligent(table, seqs)
                &&& total(seqs) + last.len() == src.len()
                &&& tried ==> env.rightly_missed(table, seqs, p)
                &&& p + 14 <= src.len() && (env.remembered(seqs, p) || tried) ==> {
                    let i = o.cells.at[env.hash(p)] - offset;
                    p <= i < src.len() && env.hash(i) == env.hash(p)
                }
            }
        }),
{
    let accel = clamped(acceleration);
    let env = after_history(src, room, state.current_offset, dict, prefix, accel, little);
    lemma_next_env(src, room, state, dict, prefix, acceleration, little);
    env.law_parse_is_greedy(state.table@, p);
}

/// What a block is compressed under with a dictionary attached: the dictionary
/// `dict`, which the table `cells` knows by indices before `end`, takes the place
/// of the history.
pub open spec fn after_dictionary(src: Seq<u8>, room: int, offset: u32, cells: Cells, end: u32, dict: Seq<u8>, accel: int, little: bool) -> Env {
    Env {
        hist: Seq::empty(),
        attached: Some(Attached { cells, offset: end, hist: dict }),
        ..after_history(src, room, offset, dict, false, accel, little)
    }
}

/// With a dictionary attached, a block passes over no match either, in itself or
/// in the dictionary.
pub proof fn law_attached_is_greedy(src: Seq<u8>, room: int, state: StreamState, dict: Seq<u8>, prefix: bool, context: &StreamState, acceleration: i32, little: bool, p: int)
    requires
        MFLIMIT < src.len() <= LZ4_MAX_INPUT_SIZE,
        state.wf(),
        state.table@.tt == TableType::U32,
        state.current_offset + src.len() <= u32::MAX,
        context.dict_size == dict.len(),
        context.current_offset <= state.current_offset,
        forall|h: int|
            0 <= h < entries(TableType::U32) ==> 0 <= #[trigger] context.table@.at[h]
                < context.current_offset,
    ensures
        ({
            let env = after_dictionary(
                src,
                room,
                state.current_offset,
                context.table@,
                context.current_offset,
                dict,
                clamped(acceleration),
                little,
            );
            let table = state.table@;
            let o = next_outcome(
                src,
                room,
                state,
                dict,
                prefix,
                Some(context),
                acceleration,
                little,
            );
            o.block matches Some((seqs, last)) ==> {
                &&& env.diligent(table, seqs)
                &&& total(seqs) + last.len() == src.len()
                &&& env.tried_among(total(seqs), last.len() as int, p) ==> env.rightly_missed(
                    table,
                    seqs,
                    p,
                )
            }
        }),
{
    let env = after_dictionary(
        src,
        room,
        state.current_offset,
        context.table@,
        context.current_offset,
        dict,
        clamped(acceleration),
        little,
    );
    let s = super::entry::trimmed(state, src.len() as int, prefix, true);
    let mode = super::entry::stream_mode(prefix, true, acceleration, little);
    assert(super::entry::block_env(src, room, s, dict, Some(context), mode) =~= env);
    env.law_parse_is_greedy(state.table@, p);
}

/// The next block of a stream is refused exactly if it does not fit.
pub proof fn law_next_room_is_exact(src: Seq<u8>, room: int, ample: int, state: StreamState, dict: Seq<u8>, prefix: bool, acceleration: i32, little: bool)
    requires
        src.len() <= LZ4_MAX_INPUT_SIZE,
        src.len() > 0,
        goes_on(state, src.len() as int, dict, prefix),
        0 <= room,
        bound(src.len() as int) <= ample,
    ensures
        next_outcome(src, ample, state, dict, prefix, None, acceleration, little).block matches Some(
            (seqs, last),
        ) && next_outcome(src, room, state, dict, prefix, None, acceleration, little).block
            == if enc_block(seqs, last).len() <= room {
            Some((seqs, last))
        } else {
            None
        },
{
    let accel = clamped(acceleration);
    let tight = after_history(src, room, state.current_offset, dict, prefix, accel, little);
    let wide = after_history(src, ample, state.current_offset, dict, prefix, accel, little);
    lemma_next_env(src, room, state, dict, prefix, acceleration, little);
    lemma_next_env(src, ample, state, dict, prefix, acceleration, little);
    tight.law_room_is_exact(state.table@);
    wide.law_room_is_exact(state.table@);
    wide.law_bound_suffices(state.table@);
}

/// All of the history counts.
proof fn lemma_next_env(src: Seq<u8>, room: int, state: StreamState, dict: Seq<u8>, prefix: bool, acceleration: i32, little: bool)
    requires
        0 < src.len() <= LZ4_MAX_INPUT_SIZE,
        goes_on(state, src.len() as int, dict, prefix),
    ensures
        next_outcome(src, room, state, dict, prefix, None, acceleration, little) == after_history(
            src,
            room,
            state.current_offset,
            dict,
            prefix,
            clamped(acceleration),
            little,
        ).parse(state.table@),
{
    let accel = clamped(acceleration);
    let env = after_history(src, room, state.current_offset, dict, prefix, accel, little);
    let s = super::entry::trimmed(state, src.len() as int, prefix, false);
    let mode = super::entry::stream_mode(prefix, false, acceleration, little);
    assert(super::entry::block_env(src, room, s, dict, None, mode) =~= env);
}

} // verus!
