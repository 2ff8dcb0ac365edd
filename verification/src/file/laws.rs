//! What reading a file gives back of what was written to it.
use vstd::prelude::*;
use crate::block::stream::WINDOW;
use crate::format::min_int;
use crate::frame::compress::{
    crc_size, frame_header, law_update_succeeds, lemma_block_len, lemma_updated,
    settled_preferences, BlockCompressMode,
};
use crate::frame::decoder::{called, header_size_spec, told, Act, DStage, Decoder};
use crate::frame::laws::{law_goes_on, law_resume, lemma_header_local, Frame};
use crate::frame::progress::{keen, law_gets_on};
use crate::frame::round_trip::{
    continues, fits, goes_on, law_begin_writes, law_end_closes, law_update_writes,
    lemma_blocks_flush, opened_frame, writes, written,
};
use crate::frame::{
    block_size, bound_internal, compress_bound_spec, given, no_info, Error, FrameInfo, Preferences,
    Res, BH_SIZE, HEADER_SIZE_MIN,
};
use super::{created, opens, Exchange, Reading, Writing};

verus! {

/// Whether a stream that still has `rest` to give answers truly: reads give
/// the next bytes, and none only at the end.
pub open spec fn serves(log: Seq<Exchange>, rest: Seq<u8>) -> bool
    decreases log.len(),
{
    log.len() > 0 ==> match log[0] {
        Exchange::Read { got, .. } => {
            &&& got.len() <= rest.len()
            &&& got == rest.take(got.len() as int)
            &&& got.len() == 0 ==> rest.len() == 0
            &&& serves(log.skip(1), rest.skip(got.len() as int))
        },
        Exchange::Write { .. } => false,
        Exchange::Failed(failed) => !failed && serves(log.skip(1), rest),
    }
}

/// What a stream that had `rest` to give still has after the reads in `log`.
pub open spec fn unread(log: Seq<Exchange>, rest: Seq<u8>) -> Seq<u8>
    decreases log.len(),
{
    if log.len() == 0 {
        rest
    } else {
        match log[0] {
            Exchange::Read { got, .. } => unread(log.skip(1), rest.skip(got.len() as int)),
            _ => unread(log.skip(1), rest),
        }
    }
}

/// Whether a reader is within the frame `f`, of which its stream has `rest` to
/// give, and has yet to give `left` of the content; or is at its end.
pub open spec fn midway(f: Frame, r: Reading, rest: Seq<u8>, left: Seq<u8>) -> bool {
    &&& r.dec.wf()
    &&& {
        ||| exists|k: int| #[trigger] f.expects(r.dec, k, r.pending + rest, left)
        ||| left.len() == 0 && r.pending.len() == 0 && rest.len() == 0
    }
}

/// A decoder that has content to give waits for more of the frame.
proof fn lemma_waits(f: Frame, d: Decoder, k: int, rest: Seq<u8>, left: Seq<u8>)
    requires
        f.valid(),
        f.expects(d, k, rest, left),
        left.len() > 0,
    ensures
        rest.len() > 0,
        keen(d),
{
    reveal(Frame::expects);
}

/// A part of a read: what the decoder makes of the input at hand.
proof fn lemma_fed(f: Frame, r: Reading, rest: Seq<u8>, left: Seq<u8>, room: int)
    requires
        f.valid(),
        f.after.len() == 0,
        midway(f, r, rest, left),
        r.pending.len() > 0,
        room > 0,
    ensures
        match called(r.dec, r.pending, room, None, false) {
            Act::Stop(u, _) => {
                let n = u.out.len() as int;
                let next = Reading { dec: u.d, pending: r.pending.skip(u.at), ..r };
                &&& 0 <= u.at <= r.pending.len() && n <= left.len()
                &&& u.out == left.take(n)
                &&& u.at == 0 && n == 0 ==> left.len() == 0
                &&& midway(f, next, rest, left.skip(n))
            },
            _ => false,
        },
{
    let k = choose|k: int| #[trigger] f.expects(r.dec, k, r.pending + rest, left);
    law_goes_on(f, r.dec, k, r.pending + rest, left, false);
    law_resume(f, r.dec, k, r.pending, rest, room, left, None, false);
    if left.len() > 0 {
        lemma_waits(f, r.dec, k, r.pending + rest, left);
        law_gets_on(r.dec, r.pending, room, None, false);
    }
    if let Act::Stop(u, hint) = called(r.dec, r.pending, room, None, false) {
        if hint == 0 {
            assert((r.pending.skip(u.at) + rest).len() == 0);
        }
        let n = u.out.len() as int;
        let next = Reading { dec: u.d, pending: r.pending.skip(u.at), ..r };
        if hint != 0 {
            let j = choose|j: int| #[trigger]
                f.expects(u.d, j, r.pending.skip(u.at) + rest, left.skip(n));
            assert(f.expects(next.dec, j, next.pending + rest, left.skip(n)));
        }
    }
}

/// Reading from a true stream that holds a valid frame gives the next bytes of
/// its content: as many as there is room for, or all that are left. What is
/// left then can be read on.
pub proof fn law_read_gives(f: Frame, r: Reading, rest: Seq<u8>, left: Seq<u8>, room: int, log: Seq<Exchange>, out: Seq<u8>, res: Res<()>, end: Reading)
    requires
        f.valid(),
        f.after.len() == 0,
        midway(f, r, rest, left),
        room >= 0,
        r.pulls(room, log, out, res, end),
        serves(log, rest),
    ensures
        res == Ok::<(), Error>(()),
        out == left.take(min_int(room, left.len() as int)),
        midway(f, end, unread(log, rest), left.skip(out.len() as int)),
    decreases log.len(), room + r.pending.len(), 1int,
{
    if room == 0 {
        assert(left.skip(0) =~= left);
        assert(out =~= left.take(0));
    } else if r.pending.len() > 0 {
        lemma_feeding(f, r, rest, left, room, log, out, res, end);
    } else {
        let got = log[0]->got;
        let rest1 = rest.skip(got.len() as int);
        if got.len() > 0 {
            let r1 = Reading { pending: got, ..r };
            if exists|k: int| #[trigger] f.expects(r.dec, k, r.pending + rest, left) {
                let k = choose|k: int| #[trigger] f.expects(r.dec, k, r.pending + rest, left);
                assert(got + rest1 =~= r.pending + rest);
                assert(f.expects(r1.dec, k, r1.pending + rest1, left));
            }
            lemma_feeding(f, r1, rest1, left, room, log.skip(1), out, res, end);
        } else {
            if left.len() > 0 {
                let k = choose|k: int| #[trigger] f.expects(r.dec, k, r.pending + rest, left);
                lemma_waits(f, r.dec, k, r.pending + rest, left);
            }
            assert(serves(log.skip(1), rest1));
            assert(log.skip(1)[0] == log[1]);
            assert(unread(log.skip(1).skip(1), rest1) == rest1);
            assert(unread(log.skip(1), rest1) == rest1);
            assert(rest1 =~= rest);
            assert(left.skip(0) =~= left);
            assert(out =~= left.take(0));
        }
    }
}

proof fn lemma_feeding(f: Frame, r: Reading, rest: Seq<u8>, left: Seq<u8>, room: int, log: Seq<Exchange>, out: Seq<u8>, res: Res<()>, end: Reading)
    requires
        f.valid(),
        f.after.len() == 0,
        midway(f, r, rest, left),
        r.pending.len() > 0,
        room > 0,
        r.feeds(room, log, out, res, end),
        serves(log, rest),
    ensures
        res == Ok::<(), Error>(()),
        out == left.take(min_int(room, left.len() as int)),
        midway(f, end, unread(log, rest), left.skip(out.len() as int)),
    decreases log.len(), room + r.pending.len(), 0int,
{
    lemma_fed(f, r, rest, left, room);
    if let Act::Stop(u, _) = called(r.dec, r.pending, room, None, false) {
        let n = u.out.len() as int;
        let next = Reading { dec: u.d, pending: r.pending.skip(u.at), ..r };
        if u.at == 0 && n == 0 {
            assert(out =~= left.take(0));
        } else {
            law_read_gives(
                f,
                next,
                rest,
                left.skip(n),
                room - n,
                log,
                out.skip(n),
                res,
                end,
            );
            let m = min_int(room, left.len() as int);
            assert(out =~= out.take(n) + out.skip(n));
            assert(left.take(m) =~= left.take(n) + left.skip(n).take(m - n));
            assert(left.skip(n).skip(m - n) =~= left.skip(m));
        }
    }
}

/// A read of a file: how much was asked for, what the stream was asked in the
/// course of it, and what came of it.
#[verifier::ext_equal]
pub struct Pull {
    pub room: int,
    pub log: Seq<Exchange>,
    pub out: Seq<u8>,
    pub res: Res<()>,
}

/// Whether the reads `calls`, one after the other, lead from `r` to `end`, with
/// a stream that has `rest` to give and answers truly.
pub open spec fn reads_on(r: Reading, calls: Seq<Pull>, rest: Seq<u8>, end: Reading) -> bool
    decreases calls.len(),
{
    if calls.len() == 0 {
        end == r
    } else {
        let c = calls[0];
        &&& c.room >= 0
        &&& serves(c.log, rest)
        &&& exists|mid: Reading| #[trigger]
            r.pulls(c.room, c.log, c.out, c.res, mid) && reads_on(
                mid,
                calls.skip(1),
                unread(c.log, rest),
                end,
            )
    }
}

/// What several reads gave, one after the other.
pub open spec fn outs(calls: Seq<Pull>) -> Seq<u8>
    decreases calls.len(),
{
    if calls.len() == 0 {
        Seq::empty()
    } else {
        calls[0].out + outs(calls.skip(1))
    }
}

/// How much several reads asked for.
pub open spec fn asked(calls: Seq<Pull>) -> int
    decreases calls.len(),
{
    if calls.len() == 0 {
        0
    } else {
        calls[0].room + asked(calls.skip(1))
    }
}

/// Reads of any lengths, from a true stream that holds a valid frame, give its
/// content one piece after the other: together as much as they ask for, or all
/// that is left. None fails.
pub proof fn law_reads_concatenate(f: Frame, r: Reading, rest: Seq<u8>, left: Seq<u8>, calls: Seq<Pull>, end: Reading)
    requires
        f.valid(),
        f.after.len() == 0,
        midway(f, r, rest, left),
        reads_on(r, calls, rest, end),
    ensures
        asked(calls) >= 0,
        outs(calls) == left.take(min_int(asked(calls), left.len() as int)),
        forall|i: int| 0 <= i < calls.len() ==> (#[trigger] calls[i]).res is Ok,
    decreases calls.len(),
{
    if calls.len() == 0 {
        assert(left.take(0) =~= Seq::empty());
    } else {
        let c = calls[0];
        let more = calls.skip(1);
        let mid = choose|mid: Reading| #[trigger]
            r.pulls(c.room, c.log, c.out, c.res, mid) && reads_on(
                mid,
                more,
                unread(c.log, rest),
                end,
            );
        law_read_gives(f, r, rest, left, c.room, c.log, c.out, c.res, mid);
        let n = c.out.len() as int;
        let left1 = left.skip(n);
        law_reads_concatenate(f, mid, unread(c.log, rest), left1, more, end);
        let m = min_int(asked(more), left1.len() as int);
        assert(left.take(n) + left1.take(m) =~= left.take(n + m));
        assert forall|i: int| 0 <= i < calls.len() implies (#[trigger] calls[i]).res is Ok by {
            if i > 0 {
                assert(calls[i] == more[i - 1]);
            }
        }
    }
}

/// A file whose bytes are a valid frame can be opened, where the first read
/// gives its header and some of what follows.
pub proof fn law_read_opens(f: Frame, first: Seq<u8>)
    requires
        f.valid(),
        f.dict.len() == 0,
        f.header.len() <= first.len() <= f.bytes().len(),
        first.len() >= HEADER_SIZE_MIN + 4,
        first == f.bytes().take(first.len() as int),
    ensures
        opens(first) matches Ok(r) && midway(f, r, f.bytes().skip(first.len() as int), f.whole()),
{
    lemma_header_told(f, first);
    lemma_header_read(f, first);
    let r = opens(first)->Ok_0;
    assert(f.expects(r.dec, 0, r.pending + f.bytes().skip(first.len() as int), f.whole()));
}

/// The decoder that has been told a frame's header.
spec fn told_header(f: Frame) -> Decoder {
    Decoder {
        info: f.info,
        block_max: f.block_max(),
        remaining: if f.sized {
            f.info.content_size
        } else {
            0
        },
        ..Decoder::fresh(0, no_info()).to(DStage::Init)
    }
}

proof fn lemma_header_told(f: Frame, first: Seq<u8>)
    requires
        f.valid(),
        f.header.len() <= first.len() <= f.bytes().len(),
        first.len() >= HEADER_SIZE_MIN + 4,
        first == f.bytes().take(first.len() as int),
    ensures
        told(Decoder::fresh(0, no_info()), first) == (
            Ok::<(FrameInfo, int, int), Error>((f.info, f.header.len() as int, BH_SIZE as int)),
            told_header(f),
        ),
        4 <= f.info.block_size_id <= 7,
        f.info.block_mode == 0 || f.info.block_mode == 1,
{
    reveal(told);
    let rest = f.bytes().skip(first.len() as int);
    let n = f.header.len() as int;
    assert(first + rest =~= f.bytes());
    lemma_header_local(f, first, rest);
    assert(first.take(n) =~= f.header);
    assert(f.header + f.tail(0) == f.bytes());
    lemma_header_local(f, f.header, f.tail(0));
    assert(header_size_spec(first) == Ok::<int, Error>(n));
}

proof fn lemma_header_read(f: Frame, first: Seq<u8>)
    requires
        f.dict.len() == 0,
        4 <= f.info.block_size_id <= 7,
        f.info.block_mode == 0 || f.info.block_mode == 1,
        f.header.len() <= first.len() <= f.bytes().len(),
        first == f.bytes().take(first.len() as int),
    ensures
        told_header(f).wf(),
        f.expects(
            told_header(f),
            0,
            first.skip(f.header.len() as int) + f.bytes().skip(first.len() as int),
            f.whole(),
        ),
{
    reveal(Frame::expects);
    assert(first.skip(f.header.len() as int) + f.bytes().skip(first.len() as int) =~= f.tail(0));
    assert(f.dict =~= Seq::empty());
}

/// What was handed to a stream.
pub open spec fn sent(log: Seq<Exchange>) -> Seq<u8>
    decreases log.len(),
{
    if log.len() == 0 {
        Seq::empty()
    } else {
        match log[0] {
            Exchange::Write { data, .. } => data + sent(log.skip(1)),
            _ => sent(log.skip(1)),
        }
    }
}

/// Whether a writer of the frame `f` has become a writer of `g` by writing
/// `data`: what it handed to the stream are the blocks between.
pub open spec fn onward(w: Writing, f: Frame, end: Writing, g: Frame, data: Seq<u8>, bytes: Seq<u8>) -> bool {
    &&& writes(end.enc, g)
    &&& continues(g, f)
    &&& end == (Writing { enc: end.enc, content: w.content + data, ..w })
    &&& end.enc.prefs == w.enc.prefs
    &&& end.enc.block == w.enc.block
    &&& end.enc.mode == w.enc.mode
    &&& end.enc.total == w.enc.total + data.len()
    &&& g.whole() + end.enc.buffered == f.whole() + w.enc.buffered + data
    &&& written(g, g.blocks.len() as int) == written(f, f.blocks.len() as int) + bytes
    &&& w.enc.linked() ==> end.enc.track.offset + end.enc.buffered.len() == w.enc.track.offset
        + w.enc.buffered.len() + data.len()
}

/// What writing to a file hands to its stream, where that succeeds, are the
/// next blocks of the file's frame. They hold what was written, up to what
/// waits to fill a block.
#[verifier::rlimit(30)]
pub proof fn law_write_writes(w: Writing, f: Frame, data: Seq<u8>, log: Seq<Exchange>, end: Writing, little: bool) -> (g: Frame)
    requires
        writes(w.enc, f),
        w.enc.mode == BlockCompressMode::Compressed,
        w.batch > 0,
        w.enc.linked() ==> w.enc.track.offset + w.enc.buffered.len() + data.len() <= u32::MAX,
        w.enc.total + data.len() <= u64::MAX,
        w.pushes(data, log, Ok(()), end, little),
    ensures
        onward(w, f, end, g, data, sent(log)),
    decreases data.len(),
{
    let v = written(f, f.blocks.len() as int);
    if data.len() == 0 {
        assert(v + Seq::<u8>::empty() =~= v);
        assert(f.whole() + w.enc.buffered + data =~= f.whole() + w.enc.buffered);
        assert(end =~= (Writing { enc: end.enc, content: w.content + data, ..w }));
        f
    } else {
        let n = min_int(data.len() as int, w.batch);
        let chunk = data.take(n);
        let mode = BlockCompressMode::Compressed;
        let (bytes, enc) = w.enc.updated(chunk, mode, w.room, little);
        let next = Writing { enc, content: w.content + chunk, ..w };
        let f1 = law_update_writes(w.enc, f, chunk, mode, w.room, little);
        assert(fits(w.enc)) by {
            reveal(writes);
        }
        lemma_updated(w.enc, chunk, w.room, little);
        let bytes = bytes->Ok_0;
        let v1 = written(f1, f1.blocks.len() as int);
        assert(writes(enc, f1) && continues(f1, f) && f1.whole() + enc.buffered == f.whole() + (
        w.enc.buffered + chunk) && v1 == v + bytes) by {
            reveal(goes_on);
        }
        let g = law_write_writes(next, f1, data.skip(n), log.skip(1), end, little);
        assert(chunk + data.skip(n) =~= data);
        assert(w.content + chunk + data.skip(n) =~= w.content + data);
        assert(f.whole() + (w.enc.buffered + chunk) + data.skip(n) =~= f.whole() + w.enc.buffered
            + data);
        assert(v + bytes + sent(log.skip(1)) =~= v + (bytes + sent(log.skip(1))));
        g
    }
}

/// A write to a file: what was written, what the stream was asked in the course
/// of it, and what came of it.
#[verifier::ext_equal]
pub struct Push {
    pub data: Seq<u8>,
    pub log: Seq<Exchange>,
    pub res: Res<()>,
}

/// Whether the writes `calls`, one after the other, lead from `w` to `end`.
pub open spec fn writes_on(w: Writing, calls: Seq<Push>, end: Writing, little: bool) -> bool
    decreases calls.len(),
{
    if calls.len() == 0 {
        end == w
    } else {
        let c = calls[0];
        exists|mid: Writing| #[trigger]
            w.pushes(c.data, c.log, c.res, mid, little) && writes_on(
                mid,
                calls.skip(1),
                end,
                little,
            )
    }
}

/// What several writes were given, one after the other.
pub open spec fn joined(calls: Seq<Push>) -> Seq<u8>
    decreases calls.len(),
{
    if calls.len() == 0 {
        Seq::empty()
    } else {
        calls[0].data + joined(calls.skip(1))
    }
}

/// What several writes handed to the stream.
pub open spec fn all_sent(calls: Seq<Push>) -> Seq<u8>
    decreases calls.len(),
{
    if calls.len() == 0 {
        Seq::empty()
    } else {
        sent(calls[0].log) + all_sent(calls.skip(1))
    }
}

/// Whether none of several writes failed.
pub open spec fn all_well(calls: Seq<Push>) -> bool {
    forall|i: int| 0 <= i < calls.len() ==> (#[trigger] calls[i]).res is Ok
}

/// A write succeeds or fails; once one has failed, the file counts as failed.
proof fn lemma_failure_sticks(w: Writing, data: Seq<u8>, log: Seq<Exchange>, r: Res<()>, end: Writing, little: bool)
    requires
        w.pushes(data, log, r, end, little),
    ensures
        w.failed || r is Err ==> end.failed,
        r is Ok ==> r == Ok::<(), Error>(()),
    decreases data.len(),
{
    if data.len() > 0 && w.batch > 0 {
        let n = min_int(data.len() as int, w.batch);
        let chunk = data.take(n);
        let (bytes, enc) = w.enc.updated(chunk, BlockCompressMode::Compressed, w.room, little);
        if let Ok(bytes) = bytes {
            if log[0]->took == bytes.len() {
                let next = Writing { enc, content: w.content + chunk, ..w };
                lemma_failure_sticks(next, data.skip(n), log.skip(1), r, end, little);
            }
        }
    }
}

/// After a write has failed, whatever else is written, closing the file asks
/// nothing of its stream, and succeeds.
pub proof fn law_failed_close(w: Writing, calls: Seq<Push>, mid: Writing, log: Seq<Exchange>, r: Res<()>, end: Writing, little: bool)
    requires
        writes_on(w, calls, mid, little),
        w.failed || !all_well(calls),
        mid.ends(log, r, end, little),
    ensures
        log.len() == 0,
        r == Ok::<(), Error>(()),
        end == mid,
    decreases calls.len(),
{
    if calls.len() > 0 {
        let c = calls[0];
        let more = calls.skip(1);
        let next = choose|next: Writing| #[trigger]
            w.pushes(c.data, c.log, c.res, next, little) && writes_on(next, more, mid, little);
        lemma_failure_sticks(w, c.data, c.log, c.res, next, little);
        if !next.failed {
            let i = choose|i: int|
                0 <= i < calls.len() && !((#[trigger] calls[i]).res is Ok);
            assert(more[i - 1] == calls[i]);
        }
        law_failed_close(next, more, mid, log, r, end, little);
    }
}

/// What writes of any lengths hand to a file's stream, where they succeed, are
/// the next blocks of the file's frame. They hold what was written, one piece
/// after the other, up to what waits to fill a block.
pub proof fn law_writes_concatenate(w: Writing, f: Frame, calls: Seq<Push>, end: Writing, little: bool) -> (g: Frame)
    requires
        writes(w.enc, f),
        w.enc.mode == BlockCompressMode::Compressed,
        w.batch > 0,
        w.enc.linked() ==> w.enc.track.offset + w.enc.buffered.len() + joined(calls).len()
            <= u32::MAX,
        w.enc.total + joined(calls).len() <= u64::MAX,
        writes_on(w, calls, end, little),
        all_well(calls),
    ensures
        onward(w, f, end, g, joined(calls), all_sent(calls)),
    decreases calls.len(),
{
    let v = written(f, f.blocks.len() as int);
    if calls.len() == 0 {
        let none: Seq<u8> = Seq::empty();
        assert(v + none =~= v);
        assert(f.whole() + w.enc.buffered + none =~= f.whole() + w.enc.buffered);
        assert(w.content + none =~= w.content);
        assert(end =~= (Writing { enc: end.enc, content: w.content + none, ..w }));
        f
    } else {
        let c = calls[0];
        let more = calls.skip(1);
        let mid = choose|mid: Writing| #[trigger]
            w.pushes(c.data, c.log, c.res, mid, little) && writes_on(mid, more, end, little);
        assert(calls[0].res is Ok);
        lemma_failure_sticks(w, c.data, c.log, c.res, mid, little);
        let f1 = law_write_writes(w, f, c.data, c.log, mid, little);
        assert forall|i: int| 0 <= i < more.len() implies (#[trigger] more[i]).res is Ok by {
            assert(more[i] == calls[i + 1]);
        }
        let g = law_writes_concatenate(mid, f1, more, end, little);
        let rest = joined(more);
        assert(f.whole() + w.enc.buffered + c.data + rest =~= f.whole() + w.enc.buffered + (c.data
            + rest));
        assert(w.content + c.data + rest =~= w.content + (c.data + rest));
        assert(v + sent(c.log) + all_sent(more) =~= v + (sent(c.log) + all_sent(more)));
        g
    }
}

/// Whether a writer under the given preferences has the room that was made for
/// it when it was opened.
pub open spec fn roomy(w: Writing, prefs: Option<&Preferences>) -> bool {
    &&& w.enc.prefs == settled_preferences(given(prefs))
    &&& w.enc.mode == BlockCompressMode::Compressed
    &&& w.batch == w.enc.block
    &&& w.room == compress_bound_spec(w.batch, prefs)
    &&& w.enc.prefs.auto_flush ==> w.enc.buffered.len() == 0
}

/// A file that was just opened has room.
pub proof fn law_created_roomy(prefs: Option<&Preferences>, little: bool)
    ensures
        roomy(created(prefs, little), prefs),
{
}

/// The room for a block is enough for what an update can come to, and for what
/// ending a frame can come to.
proof fn lemma_enough(prefs: Option<&Preferences>, n: int, waiting: int)
    requires
        ({
            let p = settled_preferences(given(prefs));
            &&& block_size(p.frame_info.block_size_id) matches Some(bs) && 0 < n <= bs && 0
                <= waiting < bs
            &&& p.auto_flush ==> waiting == 0
        }),
    ensures
        ({
            let p = settled_preferences(given(prefs));
            let bs = block_size(p.frame_info.block_size_id)->0;
            let room = compress_bound_spec(bs, prefs);
            &&& room >= bound_internal(n, p, waiting)
            &&& room >= bs + 4 + crc_size(p) + (if p.frame_info.content_checksum {
                8int
            } else {
                4
            })
        }),
{
    reveal(bound_internal);
    let p = settled_preferences(given(prefs));
    let bs = block_size(p.frame_info.block_size_id)->0;
    assert(usize::MAX >= 0x100_0000);
    let crc = crc_size(p);
    assert(0 <= (4 + crc) * 0 <= (4 + crc) * 1 <= 8 && (4 + crc) * 1 <= (4 + crc) * 2 <= 16);
    assert(bs * 0 == 0 && bs * 1 == bs);
    let most = n + waiting;
    if most < bs {
        vstd::arithmetic::div_mod::lemma_fundamental_div_mod_converse(most, bs, 0, most);
    } else {
        vstd::arithmetic::div_mod::lemma_fundamental_div_mod_converse(most, bs, 1, most - bs);
    }
    vstd::arithmetic::div_mod::lemma_fundamental_div_mod_converse(bs, bs, 1, 0);
    vstd::arithmetic::div_mod::lemma_fundamental_div_mod_converse(bs + bs - 1, bs, 1, bs - 1);
}

/// Writing to a file fails for no other reason than that its stream takes too
/// little.
pub proof fn law_write_succeeds(prefs: Option<&Preferences>, w: Writing, f: Frame, data: Seq<u8>, log: Seq<Exchange>, r: Res<()>, end: Writing, little: bool)
    requires
        writes(w.enc, f),
        roomy(w, prefs),
        w.enc.linked() ==> w.enc.track.offset + w.enc.buffered.len() + data.len() <= u32::MAX,
        w.enc.total + data.len() <= u64::MAX,
        w.pushes(data, log, r, end, little),
    ensures
        r is Ok ==> roomy(end, prefs),
        r matches Err(e) ==> {
            &&& e == Error::IoWrite
            &&& log.len() > 0
            &&& log.last() matches Exchange::Write { data, took } && took != data.len()
        },
    decreases data.len(),
{
    assert(fits(w.enc)) by {
        reveal(writes);
    }
    if data.len() > 0 {
        let n = min_int(data.len() as int, w.batch);
        let chunk = data.take(n);
        let mode = BlockCompressMode::Compressed;
        lemma_enough(prefs, n, w.enc.buffered.len() as int);
        law_update_succeeds(w.enc, chunk, mode, w.room, little);
        let (bytes, enc) = w.enc.updated(chunk, mode, w.room, little);
        let next = Writing { enc, content: w.content + chunk, ..w };
        let f1 = law_update_writes(w.enc, f, chunk, mode, w.room, little);
        lemma_updated(w.enc, chunk, w.room, little);
        assert(writes(enc, f1)) by {
            reveal(goes_on);
        }
        if w.enc.prefs.auto_flush {
            assert(w.enc.buffered + chunk =~= chunk);
            lemma_blocks_flush(w.enc, chunk, mode, little);
        }
        if log[0]->took == bytes->Ok_0.len() {
            law_write_succeeds(prefs, next, f1, data.skip(n), log.skip(1), r, end, little);
        }
    }
}

/// Closing a file fails for no other reason than that its stream takes too
/// little, or that the size of the content was announced wrongly.
pub proof fn law_close_succeeds(prefs: Option<&Preferences>, w: Writing, f: Frame, log: Seq<Exchange>, r: Res<()>, end: Writing, little: bool)
    requires
        writes(w.enc, f),
        roomy(w, prefs),
        w.ends(log, r, end, little),
    ensures
        r matches Err(e) ==> !w.failed && {
            ||| e == Error::FrameSizeWrong && w.enc.prefs.frame_info.content_size != 0
                && w.enc.prefs.frame_info.content_size != w.enc.total
            ||| e == Error::IoWrite && log.len() == 1 && (log[0] matches Exchange::Write {
                data,
                took,
            } && took != data.len())
        },
{
    assert(fits(w.enc)) by {
        reveal(writes);
    }
    if w.enc.buffered.len() > 0 {
        lemma_enough(prefs, 1, w.enc.buffered.len() as int);
        lemma_block_len(w.enc, w.enc.buffered, w.enc.mode, little);
    } else {
        lemma_enough(prefs, 1, 0);
    }
}

/// A file that is closed with success holds a valid frame of the content that
/// was written.
pub proof fn law_close_ends(w: Writing, f: Frame, log: Seq<Exchange>, end: Writing, little: bool) -> (g: Frame)
    requires
        writes(w.enc, f),
        !w.failed,
        w.content == f.whole() + w.enc.buffered,
        w.enc.total == w.content.len(),
        w.enc.linked() ==> w.enc.track.offset + w.enc.buffered.len() <= u32::MAX,
        w.ends(log, Ok(()), end, little),
    ensures
        g.valid(),
        g.filled(),
        continues(g, f),
        g.whole() == w.content,
        g.bytes() == f.header + written(f, f.blocks.len() as int) + sent(log) + f.after,
{
    assert(sent(log.skip(1)) == Seq::<u8>::empty());
    assert(sent(log) =~= w.enc.ended(w.content, w.room, little).0->Ok_0);
    law_end_closes(w.enc, f, w.content, w.room, little)
}

/// A file reads back as it was written, in pieces of whatever lengths: what is
/// read from a stream that holds the header, and what writing and closing handed
/// over, is what was written.
pub proof fn law_file_round_trip(prefs: Option<&Preferences>, calls: Seq<Push>, w: Writing, last: Seq<Exchange>, end: Writing, little: bool, first: Seq<u8>, reads: Seq<Pull>, done: Reading)
    requires
        ({
            let p = given(prefs);
            let header = frame_header(settled_preferences(p));
            let bytes = header + all_sent(calls) + sent(last);
            &&& block_size(p.frame_info.block_size_id) is Some
            &&& p.frame_info.block_mode == 0 || p.frame_info.block_mode == 1
            &&& p.frame_info.block_mode == 0 ==> joined(calls).len() + WINDOW <= u32::MAX
            &&& joined(calls).len() <= u64::MAX
            &&& writes_on(created(prefs, little), calls, w, little)
            &&& all_well(calls)
            &&& w.ends(last, Ok(()), end, little)
            &&& header.len() <= first.len() <= bytes.len()
            &&& first.len() >= HEADER_SIZE_MIN + 4
            &&& first == bytes.take(first.len() as int)
            &&& opens(first) matches Ok(r) ==> reads_on(
                r,
                reads,
                bytes.skip(first.len() as int),
                done,
            )
        }),
    ensures
        opens(first) is Ok,
        outs(reads) == joined(calls).take(min_int(asked(reads), joined(calls).len() as int)),
        forall|i: int| 0 <= i < reads.len() ==> (#[trigger] reads[i]).res is Ok,
{
    let p = given(prefs);
    let data = joined(calls);
    let none: Seq<u8> = Seq::empty();
    let header = frame_header(settled_preferences(p));
    let bytes = header + all_sent(calls) + sent(last);
    let w0 = created(prefs, little);
    law_begin_writes(p, None, false, little, none);
    let f0 = opened_frame(p, None, none);
    let f1 = law_writes_concatenate(w0, f0, calls, w, little);
    assert(f0.whole() + w0.enc.buffered + data =~= data);
    assert(w0.content + data =~= data);
    let g = law_close_ends(w, f1, last, end, little);
    assert(written(f0, 0) + all_sent(calls) =~= all_sent(calls));
    assert(header + all_sent(calls) + sent(last) + none =~= bytes);
    law_read_opens(g, first);
    let r = opens(first)->Ok_0;
    law_reads_concatenate(g, r, bytes.skip(first.len() as int), data, reads, done);
}

} // verus!
