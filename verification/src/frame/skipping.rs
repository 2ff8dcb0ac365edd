//! Skippable frames are skipped, all of them and no more.
use vstd::prelude::*;
use crate::bytes::{law_le_inverse, le32, le32_bytes};
use super::decoder::{
    called, entered, in_bounds, is_skippable, lemma_run, lemma_step, Act, DStage, Decoder, Turn,
};
use super::pieces::{given_by, run_of, taken_by, Call};

verus! {

/// A skippable frame that holds `data`, and what follows it.
pub open spec fn skippable_bytes(magic: u32, data: Seq<u8>, after: Seq<u8>) -> Seq<u8> {
    le32_bytes(magic) + le32_bytes(data.len() as u32) + data + after
}

/// How many bytes a decoder asks for that has taken `pos` bytes of a skippable
/// frame of `n` bytes: the rest of its head, with what may follow a frame header,
/// and then the rest of the frame.
pub open spec fn asked_for(pos: int, n: int) -> int {
    if pos == 0 {
        7
    } else if pos < 7 {
        11 - pos
    } else if pos < 8 {
        1
    } else {
        8 + n - pos
    }
}

/// Whether `d` has taken `pos` bytes of the skippable frame that starts `s` and
/// holds `n` bytes.
spec fn amid(d: Decoder, s: Seq<u8>, n: int, pos: int) -> bool {
    &&& 0 <= pos <= 8 + n
    &&& match d.stage {
        DStage::GetFrameHeader => pos == 0,
        DStage::StoreFrameHeader => d.got == s.take(pos) && d.target == 7 && pos < 7,
        DStage::GetSFrameSize => pos == 4,
        DStage::StoreSFrameSize => d.got == s.subrange(4, pos) && pos == 7,
        DStage::SkipSkippable => d.target == 8 + n - pos && pos >= 8,
        _ => false,
    }
}

/// Whether a stage that has just been entered has input to go on with.
spec fn supplied(d: Decoder, pos: int, left: int) -> bool {
    &&& d.stage is StoreFrameHeader && pos == 0 ==> left > 0
    &&& d.stage is GetSFrameSize ==> left >= 4
}

/// What the head of a skippable frame holds.
proof fn lemma_head(magic: u32, data: Seq<u8>, after: Seq<u8>)
    requires
        data.len() <= u32::MAX,
    ensures
        ({
            let s = skippable_bytes(magic, data, after);
            &&& s.len() == 8 + data.len() + after.len()
            &&& le32(s, 0) == magic
            &&& le32(s, 4) == data.len()
        }),
{
    let s = skippable_bytes(magic, data, after);
    let (m, n) = (le32_bytes(magic), le32_bytes(data.len() as u32));
    law_le_inverse(magic, 0);
    law_le_inverse(data.len() as u32, 0);
    assert(s[0] == m[0] && s[1] == m[1] && s[2] == m[2] && s[3] == m[3]);
    assert(s[4] == n[0] && s[5] == n[1] && s[6] == n[2] && s[7] == n[3]);
}

/// Whether an act goes on through a skippable frame, of which the call's input
/// starts at `c`: no output, and the frame is at its end where nothing more is
/// asked for.
spec fn skips(act: Act, s: Seq<u8>, n: int, c: int, len: int) -> bool {
    match act {
        Act::Go(u) => {
            &&& u.out.len() == 0
            &&& amid(u.d, s, n, c + u.at)
            &&& supplied(u.d, c + u.at, len - u.at)
        },
        Act::Stop(u, hint) => {
            &&& u.out.len() == 0
            &&& if hint == 0 {
                c + u.at == 8 + n && u.d == u.d.closed()
            } else {
                &&& amid(u.d, s, n, c + u.at)
                &&& supplied(u.d, c + u.at, 0)
                &&& c + u.at < 8 + n
                &&& hint == asked_for(c + u.at, n)
            }
        },
        Act::Fail(_, _) => false,
    }
}

proof fn lemma_skip_get(t: Turn, src: Seq<u8>, room: int, s: Seq<u8>, n: int, c: int)
    requires
        in_bounds(t, src, room),
        t.out.len() == 0,
        0 <= n,
        8 + n <= s.len(),
        is_skippable(le32(s, 0)),
        le32(s, 4) == n,
        0 <= c,
        c + src.len() <= s.len(),
        src == s.subrange(c, c + src.len()),
        amid(t.d, s, n, c + t.at),
        supplied(t.d, c + t.at, src.len() - t.at),
        t.d.stage is GetFrameHeader,
    ensures
        skips(t.get_frame_header(src), s, n, c, src.len() as int),
{
    let rest = src.skip(t.at);
    if rest.len() >= 19 {
        assert(forall|i: int| 0 <= i < 4 ==> #[trigger] rest[i] == s[i]);
        assert(rest[0] == s[0] && rest[1] == s[1] && rest[2] == s[2] && rest[3] == s[3]);
        assert(le32(rest, 0) == le32(s, 0));
    }
    assert(s.take(0) =~= Seq::empty());
}

proof fn lemma_skip_store(t: Turn, src: Seq<u8>, room: int, s: Seq<u8>, n: int, c: int)
    requires
        in_bounds(t, src, room),
        t.out.len() == 0,
        0 <= n,
        8 + n <= s.len(),
        is_skippable(le32(s, 0)),
        le32(s, 4) == n,
        0 <= c,
        c + src.len() <= s.len(),
        src == s.subrange(c, c + src.len()),
        amid(t.d, s, n, c + t.at),
        supplied(t.d, c + t.at, src.len() - t.at),
        t.d.stage is StoreFrameHeader,
    ensures
        skips(t.store_frame_header(src), s, n, c, src.len() as int),
{
    let u = t.topping(src);
    let got = u.d.got;
    assert(got =~= s.take(c + u.at));
    if got.len() == 7 {
        assert(got[0] == s[0] && got[1] == s[1] && got[2] == s[2] && got[3] == s[3]);
        assert(le32(got, 0) == le32(s, 0));
        assert(got.skip(4) =~= s.subrange(4, 7));
    }
}

proof fn lemma_skip_size(t: Turn, src: Seq<u8>, room: int, s: Seq<u8>, n: int, c: int)
    requires
        in_bounds(t, src, room),
        t.out.len() == 0,
        0 <= n,
        8 + n <= s.len(),
        is_skippable(le32(s, 0)),
        le32(s, 4) == n,
        0 <= c,
        c + src.len() <= s.len(),
        src == s.subrange(c, c + src.len()),
        amid(t.d, s, n, c + t.at),
        supplied(t.d, c + t.at, src.len() - t.at),
        t.d.stage is GetSFrameSize,
    ensures
        skips(t.get_sframe_size(src), s, n, c, src.len() as int),
{
    if src.len() - t.at >= 4 {
        assert(forall|i: int| 0 <= i < src.len() ==> #[trigger] src[i] == s[c + i]);
        assert(src[t.at] == s[4] && src[t.at + 1] == s[5] && src[t.at + 2] == s[6] && src[t.at + 3]
            == s[7]);
        assert(le32(src, t.at) == le32(s, 4));
    }
    assert(s.subrange(4, 4) =~= Seq::empty());
}

proof fn lemma_skip_store_size(t: Turn, src: Seq<u8>, room: int, s: Seq<u8>, n: int, c: int)
    requires
        in_bounds(t, src, room),
        t.out.len() == 0,
        0 <= n,
        8 + n <= s.len(),
        is_skippable(le32(s, 0)),
        le32(s, 4) == n,
        0 <= c,
        c + src.len() <= s.len(),
        src == s.subrange(c, c + src.len()),
        amid(t.d, s, n, c + t.at),
        supplied(t.d, c + t.at, src.len() - t.at),
        t.d.stage is StoreSFrameSize,
    ensures
        skips(t.store_sframe_size(src), s, n, c, src.len() as int),
{
    let u = t.topping(src);
    let got = u.d.got;
    assert(got =~= s.subrange(4, c + u.at));
    if got.len() == 4 {
        assert(got[0] == s[4] && got[1] == s[5] && got[2] == s[6] && got[3] == s[7]);
        assert(le32(got, 0) == le32(s, 4));
    }
}

proof fn lemma_skip_step(t: Turn, src: Seq<u8>, room: int, s: Seq<u8>, n: int, c: int)
    requires
        in_bounds(t, src, room),
        t.out.len() == 0,
        0 <= n,
        8 + n <= s.len(),
        is_skippable(le32(s, 0)),
        le32(s, 4) == n,
        0 <= c,
        c + src.len() <= s.len(),
        src == s.subrange(c, c + src.len()),
        amid(t.d, s, n, c + t.at),
        supplied(t.d, c + t.at, src.len() - t.at),
    ensures
        skips(t.step(src, room), s, n, c, src.len() as int),
{
    reveal(Turn::step);
    match t.d.stage {
        DStage::GetFrameHeader => lemma_skip_get(t, src, room, s, n, c),
        DStage::StoreFrameHeader => lemma_skip_store(t, src, room, s, n, c),
        DStage::GetSFrameSize => lemma_skip_size(t, src, room, s, n, c),
        DStage::StoreSFrameSize => lemma_skip_store_size(t, src, room, s, n, c),
        _ => {},
    }
}

proof fn lemma_skip_run(t: Turn, src: Seq<u8>, room: int, s: Seq<u8>, n: int, c: int)
    requires
        in_bounds(t, src, room),
        t.out.len() == 0,
        0 <= n,
        8 + n <= s.len(),
        is_skippable(le32(s, 0)),
        le32(s, 4) == n,
        0 <= c,
        c + src.len() <= s.len(),
        src == s.subrange(c, c + src.len()),
        amid(t.d, s, n, c + t.at),
        supplied(t.d, c + t.at, src.len() - t.at),
    ensures
        skips(t.run(src, room), s, n, c, src.len() as int),
        !(t.run(src, room) is Go),
    decreases src.len() - t.at, t.d.stage.rank(),
{
    lemma_step(t, src, room);
    lemma_skip_step(t, src, room, s, n, c);
    if let Act::Go(u) = t.step(src, room) {
        lemma_skip_run(u, src, room, s, n, c);
    }
}

proof fn lemma_skip_calls(d: Decoder, calls: Seq<Call>, s: Seq<u8>, n: int, c: int)
    requires
        d.wf(),
        0 <= n,
        8 + n <= s.len(),
        is_skippable(le32(s, 0)),
        le32(s, 4) == n,
        0 <= c <= s.len(),
        amid(d, s, n, c),
        supplied(d, c, 0),
        run_of(d, calls, s.skip(c)),
    ensures
        forall|i: int| 0 <= i < calls.len() ==> (#[trigger] calls[i]).act is Stop,
        given_by(calls).len() == 0,
        0 <= taken_by(calls) <= 8 + n - c,
        calls.len() > 0 ==> {
            let pos = c + taken_by(calls);
            calls.last().act matches Act::Stop(u, hint) && if hint == 0 {
                pos == 8 + n && u.d == u.d.closed()
            } else {
                pos < 8 + n && hint == asked_for(pos, n)
            }
        },
    decreases calls.len(),
{
    if calls.len() > 0 {
        let e = calls[0];
        let later = calls.skip(1);
        let t = Turn { d: entered(d, e.dict, e.skip), at: 0, out: Seq::empty() };
        assert(e.src =~= s.subrange(c, c + e.src.len()));
        assert(in_bounds(t, e.src, e.room));
        lemma_skip_run(t, e.src, e.room, s, n, c);
        lemma_run(t, e.src, e.room);
        assert(e.act == t.run(e.src, e.room));
        if e.goes_on() {
            let p = c + e.taken();
            assert(s.skip(c).skip(e.taken()) =~= s.skip(p));
            lemma_skip_calls(e.left_with(), later, s, n, p);
            if later.len() > 0 {
                assert(calls.last() == later.last());
            } else {
                assert(taken_by(later) == 0);
            }
            assert forall|i: int| 0 <= i < calls.len() implies (#[trigger] calls[i]).act is Stop by {
                if i > 0 {
                    assert(later[i - 1] == calls[i]);
                }
            }
        } else {
            assert(later.len() == 0);
            assert(taken_by(later) == 0);
            assert(given_by(later).len() == 0);
        }
    }
}

/// A skippable frame is skipped, in whatever pieces it comes: no call fails or
/// gives anything, each asks for what is left, and once a call asks for nothing
/// more the calls have taken the head of eight bytes and the data, and the
/// decoder waits for another frame.
pub proof fn law_skippable(magic: u32, data: Seq<u8>, after: Seq<u8>, d: Decoder, calls: Seq<Call>)
    requires
        0x184D_2A50 <= magic <= 0x184D_2A5F,
        data.len() <= u32::MAX,
        d.wf(),
        d.stage is GetFrameHeader,
        run_of(d, calls, skippable_bytes(magic, data, after)),
    ensures
        forall|i: int| 0 <= i < calls.len() ==> (#[trigger] calls[i]).act is Stop,
        given_by(calls).len() == 0,
        calls.len() > 0 ==> {
            let pos = taken_by(calls);
            calls.last().act matches Act::Stop(u, hint) && if hint == 0 {
                pos == 8 + data.len() && u.d == u.d.closed()
            } else {
                0 <= pos < 8 + data.len() && hint == asked_for(pos, data.len() as int)
            }
        },
{
    let s = skippable_bytes(magic, data, after);
    lemma_head(magic, data, after);
    assert(s.skip(0) =~= s);
    lemma_skip_calls(d, calls, s, data.len() as int, 0);
}

/// Given as a whole, a skippable frame is skipped in one call.
pub proof fn law_skippable_at_once(magic: u32, data: Seq<u8>, after: Seq<u8>, d: Decoder, room: int, dict: Option<Seq<u8>>, skip: bool)
    requires
        0x184D_2A50 <= magic <= 0x184D_2A5F,
        data.len() <= u32::MAX,
        d.wf(),
        d.stage is GetFrameHeader,
        room >= 0,
    ensures
        called(d, skippable_bytes(magic, data, after), room, dict, skip) matches Act::Stop(u, hint)
            && hint == 0 && u.at == 8 + data.len() && u.out.len() == 0 && u.d == u.d.closed(),
{
    let s = skippable_bytes(magic, data, after);
    let n = data.len() as int;
    let t = Turn { d: entered(d, dict, skip), at: 0, out: Seq::empty() };
    lemma_head(magic, data, after);
    assert(s =~= s.subrange(0, s.len() as int));
    lemma_skip_run(t, s, room, s, n, 0);
    lemma_run(t, s, room);
    lemma_no_stop(t, s, room, n);
}

/// With the whole frame at hand, a call does not stop before its end.
proof fn lemma_no_stop(t: Turn, s: Seq<u8>, room: int, n: int)
    requires
        in_bounds(t, s, room),
        t.out.len() == 0,
        0 <= n,
        8 + n <= s.len(),
        is_skippable(le32(s, 0)),
        le32(s, 4) == n,
        amid(t.d, s, n, t.at),
        supplied(t.d, t.at, s.len() - t.at),
    ensures
        t.run(s, room) matches Act::Stop(_, hint) ==> hint == 0,
    decreases s.len() - t.at, t.d.stage.rank(),
{
    assert(s =~= s.subrange(0, s.len() as int));
    lemma_step(t, s, room);
    lemma_skip_step(t, s, room, s, n, 0);
    match t.step(s, room) {
        Act::Go(u) => {
            lemma_no_stop(u, s, room, n);
        },
        Act::Stop(_, _) => {
            reveal(Turn::step);
        },
        _ => {},
    }
}

} // verus!
