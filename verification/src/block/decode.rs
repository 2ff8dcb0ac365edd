//! Decompression of one block.
use core::ops::Range;
use vstd::prelude::*;
use crate::bytes::{copy_from, copy_within, fill, same_outside};
use crate::format::{
    after_literals, certain, decode, decode_from, echoes, keeps_lead, lemma_lz_copy,
    lemma_lz_copy_unique, lemma_step_keeps_lead, lemma_varlen, literal_step, long_step, lz_copy,
    match_step, min_int, place_match, short_step, step, varlen, with_match, zeros, DecodeSetup,
    Decoded, Step, LASTLITERALS, MFLIMIT, MINMATCH, RUN_MASK,
};
use super::copy::{copy8, copy_match, copy_match_wild};
use super::input::Input;
use super::Error;

verus! {

/// Input bytes that a sequence without extended literals may take at most.
pub const SHORT_IN_MARGIN: usize = 16;
/// Output bytes that a sequence without extended lengths may fill at most.
pub const SHORT_OUT_MARGIN: usize = 32;

/// Where a block is decoded to, and what may be copied from.
struct Place<'a> {
    /// First byte of the history that sits directly before the output.
    low: usize,
    /// First byte of the output.
    start: usize,
    /// End of the room for the output.
    end: usize,
    /// Whether decoding may stop once the room is used up.
    partial: bool,
    /// History held elsewhere, older than that in the buffer.
    ext: &'a [u8],
}

/// What one sequence did.
enum Flow {
    /// The input is malformed at this position.
    Fail(usize),
    /// The block is finished, with the output ending here.
    End(usize),
    /// The next sequence starts at the first position and writes at the second.
    Next(usize, usize),
}

impl<'a> Place<'a> {
    spec fn wf(&self, len: nat) -> bool {
        self.low <= self.start <= self.end <= len
    }

    spec fn setup(&self, pre: Seq<u8>, lead: Option<int>) -> DecodeSetup {
        DecodeSetup {
            hist: self.ext@ + pre,
            prefix: self.start - self.low,
            cap: self.end - self.start,
            partial: self.partial,
            lead,
        }
    }

    /// Whether the buffer holds `out`, up to a doubt, behind the history `pre`.
    spec fn shows(&self, buf: Seq<u8>, pre: Seq<u8>, op: int, out: Seq<u8>, doubt: Option<int>) -> bool {
        &&& op == self.start + out.len()
        &&& pre.len() == self.start - self.low
        &&& doubt matches Some(k) ==> 0 <= k <= out.len()
        &&& buf.subrange(self.low as int, self.start + certain(out, doubt).len()) == pre + certain(
            out,
            doubt,
        )
    }

    /// The bytes that a match written at `op` may copy from.
    spec fn window(&self, buf: Seq<u8>, op: int) -> Seq<u8> {
        self.ext@ + buf.subrange(self.low as int, op)
    }

    /// Whether `flow` is what the format prescribes as `st`, on a sequence
    /// written from `op` on into `b0`, which left `b1`.
    spec fn follows(&self, flow: Flow, st: Step, b0: Seq<u8>, b1: Seq<u8>, pre: Seq<u8>, ip: int, iend: int, op: int) -> bool {
        &&& (flow matches Flow::Next(ip2, op2) ==> ip <= ip2 < iend && op <= op2 <= self.end
            && same_outside(b1, b0, op, min_int(op2 + 16, self.end as int)))
        &&& (flow matches Flow::End(op2) ==> op <= op2 <= self.end && same_outside(
            b1,
            b0,
            op,
            self.end as int,
        ))
        &&& same_outside(b1, b0, op, self.end as int)
        &&& match st {
            Step::Stop(Decoded::Malformed { consumed }) => flow == Flow::Fail(consumed as usize)
                && 0 <= consumed <= usize::MAX,
            Step::Stop(Decoded::Done { out, doubt }) => flow matches Flow::End(op2)
                && self.shows(b1, pre, op2 as int, out, doubt),
            Step::Stop(Decoded::Overrun) => true,
            Step::Next { ip: ip2, out, doubt } => flow matches Flow::Next(ip3, op2) && ip3 == ip2
                && self.shows(b1, pre, op2 as int, out, doubt),
        }
    }
}

/// Reads a length extension.
pub fn read_variable_length(input: &Input, buf: &[u8], ip: &mut usize, ilimit: usize) -> (r: Option<usize>)
    requires
        input.wf(buf.len() as nat),
        ilimit <= input.spec_len(),
    ensures
        ({
            let (v, at) = varlen(input.bytes(buf@), *old(ip) as int, ilimit as int, 0);
            &&& *final(ip) == at
            &&& match r {
                Some(x) => v == Some(x as int),
                None => v is None,
            }
        }),
{
    let ghost src = input.bytes(buf@);
    let ghost ip0 = *ip as int;
    let mut length: usize = 0;
    loop
        invariant
            input.wf(buf.len() as nat),
            ilimit <= input.spec_len(),
            input.spec_len() == input.bytes(buf@).len(),
            src == input.bytes(buf@),
            varlen(src, ip0, ilimit as int, 0) == varlen(
                src,
                *ip as int,
                ilimit as int,
                length as int,
            ),
            ip0 == *old(ip),
        decreases ilimit - *ip,
    {
        if *ip >= ilimit {
            return None;
        }
        let s = input.byte(buf, *ip);
        *ip = *ip + 1;
        length = match length.checked_add(s as usize) {
            Some(v) => v,
            None => return None,
        };
        if s != 255 {
            return Some(length);
        }
    }
}

proof fn lemma_varlen_local(a: Seq<u8>, b: Seq<u8>, ip: int, limit: int, acc: int)
    requires
        0 <= ip,
        forall|i: int| ip <= i < limit ==> a[i] == b[i],
    ensures
        varlen(a, ip, limit, acc) == varlen(b, ip, limit, acc),
    decreases limit - ip,
{
    if ip < limit && acc + a[ip] <= usize::MAX && a[ip] == 255 {
        lemma_varlen_local(a, b, ip + 1, limit, acc + a[ip]);
    }
}

/// A sequence is read from its first byte on, never before.
proof fn lemma_step_local(d: DecodeSetup, a: Seq<u8>, b: Seq<u8>, ip: int, out: Seq<u8>, doubt: Option<int>)
    requires
        0 <= ip < a.len(),
        a.len() == b.len(),
        forall|i: int| ip <= i < a.len() ==> a[i] == b[i],
        out.len() <= d.cap,
    ensures
        step(d, a, ip, out, doubt) == step(d, b, ip, out, doubt),
{
    reveal(match_step);
    reveal(short_step);
    reveal(literal_step);
    reveal(long_step);
    let ll0 = a[ip] as int / 16;
    let ml = a[ip] as int % 16;
    let n = a.len() as int;
    lemma_varlen_local(a, b, ip + 1, n - 15, 0);
    lemma_varlen(a, ip + 1, n - 15, 0);
    if ll0 != 15 && ip + 17 < n && out.len() + 32 <= d.cap {
        assert(a.subrange(ip + 1, ip + 1 + ll0) =~= b.subrange(ip + 1, ip + 1 + ll0));
        lemma_varlen_local(a, b, ip + 1 + ll0 + 2, n - 6, 0);
    } else {
        let (ext, at) = if ll0 == 15 {
            varlen(a, ip + 1, n - 15, 0)
        } else {
            (Some(0), ip + 1)
        };
        if ext is Some && ll0 + ext->0 <= usize::MAX {
            let ll = ll0 + ext->0;
            let m = min_int(min_int(ll, n - at), d.cap - out.len());
            if out.len() + ll + MFLIMIT > d.cap || at + ll + 8 > n {
                if d.partial {
                    assert(a.subrange(at, at + m) =~= b.subrange(at, at + m));
                    lemma_varlen_local(a, b, at + m + 2, n - 6, 0);
                } else if at + ll == n {
                    assert(a.subrange(at, at + ll) =~= b.subrange(at, at + ll));
                }
            } else {
                assert(a.subrange(at, at + ll) =~= b.subrange(at, at + ll));
                lemma_varlen_local(a, b, at + ll + 2, n - 6, 0);
            }
        }
    }
}

/// Unread input survives a write that keeps behind it.
proof fn lemma_intact(input: Input, p: Place, b0: Seq<u8>, b1: Seq<u8>, pre: Seq<u8>, ip: int, op: int)
    requires
        p.wf(b0.len()),
        input.wf(b0.len()),
        0 <= ip,
        p.start <= op,
        same_outside(b1, b0, p.start as int, min_int(op + 16, p.end as int)),
        keeps_lead(
            p.setup(pre, input.lead(p.start as int, p.end as int)),
            ip,
            op - p.start,
        ),
    ensures
        input.bytes(b1).len() == input.bytes(b0).len(),
        forall|i: int|
            ip <= i < input.bytes(b0).len() ==> #[trigger] input.bytes(b1)[i] == input.bytes(b0)[i],
{
    match input {
        Input::Separate(_) => {},
        Input::Within(r) => {
            assert forall|i: int| ip <= i < input.bytes(b0).len() implies #[trigger] input.bytes(
                b1,
            )[i] == input.bytes(b0)[i] by {
                assert(b1[r.start + i] == b0[r.start + i]);
            }
        },
    }
}

/// A write that repeats the window at distance `off` extends the output by a
/// match.
proof fn lemma_match(p: Place, b0: Seq<u8>, b1: Seq<u8>, pre: Seq<u8>, op: int, out: Seq<u8>, doubt: Option<int>, off: int, n: int)
    requires
        p.wf(b0.len()),
        b0.len() == b1.len(),
        p.start <= op,
        0 <= n <= p.end - op,
        1 <= off <= p.ext@.len() + pre.len() + out.len(),
        p.shows(b0, pre, op, out, doubt),
        forall|i: int| p.low <= i < op ==> b1[i] == b0[i],
        forall|k: int|
            p.ext@.len() + op - p.low <= k < p.ext@.len() + op + n - p.low ==> #[trigger] echoes(
                p.window(b1, op + n),
                k,
                off,
            ),
    ensures
        p.shows(b1, pre, op + n, with_match(p.ext@ + pre, out, off, n), doubt),
{
    let hist = p.ext@ + pre;
    lemma_lz_copy(hist + out, off, n as nat);
    if let Some(k) = doubt {
        let o2 = with_match(hist, out, off, n);
        assert(o2.take(k) =~= out.take(k)) by {
            assert(lz_copy(hist + out, off, n as nat).take((hist + out).len() as int).skip(
                hist.len() as int,
            ) =~= o2.take(out.len() as int));
            assert((hist + out).skip(hist.len() as int) =~= out);
            assert(o2.take(out.len() as int).take(k) =~= o2.take(k));
        }
        assert(b1.subrange(p.low as int, p.start + k) =~= b0.subrange(p.low as int, p.start + k));
    } else {
        let w = hist + out;
        let r = p.window(b1, op + n);
        assert(w =~= p.window(b0, op)) by {
            assert(w =~= p.ext@ + (pre + out));
        }
        assert forall|i: int| 0 <= i < w.len() implies r[i] == w[i] by {
            if i >= p.ext@.len() {
                assert(r[i] == b1[p.low + i - p.ext@.len()]);
                assert(p.window(b0, op)[i] == b0[p.low + i - p.ext@.len()]);
            }
        }
        lemma_lz_copy_unique(w, off, n as nat, r);
        let o2 = with_match(hist, out, off, n);
        assert(r =~= hist + o2) by {
            assert(r.take(w.len() as int) =~= w);
        }
        assert(b1.subrange(p.low as int, op + n) =~= r.skip(p.ext@.len() as int));
        assert(b1.subrange(p.low as int, op + n) =~= pre + o2);
    }
}

/// The same where the match lies within the buffer.
proof fn lemma_near_match(p: Place, b0: Seq<u8>, b1: Seq<u8>, pre: Seq<u8>, op: int, out: Seq<u8>, doubt: Option<int>, off: int, n: int)
    requires
        p.wf(b0.len()),
        b0.len() == b1.len(),
        p.start <= op,
        0 <= n <= p.end - op,
        1 <= off <= op - p.low,
        p.shows(b0, pre, op, out, doubt),
        forall|i: int| p.low <= i < op ==> b1[i] == b0[i],
        forall|i: int| op <= i < op + n ==> #[trigger] echoes(b1, i, off),
    ensures
        p.shows(b1, pre, op + n, with_match(p.ext@ + pre, out, off, n), doubt),
{
    let e = p.ext@.len() as int;
    assert forall|k: int| e + op - p.low <= k < e + op + n - p.low implies #[trigger] echoes(
        p.window(b1, op + n),
        k,
        off,
    ) by {
        assert(echoes(b1, k - e + p.low, off));
    }
    lemma_match(p, b0, b1, pre, op, out, doubt, off, n);
}

/// Copies a match that starts `from_dict` bytes before the end of `ext` and,
/// where it is longer than that, goes on at `low`.
fn copy_ext_match(buf: &mut [u8], p: &Place, op: usize, from_dict: usize, n: usize)
    requires
        p.wf(old(buf).len() as nat),
        p.start <= op,
        op + n <= p.end,
        1 <= from_dict <= p.ext.len(),
    ensures
        same_outside(final(buf)@, old(buf)@, op as int, op + n),
        forall|k: int|
            p.ext@.len() + op - p.low <= k < p.ext@.len() + op + n - p.low ==> #[trigger] echoes(
                p.window(final(buf)@, op + n),
                k,
                from_dict + op - p.low,
            ),
{
    let at = p.ext.len() - from_dict;
    let ghost e = p.ext@.len() as int;
    let ghost off = from_dict + op - p.low;
    if n <= from_dict {
        copy_from(buf, op, p.ext, at, n);
        assert forall|k: int| e + op - p.low <= k < e + op + n - p.low implies #[trigger] echoes(
            p.window(buf@, op + n),
            k,
            off,
        ) by {
            assert(p.window(buf@, op + n)[k] == buf@[k - e + p.low]);
        }
    } else {
        let rest = n - from_dict;
        copy_from(buf, op, p.ext, at, from_dict);
        let ghost b1 = buf@;
        let op1 = op + from_dict;
        if rest > op1 - p.low {
            copy_match(buf, op1, p.low, rest);
        } else {
            copy_within(buf, p.low, op1, rest);
            assert forall|i: int| op1 <= i < op1 + rest implies #[trigger] echoes(
                buf@,
                i,
                op1 - p.low,
            ) by {
                assert(buf@[i] == b1[i - (op1 - p.low)]);
            }
        }
        assert forall|k: int| e + op - p.low <= k < e + op + n - p.low implies #[trigger] echoes(
            p.window(buf@, op + n),
            k,
            off,
        ) by {
            let i = k - e + p.low;
            assert(p.window(buf@, op + n)[k] == buf@[i]);
            if i >= op1 {
                assert(echoes(buf@, i, op1 - p.low));
            } else {
                assert(buf@[i] == b1[i]);
            }
        }
    }
}

/// Literals written before the rest of a sequence.
proof fn lemma_follows_literals(p: Place, flow: Flow, st: Step, b0: Seq<u8>, b1: Seq<u8>, b2: Seq<u8>, pre: Seq<u8>, ip: int, at: int, iend: int, op: int, op1: int)
    requires
        p.follows(flow, st, b1, b2, pre, at, iend, op1),
        ip <= at,
        op <= op1 <= p.end,
        same_outside(b1, b0, op, min_int(op1 + 16, p.end as int)),
    ensures
        p.follows(flow, st, b0, b2, pre, ip, iend, op),
{
}

/// Bytes written behind the output extend it.
proof fn lemma_append(p: Place, b0: Seq<u8>, b1: Seq<u8>, pre: Seq<u8>, op: int, out: Seq<u8>, doubt: Option<int>, more: Seq<u8>)
    requires
        p.wf(b0.len()),
        b0.len() == b1.len(),
        p.start <= op,
        op + more.len() <= p.end,
        p.shows(b0, pre, op, out, doubt),
        forall|i: int| p.low <= i < op ==> b1[i] == b0[i],
        b1.subrange(op, op + more.len()) == more,
    ensures
        p.shows(b1, pre, op + more.len(), out + more, doubt),
{
    if let Some(k) = doubt {
        assert((out + more).take(k) =~= out.take(k));
        assert(b1.subrange(p.low as int, p.start + k) =~= b0.subrange(p.low as int, p.start + k));
    } else {
        let n = more.len();
        assert(b1.subrange(p.low as int, op) =~= b0.subrange(p.low as int, op));
        assert(b1.subrange(p.low as int, op + n) =~= b1.subrange(p.low as int, op) + b1.subrange(
            op,
            op + n,
        ));
        assert(pre + (out + more) =~= (pre + out) + more);
    }
}

/// Writes a match of `length` bytes; a `length` of `usize::MAX` stands for
/// anything longer than every buffer.
#[verifier::rlimit(30)]
fn write_match(buf: &mut [u8], p: &Place, offset: usize, length: usize, at: usize, op: usize, Ghost(len): Ghost<int>, Ghost(iend): Ghost<int>, Ghost(pre): Ghost<Seq<u8>>, Ghost(out): Ghost<Seq<u8>>, Ghost(doubt): Ghost<Option<int>>, Ghost(lead): Ghost<Option<int>>) -> (flow: Flow)
    requires
        p.wf(old(buf).len() as nat),
        at < iend,
        p.start <= op <= p.end,
        MINMATCH <= len,
        length == min_int(len, usize::MAX as int),
        p.shows(old(buf)@, pre, op as int, out, doubt),
    ensures
        p.follows(
            flow,
            place_match(p.setup(pre, lead), offset as int, len, at as int, out, doubt),
            old(buf)@,
            final(buf)@,
            pre,
            at as int,
            iend,
            op as int,
        ),
{
    reveal(place_match);
    let ghost b0 = buf@;
    // How far back the history in the buffer reaches.
    let back = op - p.low;
    let room = p.end - op;
    if offset > back && offset - back > p.ext.len() {
        return Flow::Fail(at);
    }
    if offset > back {
        let n = if room < LASTLITERALS || length > room - LASTLITERALS {
            if !p.partial {
                return Flow::Fail(at);
            }
            length.min(room)
        } else {
            length
        };
        copy_ext_match(buf, p, op, offset - back, n);
        proof {
            assert((offset - back) as usize + op - p.low == offset);
            lemma_match(*p, b0, buf@, pre, op as int, out, doubt, offset as int, n as int);
        }
        return Flow::Next(at, op + n);
    }
    let match_pos = op - offset;
    assert(op - match_pos == offset);
    if p.partial && (room < MFLIMIT || length > room - MFLIMIT) {
        let mlen = length.min(room);
        copy_match(buf, op, match_pos, mlen);
        proof {
            if offset > 0 {
                lemma_near_match(*p, b0, buf@, pre, op as int, out, doubt, offset as int, mlen as int);
            } else if mlen == 0 {
                assert(out + zeros(0) =~= out);
            } else {
                // A copy onto itself: what precedes it stays.
                let sure = certain(out, doubt);
                let end = p.start + sure.len();
                let all = out + zeros(mlen as nat);
                assert(all.take(sure.len() as int) =~= sure);
                assert(buf@.subrange(p.low as int, end) =~= b0.subrange(p.low as int, end));
            }
        }
        return if mlen == room {
            Flow::End(op + mlen)
        } else {
            Flow::Next(at, op + mlen)
        };
    }
    if room < LASTLITERALS || length > room - LASTLITERALS {
        // The last bytes of a block are literals.
        return Flow::Fail(at);
    }
    if offset == 0 {
        // No distance: the match reads back as zeros.
        fill(buf, op, op + length, 0);
        proof {
            assert(buf@.subrange(op as int, op + length) =~= zeros(length as nat));
            lemma_append(*p, b0, buf@, pre, op as int, out, doubt, zeros(length as nat));
        }
    } else {
        if room - length >= MFLIMIT {
            copy_match_wild(buf, op, match_pos, length);
        } else {
            copy_match(buf, op, match_pos, length);
        }
        proof {
            lemma_near_match(*p, b0, buf@, pre, op as int, out, doubt, offset as int, length as int);
        }
    }
    Flow::Next(at, op + length)
}

/// The match half of a sequence: its length extension, if any, and its bytes.
fn match_sequence(buf: &mut [u8], input: &Input, p: &Place, ml: usize, offset: usize, ip: usize, op: usize, Ghost(pre): Ghost<Seq<u8>>, Ghost(out): Ghost<Seq<u8>>, Ghost(doubt): Ghost<Option<int>>, Ghost(lead): Ghost<Option<int>>) -> (flow: Flow)
    requires
        p.wf(old(buf).len() as nat),
        input.wf(old(buf).len() as nat),
        ml <= 15,
        ip < input.spec_len(),
        p.start <= op <= p.end,
        p.shows(old(buf)@, pre, op as int, out, doubt),
    ensures
        p.follows(
            flow,
            match_step(
                p.setup(pre, lead),
                input.bytes(old(buf)@),
                ml as int,
                offset as int,
                ip as int,
                out,
                doubt,
            ),
            old(buf)@,
            final(buf)@,
            pre,
            ip as int,
            input.spec_len(),
            op as int,
        ),
{
    reveal(match_step);
    let iend = input.len();
    let mut at = ip;
    let mut length: usize = ml;
    if length == RUN_MASK {
        proof {
            lemma_varlen(input.bytes(buf@), ip as int, iend - 6, 0);
        }
        if iend < 1 + LASTLITERALS {
            return Flow::Fail(ip);
        }
        match read_variable_length(input, buf, &mut at, iend - (1 + LASTLITERALS)) {
            Some(v) => match length.checked_add(v) {
                Some(x) => {
                    length = x;
                },
                None => {
                    return Flow::Fail(at);
                },
            },
            None => {
                return Flow::Fail(at);
            },
        }
    }
    let ghost len = length + MINMATCH;
    length = length.saturating_add(MINMATCH);
    write_match(
        buf,
        p,
        offset,
        length,
        at,
        op,
        Ghost(len),
        Ghost(iend as int),
        Ghost(pre),
        Ghost(out),
        Ghost(doubt),
        Ghost(lead),
    )
}

/// What follows the literals that took the buffer from `b0` to `b1`: the
/// distance at `ip`, then the match.
fn distance_sequence(buf: &mut [u8], input: &Input, p: &Place, ml: usize, ip: usize, op: usize, Ghost(b0): Ghost<Seq<u8>>, Ghost(pre): Ghost<Seq<u8>>, Ghost(out): Ghost<Seq<u8>>, Ghost(doubt): Ghost<Option<int>>) -> (flow: Flow)
    requires
        p.wf(old(buf).len() as nat),
        input.wf(old(buf).len() as nat),
        ml <= 15,
        ip + 2 < input.spec_len(),
        p.start <= op <= p.end,
        p.shows(old(buf)@, pre, op as int, out, doubt),
        same_outside(old(buf)@, b0, p.start as int, min_int(op + 16, p.end as int)),
    ensures
        p.follows(
            flow,
            after_literals(
                p.setup(pre, input.lead(p.start as int, p.end as int)),
                input.bytes(b0),
                ml as int,
                ip as int,
                out,
                doubt,
            ),
            old(buf)@,
            final(buf)@,
            pre,
            ip as int,
            input.spec_len(),
            op as int,
        ),
{
    let ghost d = p.setup(pre, input.lead(p.start as int, p.end as int));
    let ghost b1 = buf@;
    let offset = input.u16_le(buf, ip) as usize;
    proof {
        if keeps_lead(d, ip as int, out.len() as int) {
            lemma_intact(*input, *p, b0, b1, pre, ip as int, op as int);
            reveal(match_step);
            lemma_varlen_local(
                input.bytes(b1),
                input.bytes(b0),
                ip + 2,
                input.spec_len() - 6,
                0,
            );
        }
    }
    match_sequence(
        buf,
        input,
        p,
        ml,
        offset,
        ip + 2,
        op,
        Ghost(pre),
        Ghost(out),
        Ghost(doubt),
        Ghost(d.lead),
    )
}

/// A sequence far from both ends: literals and match are copied in fixed
/// steps.
#[verifier::rlimit(30)]
fn short_sequence(buf: &mut [u8], input: &Input, p: &Place, ip: usize, op: usize, Ghost(pre): Ghost<Seq<u8>>, Ghost(out): Ghost<Seq<u8>>, Ghost(doubt): Ghost<Option<int>>) -> (flow: Flow)
    requires
        p.wf(old(buf).len() as nat),
        input.wf(old(buf).len() as nat),
        ip + 17 < input.spec_len(),
        p.start <= op,
        op + 32 <= p.end,
        p.shows(old(buf)@, pre, op as int, out, doubt),
        input.bytes(old(buf)@)[ip as int] as int / 16 != 15,
    ensures
        p.follows(
            flow,
            short_step(
                p.setup(pre, input.lead(p.start as int, p.end as int)),
                input.bytes(old(buf)@),
                ip as int,
                out,
                doubt,
            ),
            old(buf)@,
            final(buf)@,
            pre,
            ip + 1,
            input.spec_len(),
            op as int,
        ),
{
    let ghost b0 = buf@;
    let ghost src = input.bytes(b0);
    reveal(short_step);
    let ghost d = p.setup(pre, input.lead(p.start as int, p.end as int));
    let token = input.byte(buf, ip);
    let ll = (token / 16) as usize;
    let ml = (token % 16) as usize;
    input.wild_copy_to(buf, ip + 1, op, ll);
    let at = ip + 1 + ll;
    let op1 = op + ll;
    let ghost b1 = buf@;
    let ghost lit = src.subrange(ip + 1, at as int);
    let ghost out1 = out + lit;
    proof {
        assert(b1.subrange(op as int, op + ll) == lit);
        lemma_append(*p, b0, b1, pre, op as int, out, doubt, lit);
    }
    let offset = input.u16_le(buf, at) as usize;
    if ml != RUN_MASK && offset >= 8 && offset <= op1 - p.low {
        // Eighteen bytes cover every match without a length extension; with a
        // distance of eight or more each step reads finished bytes only.
        let from = op1 - offset;
        copy8(buf, op1, from);
        let ghost b2 = buf@;
        copy8(buf, op1 + 8, from + 8);
        let ghost b3 = buf@;
        copy_within(buf, from + 16, op1 + 16, 2);
        let n = ml + MINMATCH;
        proof {
            assert forall|i: int| op1 <= i < op1 + n implies #[trigger] echoes(
                buf@,
                i,
                offset as int,
            ) by {
                if i < op1 + 8 {
                    assert(buf@[i] == b2[i]);
                    assert(b2[i] == b1[i - offset]);
                } else if i < op1 + 16 {
                    assert(buf@[i] == b3[i]);
                    assert(b3[i] == b2[i - offset]);
                    assert(buf@[i - offset] == b2[i - offset]);
                } else {
                    assert(buf@[i] == b3[i - offset]);
                    assert(buf@[i - offset] == b3[i - offset]);
                }
            }
            lemma_near_match(
                *p,
                b1,
                buf@,
                pre,
                op1 as int,
                out1,
                doubt,
                offset as int,
                n as int,
            );
            if keeps_lead(d, at as int, out1.len() as int) {
                lemma_intact(*input, *p, b0, b1, pre, at as int, op1 as int);
            }
        }
        return Flow::Next(at + 2, op1 + n);
    }
    proof {
        if keeps_lead(d, at as int, out1.len() as int) {
            lemma_intact(*input, *p, b0, b1, pre, at as int, op1 as int);
        }
    }
    let flow = distance_sequence(
        buf,
        input,
        p,
        ml,
        at,
        op1,
        Ghost(b0),
        Ghost(pre),
        Ghost(out1),
        Ghost(doubt),
    );
    proof {
        let st = after_literals(d, src, ml as int, at as int, out1, doubt);
        lemma_follows_literals(
            *p,
            flow,
            st,
            b0,
            b1,
            buf@,
            pre,
            ip + 1,
            at as int,
            input.spec_len(),
            op as int,
            op1 as int,
        );
        assert(st == short_step(d, src, ip as int, out, doubt));
    }
    flow
}

/// The rest of a sequence with `length` literals at `at`.
#[verifier::rlimit(30)]
fn literal_sequence(buf: &mut [u8], input: &Input, p: &Place, length: usize, ml: usize, at: usize, op: usize, Ghost(pre): Ghost<Seq<u8>>, Ghost(out): Ghost<Seq<u8>>, Ghost(doubt): Ghost<Option<int>>) -> (flow: Flow)
    requires
        p.wf(old(buf).len() as nat),
        input.wf(old(buf).len() as nat),
        at <= input.spec_len(),
        ml <= 15,
        p.start <= op <= p.end,
        p.shows(old(buf)@, pre, op as int, out, doubt),
    ensures
        p.follows(
            flow,
            literal_step(
                p.setup(pre, input.lead(p.start as int, p.end as int)),
                input.bytes(old(buf)@),
                length as int,
                ml as int,
                at as int,
                out,
                doubt,
            ),
            old(buf)@,
            final(buf)@,
            pre,
            at as int,
            input.spec_len(),
            op as int,
        ),
{
    reveal(literal_step);
    let ghost b0 = buf@;
    let ghost src = input.bytes(b0);
    let ghost d = p.setup(pre, input.lead(p.start as int, p.end as int));
    let iend = input.len();
    let room = p.end - op;
    let left = iend - at;
    let ghost lit;
    let n = if room < MFLIMIT || length > room - MFLIMIT || left < 8 || length > left - 8 {
        // Too close to an end for a sequence with a match to follow: in a
        // whole block this is the last one.
        let n = if p.partial {
            length.min(left).min(room)
        } else if length != left || length > room {
            return Flow::Fail(at);
        } else {
            length
        };
        input.copy_to(buf, at, op, n);
        proof {
            lit = src.subrange(at as int, at + n);
            assert(buf@.subrange(op as int, op + n) =~= lit);
            lemma_append(*p, b0, buf@, pre, op as int, out, doubt, lit);
        }
        if !p.partial || n == room || left - n <= 2 {
            return Flow::End(op + n);
        }
        n
    } else {
        input.wild_copy_to(buf, at, op, length);
        proof {
            lit = src.subrange(at as int, at + length);
            lemma_append(*p, b0, buf@, pre, op as int, out, doubt, lit);
        }
        length
    };
    let ghost b1 = buf@;
    let flow = distance_sequence(
        buf,
        input,
        p,
        ml,
        at + n,
        op + n,
        Ghost(b0),
        Ghost(pre),
        Ghost(out + lit),
        Ghost(doubt),
    );
    proof {
        let st = after_literals(d, src, ml as int, at + n, out + lit, doubt);
        lemma_follows_literals(
            *p,
            flow,
            st,
            b0,
            b1,
            buf@,
            pre,
            at as int,
            at + n,
            iend as int,
            op as int,
            op + n,
        );
    }
    flow
}

/// A sequence in general.
fn long_sequence(buf: &mut [u8], input: &Input, p: &Place, ip: usize, op: usize, Ghost(pre): Ghost<Seq<u8>>, Ghost(out): Ghost<Seq<u8>>, Ghost(doubt): Ghost<Option<int>>) -> (flow: Flow)
    requires
        p.wf(old(buf).len() as nat),
        input.wf(old(buf).len() as nat),
        ip < input.spec_len(),
        p.start <= op <= p.end,
        p.shows(old(buf)@, pre, op as int, out, doubt),
    ensures
        p.follows(
            flow,
            long_step(
                p.setup(pre, input.lead(p.start as int, p.end as int)),
                input.bytes(old(buf)@),
                ip as int,
                out,
                doubt,
            ),
            old(buf)@,
            final(buf)@,
            pre,
            ip + 1,
            input.spec_len(),
            op as int,
        ),
{
    reveal(long_step);
    let iend = input.len();
    let token = input.byte(buf, ip);
    let ml = (token % 16) as usize;
    let mut length = (token / 16) as usize;
    let mut at = ip + 1;
    if length == RUN_MASK {
        proof {
            lemma_varlen(input.bytes(buf@), ip + 1, iend - 15, 0);
        }
        if iend < RUN_MASK {
            return Flow::Fail(at);
        }
        match read_variable_length(input, buf, &mut at, iend - RUN_MASK) {
            Some(v) => match length.checked_add(v) {
                Some(x) => {
                    length = x;
                },
                None => {
                    return Flow::Fail(at);
                },
            },
            None => {
                return Flow::Fail(at);
            },
        }
    }
    literal_sequence(
        buf,
        input,
        p,
        length,
        ml,
        at,
        op,
        Ghost(pre),
        Ghost(out),
        Ghost(doubt),
    )
}

/// What `decompress_dict` decodes from: the history is `ext_dict` followed by
/// the `prefix_size` bytes before the output.
pub open spec fn decode_setup(buf: Seq<u8>, dst: Range<usize>, input: Input, partial: bool, target_output_size: usize, ext_dict: Seq<u8>, prefix_size: usize) -> DecodeSetup {
    let room = dst.end - dst.start;
    let cap = if partial {
        min_int(target_output_size as int, room)
    } else {
        room
    };
    DecodeSetup {
        hist: ext_dict + buf.subrange(dst.start - prefix_size, dst.start as int),
        prefix: prefix_size as int,
        cap,
        partial,
        lead: input.lead(dst.start as int, dst.start + cap),
    }
}

/// Whether `r` and `b1` are what decoding the block with `d` gives.
pub open spec fn decoded_to(d: DecodeSetup, src: Seq<u8>, start: int, b0: Seq<u8>, b1: Seq<u8>, r: Result<usize, Error>) -> bool {
    &&& same_outside(b1, b0, start, start + d.cap)
    &&& (r matches Ok(n) ==> n <= d.cap)
    &&& d.cap == 0 || src.len() == 0 ==> b1 == b0
    &&& match decode(d, src) {
        Decoded::Done { out, doubt } => r == Ok::<usize, Error>(out.len() as usize) && out.len()
            <= d.cap && b1.subrange(start, start + certain(out, doubt).len()) == certain(out, doubt),
        Decoded::Malformed { consumed } => 0 <= consumed <= usize::MAX && r == Err::<usize, Error>(
            Error::Malformed { consumed: consumed as usize },
        ),
        Decoded::Overrun => true,
    }
}

/// Decodes a block into `dst`, the range of `buf` given for it.
///
/// Matches may reach back into the `prefix_size` bytes before the output and,
/// beyond those, into `ext_dict`. With `partial` set, decoding may stop once
/// `target_output_size` bytes are out.
pub fn decompress_dict(buf: &mut [u8], dst: Range<usize>, input: &Input, partial: bool, target_output_size: usize, ext_dict: &[u8], prefix_size: usize) -> (r: Result<usize, Error>)
    requires
        dst.start <= dst.end <= old(buf).len(),
        input.wf(old(buf).len() as nat),
        prefix_size <= dst.start,
    ensures
        decoded_to(
            decode_setup(
                old(buf)@,
                dst,
                *input,
                partial,
                target_output_size,
                ext_dict@,
                prefix_size,
            ),
            input.bytes(old(buf)@),
            dst.start as int,
            old(buf)@,
            final(buf)@,
            r,
        ),
{
    let ghost b0 = buf@;
    let ghost src = input.bytes(b0);
    let iend = input.len();
    let room = dst.end - dst.start;
    let output_size = if partial {
        target_output_size.min(room)
    } else {
        room
    };
    let p = Place {
        low: dst.start - prefix_size,
        start: dst.start,
        end: dst.start + output_size,
        partial,
        ext: ext_dict,
    };
    let ghost pre = b0.subrange(p.low as int, p.start as int);
    let ghost d = p.setup(pre, input.lead(p.start as int, p.end as int));
    assert(d =~= decode_setup(b0, dst, *input, partial, target_output_size, ext_dict@, prefix_size));
    if output_size == 0 {
        assert(b0.subrange(p.start as int, p.start as int) =~= Seq::empty());
        if partial {
            return Ok(0);
        }
        return if iend == 1 && input.byte(buf, 0) == 0 {
            Ok(0)
        } else {
            Err(Error::Malformed { consumed: 0 })
        };
    }
    if iend == 0 {
        return Err(Error::Malformed { consumed: 0 });
    }
    let mut ip: usize = 0;
    let mut op = dst.start;
    let ghost mut out = Seq::<u8>::empty();
    let ghost mut doubt: Option<int> = None;
    let ghost mut lost = false;
    assert(b0.subrange(p.low as int, op as int) =~= pre + out);
    loop
        invariant
            p.wf(buf.len() as nat),
            input.wf(buf.len() as nat),
            b0.len() == buf.len(),
            src == input.bytes(b0),
            src.len() == iend == input.spec_len(),
            p.start == dst.start,
            d == p.setup(pre, input.lead(p.start as int, p.end as int)),
            d == decode_setup(
                b0,
                dst,
                *input,
                partial,
                target_output_size,
                ext_dict@,
                prefix_size,
            ),
            d.cap > 0,
            pre == b0.subrange(p.low as int, p.start as int),
            b0 == old(buf)@,
            ip < iend,
            p.start <= op <= p.end,
            same_outside(buf@, b0, p.start as int, p.end as int),
            lost ==> decode(d, src) == Decoded::Overrun,
            !lost ==> {
                &&& decode(d, src) == decode_from(d, src, ip as int, out, doubt)
                &&& p.shows(buf@, pre, op as int, out, doubt)
                &&& forall|i: int| ip <= i < iend ==> #[trigger] input.bytes(buf@)[i] == src[i]
            },
        decreases iend - ip,
    {
        let ghost bi = buf@;
        let ghost cur = input.bytes(bi);
        let ghost o = if lost {
            Seq::<u8>::new((op - p.start) as nat, |i: int| 0u8)
        } else {
            out
        };
        let ghost s = if lost {
            Some(0int)
        } else {
            doubt
        };
        let ghost st = step(d, cur, ip as int, o, s);
        proof {
            if !lost {
                lemma_step_local(d, cur, src, ip as int, out, doubt);
            } else {
                assert(bi.subrange(p.low as int, p.start as int) =~= pre + certain(o, s));
            }
        }
        let token = input.byte(buf, ip);
        let flow = if token / 16 != 15 && iend - ip > SHORT_IN_MARGIN + 1 && p.end - op
            >= SHORT_OUT_MARGIN {
            short_sequence(buf, input, &p, ip, op, Ghost(pre), Ghost(o), Ghost(s))
        } else {
            long_sequence(buf, input, &p, ip, op, Ghost(pre), Ghost(o), Ghost(s))
        };
        match flow {
            Flow::Fail(at) => {
                return Err(Error::Malformed { consumed: at });
            },
            Flow::End(op2) => {
                proof {
                    if let Step::Stop(Decoded::Done { out: out2, doubt: doubt2 }) = st {
                        let sure = certain(out2, doubt2);
                        let end = p.start + sure.len();
                        assert(buf@.subrange(p.start as int, end) =~= buf@.subrange(
                            p.low as int,
                            end,
                        ).skip(pre.len() as int));
                        assert(sure =~= (pre + sure).skip(pre.len() as int));
                    }
                }
                return Ok(op2 - dst.start);
            },
            Flow::Next(ip2, op2) => {
                proof {
                    if !lost {
                        match st {
                            Step::Next { ip: _, out: out2, doubt: doubt2 } => {
                                lemma_step_keeps_lead(d, cur, ip as int, o, s);
                                lemma_intact(*input, p, bi, buf@, pre, ip2 as int, op2 as int);
                                out = out2;
                                doubt = doubt2;
                            },
                            Step::Stop(_) => {
                                lost = true;
                            },
                        }
                    }
                }
                ip = ip2;
                op = op2;
            },
        }
    }
}

/// Decodes a block that has no history.
pub fn decompress_generic(buf: &mut [u8], dst: Range<usize>, input: &Input, partial: bool, target_output_size: usize) -> (r: Result<usize, Error>)
    requires
        dst.start <= dst.end <= old(buf).len(),
        input.wf(old(buf).len() as nat),
    ensures
        decoded_to(
            decode_setup(
                old(buf)@,
                dst,
                *input,
                partial,
                target_output_size,
                Seq::empty(),
                0,
            ),
            input.bytes(old(buf)@),
            dst.start as int,
            old(buf)@,
            final(buf)@,
            r,
        ),
{
    decompress_dict(buf, dst, input, partial, target_output_size, &[], 0)
}

} // verus!
