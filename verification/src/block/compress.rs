//! Compression of one block.
use core::ops::Range;
use vstd::prelude::*;
use crate::bytes::same_outside;
use crate::format::{
    enc_block, enc_last, enc_seq, enc_seqs, len_ext, Sq, LASTLITERALS, LZ4_DISTANCE_MAX, MFLIMIT,
    MINMATCH,
};
use super::encode::{lemma_ext_len, put_last, put_sequence, seq_len, unhurt};
use super::input::Input;
use super::local::{
    lemma_finish_local, lemma_land_local, lemma_seek_local, lemma_take_local, still_holds,
};
use super::parse::{Env, Outcome, Stage, Act};
use super::search::{Match, Search};
use super::table::{hash_position, Cells, Table, TableType};
use super::Error;

verus! {

/// The largest block that can be compressed.
pub const LZ4_MAX_INPUT_SIZE: u32 = 0x7E00_0000;

/// The most bytes that `n` input bytes compress to.
pub open spec fn bound(n: int) -> int {
    n + n / 255 + 16
}

/// The most bytes that a block of `isize_` bytes compresses to, or 0 where it
/// is too large or negative.
pub fn compress_bound(isize_: i32) -> (r: i32)
    ensures
        r == (if 0 <= isize_ <= LZ4_MAX_INPUT_SIZE {
            bound(isize_ as int)
        } else {
            0
        }),
{
    if isize_ < 0 || isize_ > 0x7E00_0000 {
        0
    } else {
        isize_ + (isize_ / 255) + 16
    }
}

/// Whether `r` and `b1` are what the outcome of a parse says.
pub open spec fn packed(outcome: Outcome, start: int, b1: Seq<u8>, r: Result<usize, Error>) -> bool {
    match outcome.block {
        Some((seqs, last)) => r matches Ok(n) && n == enc_block(seqs, last).len() && b1.subrange(
            start,
            start + n,
        ) == enc_block(seqs, last),
        None => r == Err::<usize, Error>(Error::OutputTooSmall),
    }
}

/// Sequences take no more room than what they stand for, but for a byte in
/// every 255.
pub proof fn lemma_seq_room(seqs: Seq<Sq>, s: Sq, anchor: int)
    requires
        0 <= anchor,
        s.mlen >= MINMATCH,
        enc_seqs(seqs).len() <= anchor + anchor / 255,
    ensures
        enc_seq(s).len() == seq_len(s.lits.len() as int, s.mlen - MINMATCH),
        enc_seqs(seqs.push(s)) == enc_seqs(seqs) + enc_seq(s),
        enc_seqs(seqs.push(s)).len() <= (anchor + s.lits.len() + s.mlen) + (anchor + s.lits.len()
            + s.mlen) / 255,
{
    let ll = s.lits.len() as int;
    let mc = s.mlen - MINMATCH;
    lemma_ext_len(ll);
    lemma_ext_len(mc);
    assert(seqs.push(s).drop_last() =~= seqs);
    assert(seq_len(ll, mc) <= ll + mc + 4 + ll / 255);
}

/// How many literals fit `r` bytes behind a token.
fn fitting_run(r: usize) -> (n: usize)
    ensures
        n == r - (r + 241) / 256,
        len_ext(n as int).len() + n <= r,
{
    let n = r - (r / 256 + (if r % 256 >= 15 {
        1
    } else {
        0usize
    }));
    proof {
        lemma_ext_len(n as int);
    }
    n
}

/// Ends a block with the input from `anchor` on as literals.
#[verifier::rlimit(30)]
fn last_literals(buf: &mut [u8], dst: &Range<usize>, input: &Input, q: &Search, anchor: usize, op: usize, limited: bool, consumed: &mut usize, Ghost(seqs): Ghost<Seq<Sq>>, Ghost(cells): Ghost<Cells>) -> (r: Result<usize, Error>)
    requires
        dst.start <= dst.end <= old(buf).len(),
        input.wf(old(buf).len() as nat),
        q.room == dst.end - dst.start,
        anchor <= input.spec_len() <= 0x7E00_0000,
        dst.start <= op <= dst.end,
        op - dst.start == enc_seqs(seqs).len(),
        op - dst.start <= anchor + anchor / 255,
        input.clear(dst.start as int, dst.end as int) ==> old(buf)@.subrange(
            dst.start as int,
            op as int,
        ) == enc_seqs(seqs),
        !limited ==> op - dst.start + bound(input.spec_len() - anchor) - 14 <= q.room,
    ensures
        same_outside(final(buf)@, old(buf)@, op as int, dst.end as int),
        r matches Ok(n) ==> n <= q.room,
        input.clear(dst.start as int, dst.end as int) ==> ({
            let o = q.env(input.bytes(old(buf)@)).finish(cells, anchor as int, seqs, limited);
            &&& packed(o, dst.start as int, final(buf)@, r)
            &&& o.cells == cells
            &&& q.fill && r is Ok ==> *final(consumed) == o.consumed
        }),
        r is Err ==> r == Err::<usize, Error>(Error::OutputTooSmall),
        !q.fill || r is Err ==> *final(consumed) == *old(consumed),
        q.fill && r is Ok ==> *final(consumed) <= input.spec_len(),
{
    let ghost b0 = buf@;
    let ghost o = q.env(input.bytes(b0)).finish(cells, anchor as int, seqs, limited);
    let mut last_run = input.len() - anchor;
    assert(o.cells == cells) by {
        reveal(Env::finish);
    }
    proof {
        lemma_ext_len(last_run as int);
    }
    if limited && last_run + 1 + (last_run + 240) / 255 > dst.end - op {
        if !q.fill || dst.end <= op {
            assert(o.block is None) by {
                reveal(Env::finish);
            }
            return Err(Error::OutputTooSmall);
        }
        last_run = fitting_run(dst.end - op - 1);
    }
    let end = put_last(buf, op, input, anchor, last_run);
    if q.fill {
        *consumed = anchor + last_run;
    }
    proof {
        if input.clear(dst.start as int, dst.end as int) {
            let lits = input.bytes(b0).subrange(anchor as int, anchor + last_run);
            assert(o.block == Some((seqs, lits)) && o.consumed == anchor + last_run) by {
                reveal(Env::finish);
            }
            assert(buf@.subrange(dst.start as int, end as int) =~= b0.subrange(
                dst.start as int,
                op as int,
            ) + buf@.subrange(op as int, end as int));
            lemma_ext_len(last_run as int);
            assert(unhurt(*input, anchor as int, op as int, end as int, last_run as int));
            assert(enc_block(seqs, lits) == enc_seqs(seqs) + enc_last(lits));
        }
    }
    Ok(end - dst.start)
}

/// What to do next.
enum Plan {
    TooSmall,
    Finish(bool),
    Go(Match, usize),
    Search(usize),
}

impl View for Plan {
    type V = Act;

    closed spec fn view(&self) -> Act {
        match self {
            Plan::TooSmall => Act::TooSmall,
            Plan::Finish(limited) => Act::Finish(*limited),
            Plan::Go(m, filled) => Act::Go(m@, *filled as int),
            Plan::Search(ip) => Act::Search(*ip as int),
        }
    }
}

/// Whether a plan can be followed with `left` bytes of room.
spec fn sound(q: Search, src: Seq<u8>, plan: Plan, anchor: int, left: int) -> bool {
    match plan {
        Plan::TooSmall => true,
        Plan::Finish(limited) => limited || !q.limited,
        Plan::Go(m, filled) => {
            &&& anchor <= m.ip
            &&& m.ip + MFLIMIT <= src.len()
            &&& 1 <= m.off <= 65535
            &&& m.off <= m.ip + q.env(src).behind(m.far).len()
            &&& q.limited ==> seq_len(m.ip - anchor, 0) <= left
            &&& filled < src.len()
        },
        Plan::Search(ip) => anchor < ip && ip + 11 <= src.len(),
    }
}

/// Searches from `ip` on for the next match to take.
fn plan_search(q: &Search, s: &[u8], table: &mut Table, ip: usize, anchor: usize, left: usize, Ghost(seqs): Ghost<Seq<Sq>>) -> (plan: Plan)
    requires
        q.wf(s@.len() as int),
        old(table)@.wf(),
        q.tt == TableType::U16 ==> old(table)@.tt == TableType::U16,
        anchor < ip,
        ip + 11 <= s.len(),
        q.fill ==> q.limited,
        left == q.room - enc_seqs(seqs).len(),
    ensures
        final(table)@.wf(),
        final(table)@.tt == old(table)@.tt,
        plan !is Search,
        q.env(s@).seek(old(table)@, ip as int, anchor as int, seqs) == (Stage {
            act: plan@,
            cells: final(table)@,
            anchor: anchor as int,
            seqs,
        }),
        sound(*q, s@, plan, anchor as int, left as int),
{
    reveal(Env::seek);
    match q.search(s, table, ip) {
        None => Plan::Finish(q.limited),
        Some(m) => {
            let k = q.back(s, m, anchor);
            let ll = m.ip - k - anchor;
            proof {
                lemma_ext_len(ll as int);
                lemma_ext_len(0);
            }
            if q.limited && !q.fill && 1 + ll + 8 + ll / 255 > left {
                return Plan::TooSmall;
            }
            if q.fill && 1 + (ll + 240) / 255 + ll + 11 > left {
                return Plan::Finish(true);
            }
            Plan::Go(Match { ip: m.ip - k, off: m.off, far: m.far }, m.ip)
        },
    }
}

/// Enters the end of a match in the table and looks for a match right there.
fn plan_end(q: &Search, s: &[u8], table: &mut Table, e: usize, filled: usize, left: usize, Ghost(seqs): Ghost<Seq<Sq>>) -> (plan: Plan)
    requires
        q.wf(s@.len() as int),
        old(table)@.wf(),
        q.tt == TableType::U16 ==> old(table)@.tt == TableType::U16,
        2 <= e <= s.len(),
        filled < s.len(),
        q.limited ==> left >= 6,
    ensures
        final(table)@.wf(),
        final(table)@.tt == old(table)@.tt,
        q.env(s@).land(old(table)@, e as int, filled as int, seqs) == (Stage {
            act: plan@,
            cells: final(table)@,
            anchor: e as int,
            seqs,
        }),
        sound(*q, s@, plan, e as int, left as int),
{
    reveal(Env::land);
    if s.len() < MFLIMIT || e > s.len() - MFLIMIT {
        return Plan::Finish(q.limited);
    }
    let ghost env = q.env(s@);
    let h = hash_position(s, e - 2, q.tt, q.little);
    table.put(h, ((e - 2) as u64 + q.start as u64) as u32);
    let ghost cells2 = table@;
    assert(cells2 == env.enter(old(table)@, e - 2));
    let h = hash_position(s, e, q.tt, q.little);
    let next = q.hit(s, table, h, e);
    table.put(h, (e as u64 + q.start as u64) as u32);
    assert(table@ == env.enter(cells2, e as int));
    proof {
        lemma_ext_len(0);
    }
    match next {
        Some(m) => Plan::Go(m, filled),
        None => Plan::Search(e + 1),
    }
}

/// How a match is written: its length code, unless it does not fit.
enum Fit {
    TooSmall,
    Finish,
    Code(usize),
}

/// Decides how long a match becomes with `left` bytes of room, and takes back
/// table entries where it is cut short.
#[verifier::rlimit(30)]
fn fit_match(q: &Search, s: &[u8], table: &mut Table, m: Match, anchor: usize, filled: usize, left: usize, Ghost(seqs): Ghost<Seq<Sq>>) -> (fit: Fit)
    requires
        q.wf(s@.len() as int),
        old(table)@.wf(),
        q.tt == TableType::U16 ==> old(table)@.tt == TableType::U16,
        q.fill ==> q.limited,
        left == q.room - enc_seqs(seqs).len(),
        sound(*q, s@, Plan::Go(m, filled), anchor as int, left as int),
    ensures
        final(table)@.wf(),
        final(table)@.tt == old(table)@.tt,
        ({
            let st = q.env(s@).take(old(table)@, m@, anchor as int, filled as int, seqs);
            match fit {
                Fit::TooSmall => st == (Stage {
                    act: Act::TooSmall,
                    cells: final(table)@,
                    anchor: anchor as int,
                    seqs,
                }),
                Fit::Finish => q.fill && st == (Stage {
                    act: Act::Finish(true),
                    cells: final(table)@,
                    anchor: anchor as int,
                    seqs,
                }),
                Fit::Code(mc) => {
                    &&& st == q.env(s@).land(
                        final(table)@,
                        m.ip + mc + MINMATCH,
                        filled as int,
                        seqs.push(
                            Sq {
                                lits: s@.subrange(anchor as int, m.ip as int),
                                off: m.off as int,
                                mlen: mc + MINMATCH,
                            },
                        ),
                    )
                    &&& m.ip + mc + MINMATCH + LASTLITERALS <= s@.len()
                    &&& q.limited ==> seq_len(m.ip - anchor, mc as int) + 6 <= left
                },
            }
        }),
{
    reveal(Env::take);
    let ll = m.ip - anchor;
    let mc = q.match_code(s, m);
    proof {
        lemma_ext_len(ll as int);
        lemma_ext_len(mc as int);
        lemma_ext_len(0);
    }
    let lit = 1 + ll + (if ll >= 15 {
        (ll + 240) / 255
    } else {
        0
    });
    if q.fill && lit + 11 > left {
        return Fit::Finish;
    }
    if q.limited && lit + 8 + (mc + 240) / 255 > left {
        if !q.fill {
            return Fit::TooSmall;
        }
        let cut = 14 + (left - lit - 8) * 255;
        q.forget(s, table, m.ip + cut + MINMATCH, filled);
        proof {
            lemma_ext_len(cut as int);
        }
        return Fit::Code(cut);
    }
    Fit::Code(mc)
}

/// From where on the input is as it was, once the output was written up to
/// `op`.
spec fn lowest(input: Input, from: int, to: int, op: int) -> int {
    match input {
        Input::Separate(_) => -LZ4_DISTANCE_MAX,
        Input::Within(r) => if input.apart(from, to) {
            -LZ4_DISTANCE_MAX
        } else {
            op - r.start
        },
    }
}

/// What a parse that has come to `anchor` still reads has not been overwritten.
proof fn lemma_still_holds(q: Search, input: Input, b0: Seq<u8>, b1: Seq<u8>, dst: Range<usize>, op: int, anchor: int)
    requires
        input.wf(b0.len()),
        dst.start <= op <= dst.end <= b0.len(),
        input.clear(dst.start as int, dst.end as int),
        q.wf(input.spec_len()),
        same_outside(b1, b0, dst.start as int, op),
        0 <= anchor <= input.spec_len(),
        op - dst.start <= anchor + 2 + (anchor + 2) / 255,
    ensures
        still_holds(
            q.env(input.bytes(b0)),
            input.bytes(b1),
            lowest(input, dst.start as int, dst.end as int, op),
            anchor,
        ),
{
    let lo = lowest(input, dst.start as int, dst.end as int, op);
    let a = input.bytes(b0);
    let b = input.bytes(b1);
    if let Input::Within(r) = input {
        assert forall|i: int| lo <= i && 0 <= i < a.len() implies #[trigger] a[i] == b[i] by {
            assert(a[i] == b0[r.start + i] && b[i] == b1[r.start + i]);
        }
    }
}

/// The output does not get to the literals of a sequence before they are
/// copied.
proof fn lemma_unhurt(input: Input, dst: Range<usize>, op: int, end: int, anchor: int, ll: int)
    requires
        dst.start <= op <= end <= dst.end,
        input.clear(dst.start as int, dst.end as int),
        0 <= anchor <= anchor + ll <= input.spec_len(),
        op - dst.start <= anchor + anchor / 255,
    ensures
        unhurt(input, anchor, op, end, ll),
{
    lemma_ext_len(ll);
}

/// Compresses the input into `dst`, looking for matches as `q` says.
#[verifier::rlimit(40)]
#[verifier::spinoff_prover]
pub fn compress_block(buf: &mut [u8], dst: &Range<usize>, input: &Input, q: &Search, table: &mut Table, consumed: &mut usize) -> (r: Result<usize, Error>)
    requires
        dst.start <= dst.end <= old(buf).len(),
        input.wf(old(buf).len() as nat),
        q.wf(input.spec_len()),
        q.room == dst.end - dst.start,
        q.fill ==> q.limited,
        !q.limited ==> bound(input.spec_len()) <= q.room,
        old(table)@.wf(),
        q.tt == TableType::U16 ==> old(table)@.tt == TableType::U16,
    ensures
        final(table)@.wf(),
        final(table)@.tt == old(table)@.tt,
        same_outside(final(buf)@, old(buf)@, dst.start as int, dst.end as int),
        r matches Ok(n) ==> n <= q.room,
        r is Err ==> r == Err::<usize, Error>(Error::OutputTooSmall),
        input.clear(dst.start as int, dst.end as int) ==> ({
            let o = q.env(input.bytes(old(buf)@)).parse(old(table)@);
            &&& packed(o, dst.start as int, final(buf)@, r)
            &&& final(table)@ == o.cells
            &&& q.fill && r is Ok && input.spec_len() > 0 ==> *final(consumed) == o.consumed
        }),
        !q.fill || r is Err || input.spec_len() == 0 ==> *final(consumed) == *old(consumed),
{
    let ghost b0 = buf@;
    let ghost src = input.bytes(b0);
    let ghost env = q.env(src);
    let ghost solid = input.clear(dst.start as int, dst.end as int);
    let ghost cells0 = table@;
    let n = input.len();
    if n == 0 {
        if q.limited && dst.end == dst.start {
            return Err(Error::OutputTooSmall);
        }
        buf[dst.start] = 0;
        proof {
            let e = enc_block(Seq::empty(), Seq::empty());
            assert(e =~= seq![0u8]);
            assert(buf@.subrange(dst.start as int, dst.start + 1) =~= e);
        }
        return Ok(1);
    }
    if n < MFLIMIT + 1 {
        assert(b0.subrange(dst.start as int, dst.start as int) =~= enc_seqs(Seq::empty()));
        return last_literals(
            buf,
            dst,
            input,
            q,
            0,
            dst.start,
            q.limited,
            consumed,
            Ghost(Seq::empty()),
            Ghost(cells0),
        );
    }
    {
        let s = input.as_slice(buf);
        let h = hash_position(s, 0, q.tt, q.little);
        table.put(h, q.start);
    }
    let mut anchor: usize = 0;
    let mut op = dst.start;
    let ghost mut seqs = Seq::<Sq>::empty();
    assert(b0.subrange(dst.start as int, dst.start as int) =~= enc_seqs(Seq::empty()));
    let mut plan = Plan::Search(1);
    loop
        invariant
            dst.start <= dst.end <= buf.len(),
            input.wf(buf.len() as nat),
            q.wf(n as int),
            n == input.spec_len(),
            n == src.len(),
            n >= 13,
            q.room == dst.end - dst.start,
            q.fill ==> q.limited,
            !q.limited ==> bound(n as int) <= q.room,
            table@.wf(),
            table@.tt == old(table)@.tt,
            q.tt == TableType::U16 ==> table@.tt == TableType::U16,
            b0 == old(buf)@,
            src == input.bytes(b0),
            cells0 == old(table)@,
            env == q.env(src),
            solid == input.clear(dst.start as int, dst.end as int),
            same_outside(buf@, b0, dst.start as int, op as int),
            *consumed == *old(consumed),
            dst.start <= op <= dst.end,
            op - dst.start == enc_seqs(seqs).len(),
            op - dst.start <= anchor + anchor / 255,
            anchor <= n,
            sound(*q, src, plan, anchor as int, dst.end - op),
            solid ==> buf@.subrange(dst.start as int, op as int) == enc_seqs(seqs),
            solid ==> env.parse(cells0) == env.run(
                Stage { act: plan@, cells: table@, anchor: anchor as int, seqs },
            ),
        decreases n - anchor, (if plan is Search {
            2int
        } else if plan is Go {
            1
        } else {
            0
        }),
    {
        let ghost now = input.bytes(buf@);
        let ghost lo = lowest(*input, dst.start as int, dst.end as int, op as int);
        proof {
            if solid {
                lemma_still_holds(*q, *input, b0, buf@, *dst, op as int, anchor as int);
            }
        }
        match plan {
            Plan::TooSmall => {
                return Err(Error::OutputTooSmall);
            },
            Plan::Finish(limited) => {
                proof {
                    if solid {
                        lemma_finish_local(env, now, lo, table@, anchor as int, seqs, limited);
                    }
                }
                return last_literals(
                    buf,
                    dst,
                    input,
                    q,
                    anchor,
                    op,
                    limited,
                    consumed,
                    Ghost(seqs),
                    Ghost(table@),
                );
            },
            Plan::Search(ip) => {
                proof {
                    if solid {
                        lemma_seek_local(env, now, lo, table@, ip as int, anchor as int, seqs);
                    }
                }
                plan = plan_search(
                    q,
                    input.as_slice(buf),
                    table,
                    ip,
                    anchor,
                    dst.end - op,
                    Ghost(seqs),
                );
            },
            Plan::Go(m, filled) => {
                let ghost bi = buf@;
                let ghost cells = table@;
                let left = dst.end - op;
                proof {
                    if solid {
                        lemma_take_local(
                            env,
                            now,
                            lo,
                            cells,
                            m@,
                            anchor as int,
                            filled as int,
                            seqs,
                        );
                    }
                }
                match fit_match(
                    q,
                    input.as_slice(buf),
                    table,
                    m,
                    anchor,
                    filled,
                    left,
                    Ghost(seqs),
                ) {
                    Fit::TooSmall => {
                        plan = Plan::TooSmall;
                    },
                    Fit::Finish => {
                        plan = Plan::Finish(true);
                    },
                    Fit::Code(mc) => {
                        let ghost sq = Sq {
                            lits: now.subrange(anchor as int, m.ip as int),
                            off: m.off as int,
                            mlen: mc + MINMATCH,
                        };
                        proof {
                            lemma_seq_room(seqs, sq, anchor as int);
                        }
                        let ghost op0 = op as int;
                        op = put_sequence(buf, op, input, anchor, m.ip - anchor, m.off, mc);
                        proof {
                            if solid {
                                lemma_unhurt(*input, *dst, op0, op as int, anchor as int, m.ip - anchor);
                                assert(buf@.subrange(dst.start as int, op as int) =~= bi.subrange(
                                    dst.start as int,
                                    op0,
                                ) + buf@.subrange(op0, op as int));
                            }
                            seqs = seqs.push(sq);
                        }
                        let ghost e = m.ip + mc + MINMATCH;
                        proof {
                            if solid {
                                lemma_land_local(env, now, lo, table@, e, filled as int, seqs);
                                lemma_still_holds(*q, *input, b0, buf@, *dst, op as int, e - 2);
                                lemma_land_local(
                                    env,
                                    input.bytes(buf@),
                                    lowest(*input, dst.start as int, dst.end as int, op as int),
                                    table@,
                                    e,
                                    filled as int,
                                    seqs,
                                );
                            }
                        }
                        anchor = m.ip + mc + MINMATCH;
                        plan =
                        plan_end(
                            q,
                            input.as_slice(buf),
                            table,
                            anchor,
                            filled,
                            dst.end - op,
                            Ghost(seqs),
                        );
                    },
                }
            },
        }
    }
}

} // verus!
