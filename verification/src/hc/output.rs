//! Writing a block while its room lasts.
use vstd::prelude::*;
use crate::block::encode::{lemma_ext_len, put_last, put_sequence, seq_len};
use crate::block::Input;
use crate::format::{enc_block, enc_seq, enc_seqs, len_ext, Sq, LASTLITERALS, MINMATCH};
use super::Limit;

verus! {

/// A block in the making: the sequences stand for the input up to `anchor`.
#[verifier::ext_equal]
pub struct Draft {
    pub seqs: Seq<Sq>,
    pub anchor: int,
}

/// What became of a block: its sequences and the literals at its end, unless
/// the room ran out, and how much of the input they stand for.
#[verifier::ext_equal]
pub struct Done {
    pub block: Option<(Seq<Sq>, Seq<u8>)>,
    pub consumed: int,
}

/// Where the sequences of a block must end.
pub open spec fn out_end(limit: Limit, room: int) -> int {
    if limit == Limit::FillOutput {
        if room >= LASTLITERALS {
            room - LASTLITERALS
        } else {
            0
        }
    } else {
        room
    }
}

/// Whether a sequence of `ll` literals and the match code `mc` may be written
/// behind `op` bytes of output. Where the room is limited, the literals that
/// end the block are provided for.
pub open spec fn fits(limit: Limit, room: int, op: int, ll: int, mc: int) -> bool {
    let end = out_end(limit, room);
    if limit == Limit::NotLimited {
        op + seq_len(ll, mc) <= room
    } else {
        &&& op + 1 + ll / 255 + ll + 8 <= end
        &&& op + 1 + len_ext(ll).len() + ll + 2 + mc / 255 + 6 <= end
    }
}

/// How many literals fit behind a token in `avail` bytes.
pub open spec fn fill_run(avail: int) -> int {
    let run = avail - 1;
    let ext = (run + 241) / 256;
    if run >= ext {
        run - ext
    } else {
        0
    }
}

impl Draft {
    /// How many bytes the sequences take.
    pub open spec fn op(self) -> int {
        enc_seqs(self.seqs).len() as int
    }

    /// One more sequence: the input up to `ip` as literals, and a match.
    pub open spec fn with(self, base: Seq<u8>, ip: int, mlen: int, off: int) -> Draft {
        Draft {
            seqs: self.seqs.push(Sq { lits: base.subrange(self.anchor, ip), off, mlen }),
            anchor: ip + mlen,
        }
    }

    /// Whether that sequence may be written.
    pub open spec fn takes(self, limit: Limit, room: int, ip: int, mlen: int) -> bool {
        fits(limit, room, self.op(), ip - self.anchor, mlen - MINMATCH)
    }

    /// The block ends with the rest of the input as literals, or, where it is
    /// to fill its room, with as many as fit.
    pub open spec fn finish(self, base: Seq<u8>, start: int, limit: Limit, room: int) -> Done {
        let run = base.len() - self.anchor;
        let op = self.op();
        if op + 1 + len_ext(run).len() + run <= room {
            Done {
                block: Some((self.seqs, base.skip(self.anchor))),
                consumed: base.len() - start,
            }
        } else if limit == Limit::FillOutput && op < room {
            let n = fill_run(room - op);
            Done {
                block: Some((self.seqs, base.subrange(self.anchor, self.anchor + n))),
                consumed: self.anchor + n - start,
            }
        } else {
            Done { block: None, consumed: 0 }
        }
    }

    /// The block ends because a sequence does not fit. Where the room is to be
    /// filled, as much of its match is taken as fits.
    pub open spec fn cut_short(self, base: Seq<u8>, start: int, limit: Limit, room: int, ip: int, mlen: int, off: int) -> Done {
        let end = out_end(limit, room);
        let ll = ip - self.anchor;
        let behind = self.op() + 1 + len_ext(ll).len() + ll;
        let left = end - 3 - behind;
        let most = MINMATCH + 14 + 255 * left;
        let n = if mlen < most {
            mlen
        } else {
            most
        };
        if limit != Limit::FillOutput {
            Done { block: None, consumed: 0 }
        } else if left >= 0 && end + LASTLITERALS - (behind + 2) - 1 + n >= 12 {
            self.with(base, ip, n, off).finish(base, start, limit, room)
        } else {
            self.finish(base, start, limit, room)
        }
    }
}

/// Whether `dst` and `r` are what became of a block.
pub open spec fn gave(done: Done, r: (usize, usize), dst: Seq<u8>) -> bool {
    match done.block {
        Some((seqs, last)) => {
            let bytes = enc_block(seqs, last);
            &&& r.0 == bytes.len() <= dst.len()
            &&& dst.take(r.0 as int) == bytes
            &&& r.1 == done.consumed
        },
        None => r == (0usize, 0usize),
    }
}

/// The size of a length extension.
fn ext_size(n: usize) -> (k: u128)
    ensures
        k == len_ext(n as int).len(),
{
    proof {
        lemma_ext_len(n as int);
    }
    if n < 15 {
        0
    } else {
        (n as u128 + 240) / 255
    }
}

/// Writes a sequence behind the `op` bytes of output, if it fits.
#[verifier::rlimit(30)]
pub(crate) fn encode_sequence(base: &[u8], dst: &mut [u8], op: usize, anchor: usize, ip: usize, mlen: usize, off: usize, limit: Limit, Ghost(d): Ghost<Draft>) -> (r: Option<usize>)
    requires
        anchor <= ip,
        4 <= mlen,
        ip + mlen <= base.len(),
        off <= 65535,
        op <= old(dst).len(),
        op == d.op(),
        anchor == d.anchor,
        old(dst)@.take(op as int) == enc_seqs(d.seqs),
    ensures
        final(dst)@.len() == old(dst)@.len(),
        r is Some <==> d.takes(limit, old(dst)@.len() as int, ip as int, mlen as int),
        r matches Some(n) ==> {
            let e = d.with(base@, ip as int, mlen as int, off as int);
            &&& n <= final(dst).len()
            &&& n == e.op()
            &&& final(dst)@.take(n as int) == enc_seqs(e.seqs)
        },
        r is None ==> final(dst)@ == old(dst)@,
{
    let ghost room = dst@.len() as int;
    let ll = ip - anchor;
    let mc = mlen - MINMATCH;
    let el = ext_size(ll);
    let em = ext_size(mc);
    proof {
        lemma_ext_len(ll as int);
        lemma_ext_len(mc as int);
    }
    let left = (dst.len() - op) as u128;
    let end = match limit {
        Limit::FillOutput => if dst.len() >= LASTLITERALS {
            dst.len() - LASTLITERALS
        } else {
            0
        },
        _ => dst.len(),
    };
    let lits = ll as u128;
    let size = 1 + el + lits + 2 + em;
    let ok = match limit {
        Limit::NotLimited => size <= left,
        _ => op <= end && 1 + lits / 255 + lits + 8 <= (end - op) as u128 && 1 + el + lits + 2 + (mc
            as u128) / 255 + 6 <= (end - op) as u128,
    };
    assert(ok == d.takes(limit, room, ip as int, mlen as int));
    if !ok {
        return None;
    }
    assert(op + seq_len(ll as int, mc as int) <= room);
    let ghost b0 = dst@;
    let input = Input::Separate(base);
    let n = put_sequence(dst, op, &input, anchor, ll, off, mc);
    proof {
        let e = d.with(base@, ip as int, mlen as int, off as int);
        let s = e.seqs.last();
        assert(e.seqs.drop_last() =~= d.seqs);
        assert(dst@.take(n as int) =~= b0.take(op as int) + dst@.subrange(op as int, n as int));
        assert(enc_seqs(e.seqs) == enc_seqs(d.seqs) + enc_seq(s));
    }
    Some(n)
}

/// Fewer literals fit where all of them do not.
proof fn lemma_fill_run(avail: int, run: int)
    requires
        avail >= 1,
        run >= 0,
        1 + len_ext(run).len() + run > avail,
    ensures
        0 <= fill_run(avail) <= run,
        1 + len_ext(fill_run(avail)).len() + fill_run(avail) <= avail,
{
    lemma_ext_len(run);
    lemma_ext_len(fill_run(avail));
}

/// Writes the literals that end a block behind the `op` bytes of output.
pub(crate) fn last_literals(base: &[u8], dst: &mut [u8], anchor: usize, op: usize, limit: Limit, src_off: usize, Ghost(d): Ghost<Draft>) -> (r: (usize, usize))
    requires
        src_off <= anchor <= base.len(),
        op <= old(dst).len(),
        op == d.op(),
        anchor == d.anchor,
        old(dst)@.take(op as int) == enc_seqs(d.seqs),
    ensures
        final(dst)@.len() == old(dst)@.len(),
        gave(
            d.finish(base@, src_off as int, limit, old(dst)@.len() as int),
            r,
            final(dst)@,
        ),
{
    let ghost room = dst@.len() as int;
    let ghost b0 = dst@;
    let mut run = base.len() - anchor;
    let avail = dst.len() - op;
    if 1 + ext_size(run) + run as u128 > avail as u128 {
        if limit != Limit::FillOutput || avail == 0 {
            return (0, 0);
        }
        proof {
            lemma_fill_run(avail as int, run as int);
        }
        // Here `avail` is below the size of the whole run and its length.
        let most = avail - 1;
        let ext = ((most as u128 + 241) / 256) as usize;
        run = if most >= ext {
            most - ext
        } else {
            0
        };
        assert(run == fill_run(avail as int));
    }
    let input = Input::Separate(base);
    let n = put_last(dst, op, &input, anchor, run);
    proof {
        let last = base@.subrange(anchor as int, anchor + run);
        if anchor + run == base@.len() {
            assert(last =~= base@.skip(anchor as int));
        }
        assert(dst@.take(n as int) =~= b0.take(op as int) + dst@.subrange(op as int, n as int));
        assert(dst@.take(n as int) =~= enc_block(d.seqs, last));
    }
    (n, anchor + run - src_off)
}

/// Ends a block because a sequence does not fit.
#[verifier::rlimit(30)]
pub(crate) fn dest_overflow(base: &[u8], dst: &mut [u8], anchor: usize, ip: usize, op: usize, mlen: usize, off: usize, limit: Limit, src_off: usize, Ghost(d): Ghost<Draft>) -> (r: (usize, usize))
    requires
        src_off <= anchor <= ip,
        4 <= mlen,
        ip + mlen <= base.len(),
        off <= 65535,
        op <= old(dst).len(),
        op == d.op(),
        anchor == d.anchor,
        old(dst)@.take(op as int) == enc_seqs(d.seqs),
    ensures
        final(dst)@.len() == old(dst)@.len(),
        gave(
            d.cut_short(
                base@,
                src_off as int,
                limit,
                old(dst)@.len() as int,
                ip as int,
                mlen as int,
                off as int,
            ),
            r,
            final(dst)@,
        ),
{
    if limit != Limit::FillOutput {
        return (0, 0);
    }
    let ghost room = dst@.len() as int;
    let ll = ip - anchor;
    let cost = 1 + ext_size(ll) + ll as u128;
    let end = if dst.len() >= LASTLITERALS {
        dst.len() - LASTLITERALS
    } else {
        0
    };
    assert(end == out_end(limit, room));
    if end >= 3 && op <= end - 3 && cost <= (end - 3 - op) as u128 {
        let left = end - 3 - op - cost as usize;
        // A match code takes `left` bytes at most.
        let most = MINMATCH as u128 + 14 + 255 * left as u128;
        let n = if mlen as u128 >= most {
            most as usize
        } else {
            mlen
        };
        // The match, and what is left for literals behind it.
        if left >= 7 || n >= 7 || n + left + LASTLITERALS >= 12 {
            proof {
                lemma_ext_len(n - MINMATCH);
                lemma_cut_fits(d, ll as int, n as int, left as int, room);
            }
            match encode_sequence(base, dst, op, anchor, ip, n, off, Limit::NotLimited, Ghost(d)) {
                Some(op2) => {
                    let ghost e = d.with(base@, ip as int, n as int, off as int);
                    return last_literals(base, dst, ip + n, op2, limit, src_off, Ghost(e));
                },
                None => {
                    assert(false);
                },
            }
        }
    }
    last_literals(base, dst, anchor, op, limit, src_off, Ghost(d))
}

/// A match that is cut to what its code has room for fits.
proof fn lemma_cut_fits(d: Draft, ll: int, n: int, left: int, room: int)
    requires
        ll >= 0,
        4 <= n <= MINMATCH + 14 + 255 * left,
        left >= 0,
        d.op() + 1 + len_ext(ll).len() + ll + 3 + left + 5 <= room,
    ensures
        d.op() + seq_len(ll, n - MINMATCH) + 6 <= room,
{
    lemma_ext_len(n - MINMATCH);
}

} // verus!
