//! Writing the sequences of a block.
use vstd::prelude::*;
use crate::bytes::{same_outside, splice};
use crate::format::{enc_last, enc_seq, len_ext, min_int, Sq, MINMATCH, RUN_MASK};
use super::input::Input;

verus! {

pub proof fn lemma_ext_len(n: int)
    requires
        0 <= n,
    ensures
        len_ext(n).len() == (if n < 15 {
            0
        } else {
            (n + 240) / 255
        }),
{
}

/// Writes the extension of the length code `n` at `op`.
pub fn put_length(buf: &mut [u8], op: usize, n: usize) -> (end: usize)
    requires
        op + len_ext(n as int).len() <= old(buf).len(),
    ensures
        final(buf)@ == splice(old(buf)@, op as int, len_ext(n as int)),
        end == op + len_ext(n as int).len(),
{
    let ghost b0 = buf@;
    if n < RUN_MASK {
        assert(buf@ =~= splice(b0, op as int, len_ext(n as int)));
        return op;
    }
    let ghost e = len_ext(n as int);
    let mut left = n - RUN_MASK;
    let mut at = op;
    while left >= 255
        invariant
            e == len_ext(n as int),
            n >= 15,
            op <= at,
            op + e.len() <= buf.len(),
            left == n - 15 - 255 * (at - op),
            buf@ == splice(b0, op as int, e.take(at - op)),
            buf@.len() == b0.len(),
        decreases left,
    {
        buf[at] = 255;
        at = at + 1;
        left = left - 255;
        assert(buf@ =~= splice(b0, op as int, e.take(at - op)));
    }
    buf[at] = left as u8;
    assert(at - op == (n - 15) / 255);
    assert(buf@ =~= splice(b0, op as int, e));
    at + 1
}

/// How many bytes a sequence takes.
pub open spec fn seq_len(ll: int, mc: int) -> int {
    1 + len_ext(ll).len() + ll + 2 + len_ext(mc).len()
}

/// Whether writing `[op, end)` does not get to the `ll` input bytes from
/// `anchor` on before they are copied: only a token and a length come first.
pub open spec fn unhurt(input: Input, anchor: int, op: int, end: int, ll: int) -> bool {
    input.apart(op, end) || input.ahead(anchor, op + 1 + len_ext(ll).len())
}

/// Writes a token and the `ll` input bytes from `anchor` on.
fn put_literals(buf: &mut [u8], op: usize, input: &Input, anchor: usize, ll: usize, tok: u8) -> (end: usize)
    requires
        input.wf(old(buf).len() as nat),
        anchor + ll <= input.spec_len(),
        op + 1 + len_ext(ll as int).len() + ll <= old(buf).len(),
    ensures
        end == op + 1 + len_ext(ll as int).len() + ll,
        same_outside(final(buf)@, old(buf)@, op as int, end as int),
        unhurt(*input, anchor as int, op as int, end as int, ll as int) ==> final(buf)@.subrange(
            op as int,
            end as int,
        ) == seq![tok] + len_ext(ll as int) + input.bytes(old(buf)@).subrange(
            anchor as int,
            anchor + ll,
        ),
{
    let ghost b0 = buf@;
    let ghost src = input.bytes(b0);
    let ghost lits = src.subrange(anchor as int, anchor + ll);
    buf[op] = tok;
    let at = put_length(buf, op + 1, ll);
    let ghost b1 = buf@;
    input.copy_to(buf, anchor, at, ll);
    let end = at + ll;
    proof {
        if unhurt(*input, anchor as int, op as int, end as int, ll as int) {
            assert(input.bytes(b1).subrange(anchor as int, anchor + ll) =~= lits);
            assert(buf@.subrange(op as int, end as int) =~= seq![tok] + len_ext(ll as int) + lits);
        }
    }
    end
}

/// A length as far as a token holds it.
fn nibble(n: usize) -> (r: u8)
    ensures
        r == min_int(n as int, 15),
{
    if n < RUN_MASK {
        n as u8
    } else {
        15
    }
}

/// Writes a sequence at `op`: the `ll` input bytes from `anchor` on, then a
/// match of length code `mc` at distance `off`.
pub fn put_sequence(buf: &mut [u8], op: usize, input: &Input, anchor: usize, ll: usize, off: usize, mc: usize) -> (end: usize)
    requires
        input.wf(old(buf).len() as nat),
        anchor + ll <= input.spec_len(),
        op + seq_len(ll as int, mc as int) <= old(buf).len(),
        off <= 65535,
    ensures
        end == op + seq_len(ll as int, mc as int),
        same_outside(final(buf)@, old(buf)@, op as int, end as int),
        unhurt(*input, anchor as int, op as int, end as int, ll as int) ==> final(buf)@.subrange(
            op as int,
            end as int,
        ) == enc_seq(
            (Sq {
                lits: input.bytes(old(buf)@).subrange(anchor as int, anchor + ll),
                off: off as int,
                mlen: mc + MINMATCH,
            }),
        ),
{
    let ghost b0 = buf@;
    let tok = 16 * nibble(ll) + nibble(mc);
    let dp = put_literals(buf, op, input, anchor, ll, tok);
    let ghost b1 = buf@;
    buf[dp] = (off % 256) as u8;
    buf[dp + 1] = (off / 256) as u8;
    let ghost b2 = buf@;
    let end = put_length(buf, dp + 2, mc);
    proof {
        if unhurt(*input, anchor as int, op as int, end as int, ll as int) {
            let lits = input.bytes(b0).subrange(anchor as int, anchor + ll);
            let s = Sq { lits, off: off as int, mlen: mc + MINMATCH };
            let head = seq![tok] + len_ext(ll as int) + lits;
            let o = seq![(s.off % 256) as u8, (s.off / 256) as u8];
            assert(buf@.subrange(op as int, dp as int) =~= b1.subrange(op as int, dp as int));
            assert(buf@.subrange(dp as int, dp + 2) =~= o);
            assert(buf@.subrange(dp + 2, end as int) =~= len_ext(mc as int));
            assert(buf@.subrange(op as int, end as int) =~= buf@.subrange(op as int, dp as int)
                + buf@.subrange(dp as int, dp + 2) + buf@.subrange(dp + 2, end as int));
            assert(enc_seq(s) =~= head + o + len_ext(mc as int));
        }
    }
    end
}

/// Writes the literals that end a block at `op`.
pub fn put_last(buf: &mut [u8], op: usize, input: &Input, anchor: usize, ll: usize) -> (end: usize)
    requires
        input.wf(old(buf).len() as nat),
        anchor + ll <= input.spec_len(),
        op + 1 + len_ext(ll as int).len() + ll <= old(buf).len(),
    ensures
        end == op + 1 + len_ext(ll as int).len() + ll,
        same_outside(final(buf)@, old(buf)@, op as int, end as int),
        unhurt(*input, anchor as int, op as int, end as int, ll as int) ==> final(buf)@.subrange(
            op as int,
            end as int,
        ) == enc_last(input.bytes(old(buf)@).subrange(anchor as int, anchor + ll)),
{
    put_literals(buf, op, input, anchor, ll, 16 * nibble(ll))
}

} // verus!
