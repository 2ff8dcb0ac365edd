//! Where a codec reads its input from.
use core::ops::Range;
use vstd::prelude::*;
use crate::bytes::{copy_from, copy_within};
use crate::format::LZ4_DISTANCE_MAX;
use super::copy::copy8;

verus! {

/// A source of input bytes.
///
/// Input and output may live in one buffer; the overlapping case is a range
/// within the output buffer, so that no second reference to it is needed.
pub enum Input<'a> {
    /// A separate allocation.
    Separate(&'a [u8]),
    /// A range inside the buffer that the output is written to.
    Within(Range<usize>),
}

/// Below this length a run is copied in fixed steps of eight bytes.
pub const WILD_COPY_CUTOFF: usize = 32;

/// How many bytes a copy in steps of eight moves for a run of `n`.
pub open spec fn wild_len(n: int) -> int {
    if n <= 8 { 8 } else { (n + 7) / 8 * 8 }
}

impl<'a> Input<'a> {
    /// Whether the input lies inside a buffer of `len` bytes.
    pub open spec fn wf(&self, len: nat) -> bool {
        match self {
            Input::Separate(_) => true,
            Input::Within(r) => r.start <= r.end <= len,
        }
    }

    /// The input bytes, given the contents of the buffer.
    pub open spec fn bytes(&self, buf: Seq<u8>) -> Seq<u8> {
        match self {
            Input::Separate(s) => s@,
            Input::Within(r) => buf.subrange(r.start as int, r.end as int),
        }
    }

    pub open spec fn spec_len(&self) -> int {
        match self {
            Input::Separate(s) => s.len() as int,
            Input::Within(r) => r.end - r.start,
        }
    }

    /// Whether writing `[from, to)` of the buffer leaves the input alone.
    pub open spec fn apart(&self, from: int, to: int) -> bool {
        match self {
            Input::Separate(_) => true,
            Input::Within(r) => r.end <= from || to <= r.start || r.start == r.end || from >= to,
        }
    }

    /// Whether writing the buffer up to `upto` leaves the input from `anchor`
    /// on alone.
    pub open spec fn ahead(&self, anchor: int, upto: int) -> bool {
        match self {
            Input::Separate(_) => true,
            Input::Within(r) => upto <= r.start + anchor,
        }
    }

    /// Whether a block can be compressed to `[from, to)` of the buffer: either
    /// that leaves the input alone, or the input starts so far behind `from`
    /// that the output never gets to what is still to be read. Then the input
    /// may be overwritten as it is used up.
    pub open spec fn clear(&self, from: int, to: int) -> bool {
        self.apart(from, to) || match self {
            Input::Separate(_) => true,
            Input::Within(r) => r.start - from >= LZ4_DISTANCE_MAX + (r.end - r.start) / 255 + 16,
        }
    }

    /// How far the input starts behind an output region, if they overlap.
    pub open spec fn lead(&self, from: int, to: int) -> Option<int> {
        match self {
            Input::Separate(_) => None,
            Input::Within(r) => if self.apart(from, to) {
                None
            } else {
                Some(r.start - from)
            },
        }
    }

    pub fn len(&self) -> (n: usize)
        requires
            exists|len: nat| self.wf(len),
        ensures
            n == self.spec_len(),
    {
        match self {
            Input::Separate(s) => s.len(),
            Input::Within(r) => r.end - r.start,
        }
    }

    pub fn is_empty(&self) -> (b: bool)
        requires
            exists|len: nat| self.wf(len),
        ensures
            b == (self.spec_len() == 0),
    {
        self.len() == 0
    }

    /// The whole input as one slice.
    pub fn as_slice<'b>(&'b self, buf: &'b [u8]) -> (r: &'b [u8])
        requires
            self.wf(buf.len() as nat),
        ensures
            r@ == self.bytes(buf@),
    {
        match self {
            Input::Separate(s) => s,
            Input::Within(r) => &buf[r.start..r.end],
        }
    }

    /// `n` bytes of the input from `at` on.
    pub fn window<'b>(&'b self, buf: &'b [u8], at: usize, n: usize) -> (r: &'b [u8])
        requires
            self.wf(buf.len() as nat),
            at + n <= self.spec_len(),
        ensures
            r@ == self.bytes(buf@).subrange(at as int, at + n),
    {
        let r = match self {
            Input::Separate(s) => &s[at..at + n],
            Input::Within(r) => &buf[r.start + at..r.start + at + n],
        };
        assert(r@ =~= self.bytes(buf@).subrange(at as int, at + n));
        r
    }

    /// The input byte at `at`.
    pub fn byte(&self, buf: &[u8], at: usize) -> (b: u8)
        requires
            self.wf(buf.len() as nat),
            at < self.spec_len(),
        ensures
            b == self.bytes(buf@)[at as int],
    {
        match self {
            Input::Separate(s) => s[at],
            Input::Within(r) => buf[r.start + at],
        }
    }

    /// The 16-bit value at `at`, low byte first on every host.
    pub fn u16_le(&self, buf: &[u8], at: usize) -> (v: u16)
        requires
            self.wf(buf.len() as nat),
            at + 2 <= self.spec_len(),
        ensures
            v == crate::format::le16(self.bytes(buf@), at as int),
    {
        self.byte(buf, at) as u16 + 256 * (self.byte(buf, at + 1) as u16)
    }

    /// Copies `n` input bytes from `src_at` to `buf[dst_at..]`.
    pub fn copy_to(&self, buf: &mut [u8], src_at: usize, dst_at: usize, n: usize)
        requires
            self.wf(old(buf).len() as nat),
            src_at + n <= self.spec_len(),
            dst_at + n <= old(buf).len(),
        ensures
            final(buf)@ == crate::bytes::splice(
                old(buf)@,
                dst_at as int,
                self.bytes(old(buf)@).subrange(src_at as int, src_at + n),
            ),
    {
        let ghost b0 = buf@;
        match self {
            Input::Separate(s) => copy_from(buf, dst_at, s, src_at, n),
            Input::Within(r) => copy_within(buf, r.start + src_at, dst_at, n),
        }
        assert(buf@ =~= crate::bytes::splice(
            b0,
            dst_at as int,
            self.bytes(b0).subrange(src_at as int, src_at + n),
        ));
    }

    /// `copy_to` where there is room to spare on both sides: a short run moves
    /// in steps of eight and may overshoot by up to seven bytes, or eight for
    /// an empty run.
    pub fn wild_copy_to(&self, buf: &mut [u8], src_at: usize, dst_at: usize, n: usize)
        requires
            self.wf(old(buf).len() as nat),
            src_at + wild_len(n as int) <= self.spec_len(),
            dst_at + wild_len(n as int) <= old(buf).len(),
        ensures
            crate::bytes::same_outside(
                final(buf)@,
                old(buf)@,
                dst_at as int,
                dst_at + wild_len(n as int),
            ),
            final(buf)@.subrange(dst_at as int, dst_at + n) == self.bytes(old(buf)@).subrange(
                src_at as int,
                src_at + n,
            ),
    {
        let ghost b0 = buf@;
        let ghost src = self.bytes(b0);
        if n >= WILD_COPY_CUTOFF {
            self.copy_to(buf, src_at, dst_at, n);
            assert(buf@.subrange(dst_at as int, dst_at + n) =~= src.subrange(
                src_at as int,
                src_at + n,
            ));
            return;
        }
        let end = dst_at + n;
        match self {
            Input::Separate(s) => {
                let mut d = dst_at;
                let mut k = src_at;
                loop
                    invariant_except_break
                        d == dst_at || d < end,
                    invariant
                        d - dst_at == k - src_at,
                        dst_at <= d,
                        d <= dst_at + wild_len(n as int),
                        (d - dst_at) % 8 == 0,
                        end == dst_at + n,
                        n < 32,
                        src_at + wild_len(n as int) <= s.len(),
                        dst_at + wild_len(n as int) <= buf.len(),
                        buf.len() == b0.len(),
                        forall|i: int|
                            dst_at <= i < d ==> #[trigger] buf@[i] == s@[src_at + (i - dst_at)],
                        forall|i: int|
                            0 <= i < b0.len() && !(dst_at <= i < d) ==> #[trigger] buf@[i] == b0[i],
                    ensures
                        d >= end,
                    decreases end + 8 - d,
                {
                    copy_from(buf, d, s, k, 8);
                    d = d + 8;
                    k = k + 8;
                    if d >= end {
                        break;
                    }
                }
                assert(buf@.subrange(dst_at as int, dst_at + n) =~= src.subrange(
                    src_at as int,
                    src_at + n,
                ));
            },
            Input::Within(r) => {
                let src_pos = r.start + src_at;
                // Copying forward in chunks equals a copy of the old bytes only
                // while the source is at or ahead of the destination.
                if src_pos < dst_at {
                    self.copy_to(buf, src_at, dst_at, n);
                    assert(buf@.subrange(dst_at as int, dst_at + n) =~= src.subrange(
                        src_at as int,
                        src_at + n,
                    ));
                    return;
                }
                let mut d = dst_at;
                let mut k = src_pos;
                loop
                    invariant_except_break
                        d == dst_at || d < end,
                    invariant
                        d - dst_at == k - src_pos,
                        dst_at <= d,
                        dst_at <= src_pos,
                        d <= dst_at + wild_len(n as int),
                        (d - dst_at) % 8 == 0,
                        end == dst_at + n,
                        n < 32,
                        src_pos + wild_len(n as int) <= buf.len(),
                        dst_at + wild_len(n as int) <= buf.len(),
                        buf.len() == b0.len(),
                        forall|i: int|
                            dst_at <= i < d ==> #[trigger] buf@[i] == b0[src_pos + (i - dst_at)],
                        forall|i: int|
                            0 <= i < b0.len() && !(dst_at <= i < d) ==> #[trigger] buf@[i] == b0[i],
                    ensures
                        d >= end,
                    decreases end + 8 - d,
                {
                    copy8(buf, d, k);
                    d = d + 8;
                    k = k + 8;
                    if d >= end {
                        break;
                    }
                }
                assert(buf@.subrange(dst_at as int, dst_at + n) =~= src.subrange(
                    src_at as int,
                    src_at + n,
                ));
            },
        }
    }
}

} // verus!
