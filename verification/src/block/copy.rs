//! Match copies: the source of a match may overlap what the match writes, and
//! then the bytes repeat.
use vstd::arithmetic::div_mod::{lemma_mod_sub_multiples_vanish, lemma_small_mod};
use vstd::prelude::*;
use crate::bytes::{copy_within, same_outside, splice};
use crate::format::echoes;
use super::input::WILD_COPY_CUTOFF;

verus! {

/// Copies eight bytes within `buf`.
pub fn copy8(buf: &mut [u8], dst_at: usize, src_at: usize)
    requires
        dst_at + 8 <= old(buf).len(),
        src_at + 8 <= old(buf).len(),
    ensures
        final(buf)@ == splice(
            old(buf)@,
            dst_at as int,
            old(buf)@.subrange(src_at as int, src_at + 8),
        ),
{
    copy_within(buf, src_at, dst_at, 8);
}

/// How far past the first four bytes of a short-distance match the next four
/// are read, by distance.
pub const INC32_TABLE: [usize; 8] = [0, 1, 2, 1, 0, 4, 4, 4];

/// How far back from there the rest of the copy goes on, by distance, as the
/// amount to add and the amount to take away.
pub const DEC64_ADD: [usize; 8] = [0, 0, 0, 1, 4, 0, 0, 0];

pub const DEC64_SUB: [usize; 8] = [0, 0, 0, 0, 0, 1, 2, 3];

/// `buf[from..to]` repeats with period `off`, starting from the `off` bytes
/// `pat`.
pub open spec fn periodic(b: Seq<u8>, from: int, to: int, off: int, pat: Seq<u8>) -> bool {
    forall|i: int| from <= i < to ==> #[trigger] b[i] == pat[(i - from) % off]
}

proof fn lemma_periodic_echoes(b: Seq<u8>, from: int, to: int, off: int, pat: Seq<u8>)
    requires
        off > 0,
        pat.len() == off,
        periodic(b, from, to, off, pat),
    ensures
        forall|i: int| from + off <= i < to ==> #[trigger] echoes(b, i, off),
{
    assert forall|i: int| from + off <= i < to implies #[trigger] echoes(b, i, off) by {
        lemma_mod_sub_multiples_vanish(i - from, off);
        assert(b[i] == pat[(i - from) % off]);
        assert(b[i - off] == pat[(i - off - from) % off]);
    }
}

/// Copying from a whole number of periods back keeps the region periodic.
proof fn lemma_periodic_extend(b: Seq<u8>, c: Seq<u8>, from: int, to: int, gap: int, n: int, off: int, pat: Seq<u8>)
    requires
        0 <= from <= to,
        0 <= n <= gap,
        from + gap <= to,
        off > 0,
        pat.len() == off,
        gap % off == 0,
        periodic(b, from, to, off, pat),
        to + n <= b.len(),
        c == splice(b, to, b.subrange(to - gap, to - gap + n)),
    ensures
        periodic(c, from, to + n, off, pat),
{
    assert forall|i: int| from <= i < to + n implies #[trigger] c[i] == pat[(i - from) % off] by {
        if i < to {
            assert(c[i] == b[i]);
        } else {
            assert(c[i] == b[i - gap]);
            let q = gap / off;
            assert(gap == off * q) by {
                vstd::arithmetic::div_mod::lemma_fundamental_div_mod(gap, off);
            }
            vstd::arithmetic::div_mod::lemma_mod_multiples_vanish(q, i - gap - from, off);
            assert(off * q + (i - gap - from) == i - from);
        }
    }
}

/// Writes the first eight bytes of a match whose distance is 1 to 7, and
/// returns where the rest of the copy goes on from: a whole number of periods,
/// and at least eight bytes, behind.
#[verifier::rlimit(30)]
pub fn short_offset_prologue(buf: &mut [u8], dst_at: usize, match_at: usize, offset: usize) -> (s: usize)
    requires
        1 <= offset < 8,
        match_at + offset == dst_at,
        dst_at + 8 <= old(buf).len(),
    ensures
        same_outside(final(buf)@, old(buf)@, dst_at as int, dst_at + 8),
        periodic(
            final(buf)@,
            match_at as int,
            dst_at + 8,
            offset as int,
            old(buf)@.subrange(match_at as int, dst_at as int),
        ),
        match_at <= s <= dst_at,
        (dst_at + 8 - s) % (offset as int) == 0,
{
    let ghost b0 = buf@;
    let ghost pat = b0.subrange(match_at as int, dst_at as int);
    let mut i: usize = 0;
    while i < 4
        invariant
            0 <= i <= 4,
            1 <= offset < 8,
            match_at + offset == dst_at,
            dst_at + 8 <= buf.len(),
            same_outside(buf@, b0, dst_at as int, dst_at + i),
            forall|k: int| dst_at <= k < dst_at + i ==> #[trigger] echoes(buf@, k, offset as int),
        decreases 4 - i,
    {
        let ghost b1 = buf@;
        let v = buf[match_at + i];
        buf[dst_at + i] = v;
        assert forall|k: int| dst_at <= k < dst_at + i + 1 implies #[trigger] echoes(
            buf@,
            k,
            offset as int,
        ) by {
            if k < dst_at + i {
                assert(echoes(b1, k, offset as int));
            }
        }
        i = i + 1;
    }
    let src = match_at + INC32_TABLE[offset];
    let ghost b2 = buf@;
    assert(echoes(b2, dst_at as int, offset as int));
    assert(echoes(b2, dst_at + 1, offset as int));
    assert(echoes(b2, dst_at + 2, offset as int));
    assert(echoes(b2, dst_at + 3, offset as int));
    copy_within(buf, src, dst_at + 4, 4);
    let ghost b3 = buf@;
    assert forall|k: int| match_at <= k < dst_at + 8 implies #[trigger] b3[k] == pat[(k - match_at)
        % (offset as int)] by {
        let m = match_at as int;
        assert(b2[m] == b0[m]);
        assert(offset >= 2 ==> b2[m + 1] == b0[m + 1]);
        assert(offset >= 3 ==> b2[m + 2] == b0[m + 2]);
        assert(offset >= 4 ==> b2[m + 3] == b0[m + 3]);
        assert(offset >= 5 ==> b2[m + 4] == b0[m + 4]);
        assert(offset >= 6 ==> b2[m + 5] == b0[m + 5]);
        assert(offset >= 7 ==> b2[m + 6] == b0[m + 6]);
        if offset == 1 {
        } else if offset == 2 {
        } else if offset == 3 {
        } else if offset == 4 {
        } else if offset == 5 {
        } else if offset == 6 {
        } else {
        }
    }
    src + DEC64_ADD[offset] - DEC64_SUB[offset]
}

/// Copies a match of `len` bytes from `match_at` to `dst_at`.
pub fn copy_match(buf: &mut [u8], dst_at: usize, match_at: usize, len: usize)
    requires
        match_at <= dst_at,
        dst_at + len <= old(buf).len(),
    ensures
        same_outside(final(buf)@, old(buf)@, dst_at as int, dst_at + len),
        match_at == dst_at ==> final(buf)@ == old(buf)@,
        match_at < dst_at ==> forall|i: int|
            dst_at <= i < dst_at + len ==> #[trigger] echoes(
                final(buf)@,
                i,
                dst_at - match_at,
            ),
{
    let offset = dst_at - match_at;
    // A match of distance zero repeats each byte onto itself.
    if offset == 0 || len == 0 {
        return;
    }
    let ghost b0 = buf@;
    if offset >= len {
        copy_within(buf, match_at, dst_at, len);
        assert forall|i: int| dst_at <= i < dst_at + len implies #[trigger] echoes(
            buf@,
            i,
            offset as int,
        ) by {
            assert(buf@[i] == b0[i - offset]);
            assert(buf@[i - offset] == b0[i - offset]);
        }
        return;
    }
    let ghost pat = b0.subrange(match_at as int, dst_at as int);
    assert(periodic(b0, match_at as int, dst_at as int, offset as int, pat)) by {
        assert forall|i: int| match_at <= i < dst_at implies #[trigger] b0[i] == pat[(i - match_at)
            % (offset as int)] by {
            lemma_small_mod((i - match_at) as nat, offset as nat);
        }
    }
    copy_within(buf, match_at, dst_at, offset);
    assert((offset as int) % (offset as int) == 0) by {
        vstd::arithmetic::div_mod::lemma_mod_self_0(offset as int);
    }
    proof {
        lemma_periodic_extend(
            b0,
            buf@,
            match_at as int,
            dst_at as int,
            offset as int,
            offset as int,
            offset as int,
            pat,
        );
    }
    let mut filled = offset;
    while filled < len
        invariant
            0 < offset <= filled <= len,
            filled < len ==> filled as int % offset as int == 0,
            match_at + offset == dst_at,
            dst_at + len <= buf.len(),
            pat.len() == offset,
            same_outside(buf@, b0, dst_at as int, dst_at + filled),
            periodic(buf@, match_at as int, dst_at + filled, offset as int, pat),
        decreases len - filled,
    {
        let n = if filled < len - filled {
            filled
        } else {
            len - filled
        };
        let ghost b1 = buf@;
        copy_within(buf, dst_at, dst_at + filled, n);
        proof {
            lemma_periodic_extend(
                b1,
                buf@,
                match_at as int,
                dst_at + filled,
                filled as int,
                n as int,
                offset as int,
                pat,
            );
            if n == filled {
                vstd::arithmetic::div_mod::lemma_add_mod_noop(
                    filled as int,
                    filled as int,
                    offset as int,
                );
                lemma_small_mod(0, offset as nat);
            }
        }
        filled = filled + n;
    }
    proof {
        lemma_periodic_echoes(buf@, match_at as int, dst_at + len, offset as int, pat);
    }
}

/// `copy_match` where there are at least eight bytes of room behind the match:
/// a short match may overshoot its end by up to seven bytes.
pub fn copy_match_wild(buf: &mut [u8], dst_at: usize, match_at: usize, len: usize)
    requires
        match_at <= dst_at,
        dst_at + len + 8 <= old(buf).len(),
    ensures
        same_outside(final(buf)@, old(buf)@, dst_at as int, dst_at + len + 8),
        match_at < dst_at ==> forall|i: int|
            dst_at <= i < dst_at + len ==> #[trigger] echoes(
                final(buf)@,
                i,
                dst_at - match_at,
            ),
{
    let offset = dst_at - match_at;
    if offset == 0 || len == 0 {
        return;
    }
    if len >= WILD_COPY_CUTOFF {
        copy_match(buf, dst_at, match_at, len);
        return;
    }
    let ghost b0 = buf@;
    let ghost pat = b0.subrange(match_at as int, dst_at as int);
    assert(periodic(b0, match_at as int, dst_at as int, offset as int, pat)) by {
        assert forall|i: int| match_at <= i < dst_at implies #[trigger] b0[i] == pat[(i - match_at)
            % (offset as int)] by {
            lemma_small_mod((i - match_at) as nat, offset as nat);
        }
    }
    assert((offset as int) % (offset as int) == 0) by {
        vstd::arithmetic::div_mod::lemma_mod_self_0(offset as int);
    }
    let end = dst_at + len;
    let mut d = dst_at;
    let mut s = match_at;
    if offset < 8 {
        s = short_offset_prologue(buf, dst_at, match_at, offset);
        d = dst_at + 8;
        if d >= end {
            proof {
                lemma_periodic_echoes(buf@, match_at as int, d as int, offset as int, pat);
            }
            return;
        }
    }
    loop
        invariant_except_break
            d < end,
        invariant
            dst_at <= d < end + 8,
            end == dst_at + len,
            match_at <= s,
            s + 8 <= d,
            (d - s) % (offset as int) == 0,
            0 < offset,
            match_at + offset == dst_at,
            dst_at + len + 8 <= buf.len(),
            pat.len() == offset,
            same_outside(buf@, b0, dst_at as int, d as int),
            periodic(buf@, match_at as int, d as int, offset as int, pat),
        ensures
            end <= d,
        decreases end + 8 - d,
    {
        let ghost b1 = buf@;
        copy8(buf, d, s);
        proof {
            lemma_periodic_extend(b1, buf@, match_at as int, d as int, d - s, 8, offset as int, pat);
        }
        d = d + 8;
        s = s + 8;
        if d >= end {
            break;
        }
    }
    proof {
        lemma_periodic_echoes(buf@, match_at as int, d as int, offset as int, pat);
    }
}

} // verus!
