//! Every bit of the input counts: hashes of inputs that differ in a single byte,
//! or in a single word, differ.
use vstd::prelude::*;
use crate::bytes::{le32, le64};
use super::{
    avalanche32, avalanche64, lanes32, lanes64, lemma_lanes32_local, lemma_lanes64_local, merge32,
    merge64, mix1, mix4, mix8, rotl32_spec, rotl64_spec, round32, round64, stripe32, stripe64,
    tail32, tail64, xxh32_spec, xxh64_spec, Lanes32, Lanes64, Xxh64State, PRIME32_1, PRIME32_2,
    PRIME32_3, PRIME32_4, PRIME32_5, PRIME64_1, PRIME64_2, PRIME64_3, PRIME64_4, PRIME64_5,
};

verus! {

/// Whether `a` and `b` differ, but only within `[from, to)`.
pub open spec fn differ_within(a: Seq<u8>, b: Seq<u8>, from: int, to: int) -> bool {
    &&& a.len() == b.len()
    &&& 0 <= from <= to <= a.len()
    &&& a != b
    &&& forall|i: int| 0 <= i < a.len() && !(from <= i < to) ==> #[trigger] a[i] == b[i]
}

/// Whether `[from, to)` is a byte, or a word of `size` bytes at a multiple of
/// its size.
pub open spec fn one_word(from: int, to: int, size: int) -> bool {
    to == from + 1 || (to == from + size && from % size == 0)
}

// ---------------------------------------------------------------------------
// Steps that lose nothing
// ---------------------------------------------------------------------------

/// Multiplying by a number that has an inverse loses nothing.
proof fn lemma_times(a: int, b: int, p: int, inv: int, m: int)
    requires
        0 <= a < m,
        0 <= b < m,
        (p * inv) % m == 1,
        (a * p) % m == (b * p) % m,
    ensures
        a == b,
{
    lemma_undo(a, p, inv, m);
    lemma_undo(b, p, inv, m);
}

proof fn lemma_undo(a: int, p: int, inv: int, m: int)
    requires
        0 <= a < m,
        (p * inv) % m == 1,
    ensures
        (((a * p) % m) * inv) % m == a,
{
    vstd::arithmetic::div_mod::lemma_mul_mod_noop_left(a * p, inv, m);
    vstd::arithmetic::mul::lemma_mul_is_associative(a, p, inv);
    vstd::arithmetic::div_mod::lemma_mul_mod_noop_right(a, p * inv, m);
    vstd::arithmetic::div_mod::lemma_small_mod(a as nat, m as nat);
}

proof fn lemma_times32(a: u32, b: u32, p: u32)
    requires
        p == PRIME32_1 || p == PRIME32_2 || p == PRIME32_3 || p == PRIME32_4 || p == PRIME32_5,
        a != b,
    ensures
        a.wrapping_mul(p) != b.wrapping_mul(p),
{
    let m = 0x1_0000_0000int;
    let inv: int = if p == PRIME32_1 {
        244002641
    } else if p == PRIME32_2 {
        3066638151
    } else if p == PRIME32_3 {
        2828982549
    } else if p == PRIME32_4 {
        2701016015
    } else {
        2923004241
    };
    assert((p * inv) % m == 1);
    if a.wrapping_mul(p) == b.wrapping_mul(p) {
        lemma_times(a as int, b as int, p as int, inv, m);
    }
}

proof fn lemma_times64(a: u64, b: u64, p: u64)
    requires
        p == PRIME64_1 || p == PRIME64_2 || p == PRIME64_3 || p == PRIME64_4 || p == PRIME64_5,
        a != b,
    ensures
        a.wrapping_mul(p) != b.wrapping_mul(p),
{
    let m = 0x1_0000_0000_0000_0000int;
    let inv: int = if p == PRIME64_1 {
        614540362697595703
    } else if p == PRIME64_2 {
        839798700976720815
    } else if p == PRIME64_3 {
        16855272203555305545
    } else if p == PRIME64_4 {
        15596783062780822347
    } else {
        14236653164957433613
    };
    assert((p * inv) % m == 1);
    if a.wrapping_mul(p) == b.wrapping_mul(p) {
        lemma_times(a as int, b as int, p as int, inv, m);
    }
}

proof fn lemma_turn32(x: u32, y: u32, r: u32)
    requires
        x != y,
        0 < r < 32,
    ensures
        rotl32_spec(x, r) != rotl32_spec(y, r),
{
    let s = (32 - r) as u32;
    assert(x != y && 0 < r < 32 && s == 32 - r ==> (x << r) | (x >> s) != (y << r) | (y >> s))
        by (bit_vector);
}

proof fn lemma_turn64(x: u64, y: u64, r: u64)
    requires
        x != y,
        0 < r < 64,
    ensures
        rotl64_spec(x, r) != rotl64_spec(y, r),
{
    let s = (64 - r) as u64;
    assert(x != y && 0 < r < 64 && s == 64 - r ==> (x << r) | (x >> s) != (y << r) | (y >> s))
        by (bit_vector);
}

proof fn lemma_round32(h: u32, g: u32, x: u32, y: u32)
    requires
        (h == g) != (x == y),
    ensures
        round32(h, x) != round32(g, y),
{
    if x != y {
        lemma_times32(x, y, PRIME32_2);
    }
    let a = h.wrapping_add(x.wrapping_mul(PRIME32_2));
    let b = g.wrapping_add(y.wrapping_mul(PRIME32_2));
    assert(a != b);
    lemma_turn32(a, b, 13);
    lemma_times32(rotl32_spec(a, 13), rotl32_spec(b, 13), PRIME32_1);
}

proof fn lemma_round64(h: u64, g: u64, x: u64, y: u64)
    requires
        (h == g) != (x == y),
    ensures
        round64(h, x) != round64(g, y),
{
    if x != y {
        lemma_times64(x, y, PRIME64_2);
    }
    let a = h.wrapping_add(x.wrapping_mul(PRIME64_2));
    let b = g.wrapping_add(y.wrapping_mul(PRIME64_2));
    assert(a != b);
    lemma_turn64(a, b, 31);
    lemma_times64(rotl64_spec(a, 31), rotl64_spec(b, 31), PRIME64_1);
}

proof fn lemma_avalanche32(h: u32, g: u32)
    requires
        h != g,
    ensures
        avalanche32(h) != avalanche32(g),
{
    assert(h != g ==> h ^ (h >> 15u32) != g ^ (g >> 15u32)) by (bit_vector);
    let (h1, g1) = (h ^ (h >> 15u32), g ^ (g >> 15u32));
    lemma_times32(h1, g1, PRIME32_2);
    let (h2, g2) = (h1.wrapping_mul(PRIME32_2), g1.wrapping_mul(PRIME32_2));
    assert(h2 != g2 ==> h2 ^ (h2 >> 13u32) != g2 ^ (g2 >> 13u32)) by (bit_vector);
    let (h3, g3) = (h2 ^ (h2 >> 13u32), g2 ^ (g2 >> 13u32));
    lemma_times32(h3, g3, PRIME32_3);
    let (h4, g4) = (h3.wrapping_mul(PRIME32_3), g3.wrapping_mul(PRIME32_3));
    assert(h4 != g4 ==> h4 ^ (h4 >> 16u32) != g4 ^ (g4 >> 16u32)) by (bit_vector);
}

proof fn lemma_avalanche64(h: u64, g: u64)
    requires
        h != g,
    ensures
        avalanche64(h) != avalanche64(g),
{
    assert(h != g ==> h ^ (h >> 33u64) != g ^ (g >> 33u64)) by (bit_vector);
    let (h1, g1) = (h ^ (h >> 33u64), g ^ (g >> 33u64));
    lemma_times64(h1, g1, PRIME64_2);
    let (h2, g2) = (h1.wrapping_mul(PRIME64_2), g1.wrapping_mul(PRIME64_2));
    assert(h2 != g2 ==> h2 ^ (h2 >> 29u64) != g2 ^ (g2 >> 29u64)) by (bit_vector);
    let (h3, g3) = (h2 ^ (h2 >> 29u64), g2 ^ (g2 >> 29u64));
    lemma_times64(h3, g3, PRIME64_3);
    let (h4, g4) = (h3.wrapping_mul(PRIME64_3), g3.wrapping_mul(PRIME64_3));
    assert(h4 != g4 ==> h4 ^ (h4 >> 32u64) != g4 ^ (g4 >> 32u64)) by (bit_vector);
}

proof fn lemma_digits(a0: int, a1: int, a2: int, a3: int, b0: int, b1: int, b2: int, b3: int)
    requires
        0 <= a0 < 256 && 0 <= a1 < 256 && 0 <= a2 < 256 && 0 <= a3 < 256,
        0 <= b0 < 256 && 0 <= b1 < 256 && 0 <= b2 < 256 && 0 <= b3 < 256,
        a0 + 0x100 * a1 + 0x1_0000 * a2 + 0x100_0000 * a3 == b0 + 0x100 * b1 + 0x1_0000 * b2
            + 0x100_0000 * b3,
    ensures
        a0 == b0 && a1 == b1 && a2 == b2 && a3 == b3,
{
    assert(a3 == b3);
    assert(a2 == b2);
    assert(a1 == b1);
}

/// Words of different bytes differ.
proof fn lemma_words(a: Seq<u8>, b: Seq<u8>, at: int)
    ensures
        a[at] != b[at] || a[at + 1] != b[at + 1] || a[at + 2] != b[at + 2] || a[at + 3] != b[at + 3]
            ==> le32(a, at) != le32(b, at),
{
    if le32(a, at) == le32(b, at) {
        lemma_digits(
            a[at] as int,
            a[at + 1] as int,
            a[at + 2] as int,
            a[at + 3] as int,
            b[at] as int,
            b[at + 1] as int,
            b[at + 2] as int,
            b[at + 3] as int,
        );
    }
}

proof fn lemma_joined(p: u32, q: u32, r: u32, t: u32)
    ensures
        p != r || q != t ==> (p + 0x1_0000_0000 * q) as u64 != (r + 0x1_0000_0000 * t) as u64,
{
}

proof fn lemma_long_words(a: Seq<u8>, b: Seq<u8>, at: int)
    ensures
        le32(a, at) != le32(b, at) || le32(a, at + 4) != le32(b, at + 4) ==> le64(a, at) != le64(
            b,
            at,
        ),
{
    lemma_joined(le32(a, at), le32(a, at + 4), le32(b, at), le32(b, at + 4));
}

proof fn lemma_same_words(a: Seq<u8>, b: Seq<u8>, at: int)
    requires
        forall|i: int| at <= i < at + 8 ==> #[trigger] a[i] == b[i],
    ensures
        le32(a, at) == le32(b, at),
        le64(a, at) == le64(b, at),
{
    assert(a[at] == b[at] && a[at + 1] == b[at + 1] && a[at + 2] == b[at + 2] && a[at + 3] == b[at
        + 3] && a[at + 4] == b[at + 4] && a[at + 5] == b[at + 5] && a[at + 6] == b[at + 6] && a[at
        + 7] == b[at + 7]);
}

proof fn lemma_same_word32(a: Seq<u8>, b: Seq<u8>, at: int)
    requires
        forall|i: int| at <= i < at + 4 ==> #[trigger] a[i] == b[i],
    ensures
        le32(a, at) == le32(b, at),
{
    assert(a[at] == b[at] && a[at + 1] == b[at + 1] && a[at + 2] == b[at + 2] && a[at + 3] == b[at
        + 3]);
}

// ---------------------------------------------------------------------------
// The 32-bit hash
// ---------------------------------------------------------------------------

spec fn lane32(l: Lanes32, j: int) -> u32 {
    if j == 0 {
        l.v1
    } else if j == 1 {
        l.v2
    } else if j == 2 {
        l.v3
    } else {
        l.v4
    }
}

/// Whether two sets of running values differ in one of them, the one given.
spec fn apart32(l: Lanes32, m: Lanes32, j: int) -> bool {
    &&& 0 <= j < 4
    &&& (l.v1 != m.v1) == (j == 0)
    &&& (l.v2 != m.v2) == (j == 1)
    &&& (l.v3 != m.v3) == (j == 2)
    &&& (l.v4 != m.v4) == (j == 3)
}

/// A stripe in which one word differs tells running values apart, and keeps
/// those apart that are.
proof fn lemma_stripe32_apart(l: Lanes32, m: Lanes32, a: Seq<u8>, b: Seq<u8>, at: int, j: int)
    requires
        0 <= j < 4,
        ({
            let same = forall|i: int| at <= i < at + 16 ==> #[trigger] a[i] == b[i];
            let w = at + 4 * j;
            ||| apart32(l, m, j) && same
            ||| {
                &&& l == m
                &&& !same
                &&& forall|i: int|
                    at <= i < at + 16 && !(w <= i < w + 4) ==> #[trigger] a[i] == b[i]
            }
        }),
    ensures
        apart32(stripe32(l, a, at), stripe32(m, b, at), j),
{
    reveal(stripe32);
    let same = forall|i: int| at <= i < at + 16 ==> #[trigger] a[i] == b[i];
    let w = at + 4 * j;
    if same {
        lemma_same_word32(a, b, at);
        lemma_same_word32(a, b, at + 4);
        lemma_same_word32(a, b, at + 8);
        lemma_same_word32(a, b, at + 12);
        lemma_round32(lane32(l, j), lane32(m, j), le32(a, w), le32(b, w));
    } else {
        let k = choose|k: int| at <= k < at + 16 && #[trigger] a[k] != b[k];
        assert(w <= k < w + 4);
        assert(k == w || k == w + 1 || k == w + 2 || k == w + 3);
        lemma_words(a, b, w);
        if j != 0 {
            lemma_same_word32(a, b, at);
        }
        if j != 1 {
            lemma_same_word32(a, b, at + 4);
        }
        if j != 2 {
            lemma_same_word32(a, b, at + 8);
        }
        if j != 3 {
            lemma_same_word32(a, b, at + 12);
        }
        lemma_round32(lane32(l, j), lane32(m, j), le32(a, w), le32(b, w));
    }
}

proof fn lemma_lanes32_apart(a: Seq<u8>, b: Seq<u8>, seed: u32, n: nat, w: int)
    requires
        differ_within(a, b, w, w + 4),
        w % 4 == 0,
        w < 16 * n <= a.len(),
    ensures
        apart32(lanes32(a, seed, n), lanes32(b, seed, n), w % 16 / 4),
    decreases n,
{
    let at = 16 * (n - 1);
    let m = (n - 1) as nat;
    let j = w % 16 / 4;
    if w < at {
        lemma_lanes32_apart(a, b, seed, m, w);
        assert(w + 4 <= at);
    } else {
        lemma_lanes32_local(a, b, seed, m);
        assert(w == at + 4 * j);
        let k = choose|k: int| 0 <= k < a.len() && a[k] != b[k];
        assert(exists|k: int| 0 <= k < a.len() && a[k] != b[k]) by {
            if forall|k: int| 0 <= k < a.len() ==> a[k] == b[k] {
                assert(a =~= b);
            }
        }
        assert(w <= k < w + 4 && a[k] != b[k]);
    }
    lemma_stripe32_apart(lanes32(a, seed, m), lanes32(b, seed, m), a, b, at, j);
}

proof fn lemma_merge32(l: Lanes32, m: Lanes32, j: int)
    requires
        apart32(l, m, j),
    ensures
        merge32(l) != merge32(m),
{
    let r: u32 = if j == 0 {
        1
    } else if j == 1 {
        7
    } else if j == 2 {
        12
    } else {
        18
    };
    lemma_turn32(lane32(l, j), lane32(m, j), r);
}

/// The hash once four more bytes are mixed in.
#[verifier::opaque]
spec fn mixed4(h: u32, v: u32) -> u32 {
    rotl32_spec(h.wrapping_add(v.wrapping_mul(PRIME32_3)), 17).wrapping_mul(PRIME32_4)
}

/// The hash once one more byte is mixed in.
#[verifier::opaque]
spec fn mixed1(h: u32, v: u8) -> u32 {
    rotl32_spec(h.wrapping_add((v as u32).wrapping_mul(PRIME32_5)), 11).wrapping_mul(PRIME32_1)
}

proof fn lemma_mixed4(h: u32, g: u32, v: u32, w: u32)
    requires
        (h == g) != (v == w),
    ensures
        mixed4(h, v) != mixed4(g, w),
{
    reveal(mixed4);
    let (x, y) = (v.wrapping_mul(PRIME32_3), w.wrapping_mul(PRIME32_3));
    if v != w {
        lemma_times32(v, w, PRIME32_3);
    }
    let (a, b) = (h.wrapping_add(x), g.wrapping_add(y));
    assert(a != b);
    lemma_turn32(a, b, 17);
    lemma_times32(rotl32_spec(a, 17), rotl32_spec(b, 17), PRIME32_4);
}

proof fn lemma_mixed1(h: u32, g: u32, v: u8, w: u8)
    requires
        (h == g) != (v == w),
    ensures
        mixed1(h, v) != mixed1(g, w),
{
    reveal(mixed1);
    let (x, y) = ((v as u32).wrapping_mul(PRIME32_5), (w as u32).wrapping_mul(PRIME32_5));
    if v != w {
        lemma_times32(v as u32, w as u32, PRIME32_5);
    }
    let (a, b) = (h.wrapping_add(x), g.wrapping_add(y));
    assert(a != b);
    lemma_turn32(a, b, 11);
    lemma_times32(rotl32_spec(a, 11), rotl32_spec(b, 11), PRIME32_1);
}

/// The four bytes at `at` as a number.
#[verifier::opaque]
spec fn word(x: Seq<u8>, at: int) -> u32 {
    le32(x, at)
}

/// The hash of a tail, from `at` on.
#[verifier::opaque]
spec fn rest32(h: u32, x: Seq<u8>, at: int) -> u32 {
    tail32(h, x, at)
}

proof fn lemma_rest32_step(h: u32, x: Seq<u8>, at: int)
    requires
        at < x.len(),
    ensures
        rest32(h, x, at) == if at + 4 <= x.len() {
            rest32(mixed4(h, word(x, at)), x, at + 4)
        } else {
            rest32(mixed1(h, x[at]), x, at + 1)
        },
{
    reveal(mixed4);
    reveal(mixed1);
    reveal(word);
    reveal(rest32);
}

proof fn lemma_rest32_end(h: u32, g: u32, x: Seq<u8>, y: Seq<u8>, at: int)
    requires
        h != g,
        at == x.len(),
        at == y.len(),
    ensures
        rest32(h, x, at) != rest32(g, y, at),
{
    reveal(rest32);
    lemma_avalanche32(h, g);
}

/// A word in which a byte differs, and one in which none does.
proof fn lemma_word(a: Seq<u8>, b: Seq<u8>, w: int)
    ensures
        forall|k: int| w <= k < w + 4 && #[trigger] a[k] != b[k] ==> word(a, w) != word(b, w),
        (forall|k: int| w <= k < w + 4 ==> #[trigger] a[k] == b[k]) ==> word(a, w) == word(b, w),
{
    reveal(word);
    lemma_words(a, b, w);
    assert forall|k: int| w <= k < w + 4 && #[trigger] a[k] != b[k] implies word(a, w) != word(
        b,
        w,
    ) by {
        assert(k == w || k == w + 1 || k == w + 2 || k == w + 3);
    }
    if forall|k: int| w <= k < w + 4 ==> #[trigger] a[k] == b[k] {
        lemma_same_word32(a, b, w);
    }
}

/// A word at a multiple of four, or a byte, does not reach past the next one.
proof fn lemma_aligned(at: int, from: int, to: int)
    requires
        at % 4 == 0,
        at <= from < at + 4,
        one_word(from, to, 4),
    ensures
        to <= at + 4,
{
}

/// Mixing in equal bytes keeps apart what is; mixing in bytes that differ in one
/// place tells apart what is not.
proof fn lemma_rest32(h: u32, g: u32, x: Seq<u8>, y: Seq<u8>, at: int, from: int, to: int, k: int)
    requires
        0 <= at <= x.len(),
        at % 4 == 0 || at + 4 > x.len(),
        x.len() == y.len(),
        ({
            ||| h != g && forall|i: int| at <= i < x.len() ==> #[trigger] x[i] == y[i]
            ||| {
                &&& h == g
                &&& at <= from <= k < to <= x.len()
                &&& one_word(from, to, 4)
                &&& x[k] != y[k]
                &&& forall|i: int|
                    at <= i < x.len() && !(from <= i < to) ==> #[trigger] x[i] == y[i]
            }
        }),
    ensures
        rest32(h, x, at) != rest32(g, y, at),
    decreases x.len() - at,
{
    if at < x.len() {
        lemma_rest32_step(h, x, at);
        lemma_rest32_step(g, y, at);
    }
    if at + 4 <= x.len() {
        let (v, w) = (word(x, at), word(y, at));
        lemma_word(x, y, at);
        if h == g && from < at + 4 {
            lemma_aligned(at, from, to);
        }
        if h != g || v != w {
            lemma_mixed4(h, g, v, w);
        }
        lemma_rest32(mixed4(h, v), mixed4(g, w), x, y, at + 4, from, to, k);
    } else if at < x.len() {
        if h != g || x[at] != y[at] {
            lemma_mixed1(h, g, x[at], y[at]);
        }
        lemma_rest32(mixed1(h, x[at]), mixed1(g, y[at]), x, y, at + 1, from, to, k);
    } else {
        lemma_rest32_end(h, g, x, y, at);
    }
}

proof fn lemma_differs(a: Seq<u8>, b: Seq<u8>, from: int, to: int) -> (k: int)
    requires
        differ_within(a, b, from, to),
    ensures
        from <= k < to,
        a[k] != b[k],
{
    if forall|k: int| 0 <= k < a.len() ==> a[k] == b[k] {
        assert(a =~= b);
    }
    choose|k: int| 0 <= k < a.len() && a[k] != b[k]
}

/// The hash of a state before the last bytes are mixed in.
#[verifier::opaque]
spec fn head32(data: Seq<u8>, seed: u32) -> u32 {
    (if data.len() >= 16 {
        merge32(lanes32(data, seed, data.len() / 16))
    } else {
        seed.wrapping_add(PRIME32_5)
    }).wrapping_add((data.len() % 0x1_0000_0000) as u32)
}

proof fn lemma_head32(a: Seq<u8>, b: Seq<u8>, w: int, seed: u32)
    requires
        differ_within(a, b, w, w + 4),
        w % 4 == 0,
        w < 16 * (a.len() / 16),
    ensures
        head32(a, seed) != head32(b, seed),
{
    reveal(head32);
    let n = a.len() / 16;
    lemma_lanes32_apart(a, b, seed, n, w);
    lemma_merge32(lanes32(a, seed, n), lanes32(b, seed, n), w % 16 / 4);
}

proof fn lemma_heads_alike(a: Seq<u8>, b: Seq<u8>, seed: u32)
    requires
        a.len() == b.len(),
        forall|i: int| 0 <= i < 16 * (a.len() / 16) ==> #[trigger] a[i] == b[i],
    ensures
        head32(a, seed) == head32(b, seed),
{
    reveal(head32);
    lemma_lanes32_local(a, b, seed, a.len() / 16);
}

/// A hash is that of its head and its tail.
proof fn lemma_xxh32_parts(a: Seq<u8>, seed: u32)
    ensures
        xxh32_spec(a, seed) == rest32(head32(a, seed), a.skip(16 * (a.len() / 16) as int), 0),
{
    reveal(head32);
    reveal(rest32);
}

/// The word that holds a byte, or one that is given, and where it is behind `n`
/// stripes.
proof fn lemma_short_word_of(from: int, to: int, n: int)
    requires
        0 <= from,
        one_word(from, to, 4),
    ensures
        ({
            let w = from - from % 4;
            &&& 0 <= w <= from
            &&& to <= w + 4
            &&& w % 4 == 0
            &&& from < 16 * n ==> w + 4 <= 16 * n
        }),
        one_word(from - 16 * n, to - 16 * n, 4),
{
}

proof fn lemma_parts32(a: Seq<u8>, b: Seq<u8>, from: int, to: int, seed: u32, n: int)
    requires
        differ_within(a, b, from, to),
        one_word(from, to, 4),
        n == a.len() / 16,
    ensures
        rest32(head32(a, seed), a.skip(16 * n), 0) != rest32(head32(b, seed), b.skip(16 * n), 0),
{
    let (x, y) = (a.skip(16 * n), b.skip(16 * n));
    let k = lemma_differs(a, b, from, to);
    let (h, g) = (head32(a, seed), head32(b, seed));
    lemma_short_word_of(from, to, n);
    assert(forall|i: int| 0 <= i < x.len() ==> #[trigger] x[i] == a[16 * n + i]);
    assert(forall|i: int| 0 <= i < y.len() ==> #[trigger] y[i] == b[16 * n + i]);
    if from < 16 * n {
        let w = from - from % 4;
        assert(differ_within(a, b, w, w + 4));
        lemma_head32(a, b, w, seed);
        lemma_rest32(h, g, x, y, 0, 0, 0, 0);
    } else {
        lemma_heads_alike(a, b, seed);
        assert(x[k - 16 * n] != y[k - 16 * n]);
        lemma_rest32(h, g, x, y, 0, from - 16 * n, to - 16 * n, k - 16 * n);
    }
}

/// The 32-bit hash depends on every bit of its input: inputs of one length that
/// differ in one byte, or in one word at a multiple of four, have different
/// hashes.
pub proof fn law_xxh32_sees_every_word(a: Seq<u8>, b: Seq<u8>, from: int, to: int, seed: u32)
    requires
        differ_within(a, b, from, to),
        one_word(from, to, 4),
    ensures
        xxh32_spec(a, seed) != xxh32_spec(b, seed),
{
    lemma_xxh32_parts(a, seed);
    lemma_xxh32_parts(b, seed);
    lemma_parts32(a, b, from, to, seed, (a.len() / 16) as int);
}

// ---------------------------------------------------------------------------
// The 64-bit hash
// ---------------------------------------------------------------------------

spec fn lane64(l: Lanes64, j: int) -> u64 {
    if j == 0 {
        l.v1
    } else if j == 1 {
        l.v2
    } else if j == 2 {
        l.v3
    } else {
        l.v4
    }
}

/// Whether two sets of running values differ in one of them, the one given.
pub open spec fn apart64(l: Lanes64, m: Lanes64, j: int) -> bool {
    &&& 0 <= j < 4
    &&& (l.v1 != m.v1) == (j == 0)
    &&& (l.v2 != m.v2) == (j == 1)
    &&& (l.v3 != m.v3) == (j == 2)
    &&& (l.v4 != m.v4) == (j == 3)
}

/// A long word in which a byte differs.
proof fn lemma_long_differs(a: Seq<u8>, b: Seq<u8>, w: int, k: int)
    requires
        w <= k < w + 8,
        a[k] != b[k],
    ensures
        le64(a, w) != le64(b, w),
{
    lemma_words(a, b, w);
    lemma_words(a, b, w + 4);
    lemma_long_words(a, b, w);
    assert(k == w || k == w + 1 || k == w + 2 || k == w + 3 || k == w + 4 || k == w + 5 || k == w
        + 6 || k == w + 7);
}

proof fn lemma_stripe64_apart(l: Lanes64, m: Lanes64, a: Seq<u8>, b: Seq<u8>, at: int, j: int)
    requires
        0 <= j < 4,
        ({
            let same = forall|i: int| at <= i < at + 32 ==> #[trigger] a[i] == b[i];
            let w = at + 8 * j;
            ||| apart64(l, m, j) && same
            ||| {
                &&& l == m
                &&& !same
                &&& forall|i: int|
                    at <= i < at + 32 && !(w <= i < w + 8) ==> #[trigger] a[i] == b[i]
            }
        }),
    ensures
        apart64(stripe64(l, a, at), stripe64(m, b, at), j),
{
    reveal(stripe64);
    let same = forall|i: int| at <= i < at + 32 ==> #[trigger] a[i] == b[i];
    let w = at + 8 * j;
    if j != 0 || same {
        lemma_same_words(a, b, at);
    }
    if j != 1 || same {
        lemma_same_words(a, b, at + 8);
    }
    if j != 2 || same {
        lemma_same_words(a, b, at + 16);
    }
    if j != 3 || same {
        lemma_same_words(a, b, at + 24);
    }
    if !same {
        let k = choose|k: int| at <= k < at + 32 && #[trigger] a[k] != b[k];
        assert(w <= k < w + 8);
        lemma_long_differs(a, b, w, k);
    }
    lemma_round64(lane64(l, j), lane64(m, j), le64(a, w), le64(b, w));
}

/// Running values after `n` stripes, where the word that differs is the `j`th of
/// stripe `i`.
proof fn lemma_lanes64_apart(a: Seq<u8>, b: Seq<u8>, seed: u64, n: nat, i: int, j: int)
    requires
        differ_within(a, b, 32 * i + 8 * j, 32 * i + 8 * j + 8),
        0 <= i < n,
        0 <= j < 4,
        32 * n <= a.len(),
    ensures
        apart64(lanes64(a, seed, n), lanes64(b, seed, n), j),
    decreases n,
{
    let at = 32 * (n - 1);
    let m = (n - 1) as nat;
    if i < n - 1 {
        lemma_lanes64_apart(a, b, seed, m, i, j);
    } else {
        lemma_lanes64_local(a, b, seed, m);
        let k = lemma_differs(a, b, 32 * i + 8 * j, 32 * i + 8 * j + 8);
        assert(at <= k < at + 32 && a[k] != b[k]);
    }
    lemma_stripe64_apart(lanes64(a, seed, m), lanes64(b, seed, m), a, b, at, j);
}

/// The word that holds a byte, or one that is given.
proof fn lemma_word_of(from: int, to: int)
    requires
        0 <= from,
        one_word(from, to, 8),
    ensures
        0 <= from / 32,
        0 <= from % 32 / 8 < 4,
        32 * (from / 32) + 8 * (from % 32 / 8) <= from,
        to <= 32 * (from / 32) + 8 * (from % 32 / 8) + 8,
{
}

/// Mixing keeps apart what is, and tells apart what is not.
proof fn lemma_mix8(h: u64, g: u64, v: u64, w: u64)
    requires
        (h == g) != (v == w),
    ensures
        mix8(h, v) != mix8(g, w),
{
    let (x, y) = (round64(0, v), round64(0, w));
    if v != w {
        lemma_round64(0, 0, v, w);
    }
    assert((h == g) != (x == y) ==> h ^ x != g ^ y) by (bit_vector);
    lemma_turn64(h ^ x, g ^ y, 27);
    lemma_times64(rotl64_spec(h ^ x, 27), rotl64_spec(g ^ y, 27), PRIME64_1);
}

proof fn lemma_mix4(h: u64, g: u64, v: u32, w: u32)
    requires
        (h == g) != (v == w),
    ensures
        mix4(h, v) != mix4(g, w),
{
    let (x, y) = ((v as u64).wrapping_mul(PRIME64_1), (w as u64).wrapping_mul(PRIME64_1));
    if v != w {
        lemma_times64(v as u64, w as u64, PRIME64_1);
    }
    assert((h == g) != (x == y) ==> h ^ x != g ^ y) by (bit_vector);
    lemma_turn64(h ^ x, g ^ y, 23);
    lemma_times64(rotl64_spec(h ^ x, 23), rotl64_spec(g ^ y, 23), PRIME64_2);
}

proof fn lemma_mix1(h: u64, g: u64, v: u8, w: u8)
    requires
        (h == g) != (v == w),
    ensures
        mix1(h, v) != mix1(g, w),
{
    let (x, y) = ((v as u64).wrapping_mul(PRIME64_5), (w as u64).wrapping_mul(PRIME64_5));
    if v != w {
        lemma_times64(v as u64, w as u64, PRIME64_5);
    }
    assert((h == g) != (x == y) ==> h ^ x != g ^ y) by (bit_vector);
    lemma_turn64(h ^ x, g ^ y, 11);
    lemma_times64(rotl64_spec(h ^ x, 11), rotl64_spec(g ^ y, 11), PRIME64_1);
}

#[verifier::rlimit(30)]
proof fn lemma_tail64(h: u64, g: u64, x: Seq<u8>, y: Seq<u8>, at: int, k: int)
    requires
        0 <= at <= x.len(),
        x.len() == y.len(),
        ({
            let same = forall|i: int| at <= i < x.len() ==> #[trigger] x[i] == y[i];
            ||| h != g && same
            ||| {
                &&& h == g
                &&& at <= k < x.len()
                &&& x[k] != y[k]
                &&& forall|i: int| at <= i < x.len() && i != k ==> #[trigger] x[i] == y[i]
            }
        }),
    ensures
        tail64(h, x, at) != tail64(g, y, at),
    decreases x.len() - at,
{
    if at + 8 <= x.len() {
        let (v, w) = (le64(x, at), le64(y, at));
        if h != g || k >= at + 8 {
            lemma_same_words(x, y, at);
        } else {
            lemma_long_differs(x, y, at, k);
        }
        if (h == g) != (v == w) {
            lemma_mix8(h, g, v, w);
        }
        lemma_tail64(mix8(h, v), mix8(g, w), x, y, at + 8, k);
    } else if at + 4 <= x.len() {
        let (v, w) = (le32(x, at), le32(y, at));
        if h != g || k >= at + 4 {
            lemma_same_word32(x, y, at);
        } else {
            lemma_words(x, y, at);
            assert(k == at || k == at + 1 || k == at + 2 || k == at + 3);
        }
        if (h == g) != (v == w) {
            lemma_mix4(h, g, v, w);
        }
        lemma_tail64(mix4(h, v), mix4(g, w), x, y, at + 4, k);
    } else if at < x.len() {
        if (h == g) != (x[at] == y[at]) {
            lemma_mix1(h, g, x[at], y[at]);
        }
        lemma_tail64(mix1(h, x[at]), mix1(g, y[at]), x, y, at + 1, k);
    } else {
        lemma_avalanche64(h, g);
    }
}

/// The 64-bit hash depends on every bit of its input that does not fill a
/// stripe: inputs of one length that differ in one byte there have different
/// hashes.
pub proof fn law_xxh64_sees_every_last_byte(a: Seq<u8>, b: Seq<u8>, k: int, seed: u64)
    requires
        differ_within(a, b, k, k + 1),
        k >= 32 * (a.len() / 32),
    ensures
        xxh64_spec(a, seed) != xxh64_spec(b, seed),
{
    let n = (a.len() / 32) as int;
    let (x, y) = (a.skip(32 * n), b.skip(32 * n));
    let i = lemma_differs(a, b, k, k + 1);
    assert(forall|i: int| 0 <= i < x.len() ==> #[trigger] x[i] == a[32 * n + i]);
    assert(forall|i: int| 0 <= i < y.len() ==> #[trigger] y[i] == b[32 * n + i]);
    lemma_lanes64_local(a, b, seed, n as nat);
    let h = if a.len() >= 32 {
        merge64(lanes64(a, seed, n as nat))
    } else {
        seed.wrapping_add(PRIME64_5)
    };
    let h1 = h.wrapping_add((a.len() % 0x1_0000_0000_0000_0000) as u64);
    lemma_tail64(h1, h1, x, y, 0, k - 32 * n);
}

/// The running values of a 64-bit hash depend on every bit of the stripes it was
/// given: those of inputs that differ in one byte, or in one word at a multiple
/// of eight, differ in the value that takes in that word, and in no other.
pub proof fn law_xxh64_state_sees_every_word(s: Xxh64State, t: Xxh64State, a: Seq<u8>, b: Seq<u8>, from: int, to: int, seed: u64)
    requires
        s.tracks(a, seed),
        t.tracks(b, seed),
        differ_within(a, b, from, to),
        one_word(from, to, 8),
        from < 32 * (a.len() / 32),
    ensures
        apart64(s.lanes(), t.lanes(), from % 32 / 8),
{
    let (i, j) = (from / 32, from % 32 / 8);
    let w = 32 * i + 8 * j;
    lemma_word_of(from, to);
    assert(differ_within(a, b, w, w + 8));
    lemma_lanes64_apart(a, b, seed, a.len() / 32, i, j);
}

} // verus!
