//! xxHash in its 32-bit and 64-bit forms, at once or piece by piece.
use vstd::prelude::*;
use crate::bytes::{law_le_inverse, le32, le32_bytes, le64, le64_bytes, read_le32, read_le64};

pub mod laws;

verus! {

pub const PRIME32_1: u32 = 2654435761;
pub const PRIME32_2: u32 = 2246822519;
pub const PRIME32_3: u32 = 3266489917;
pub const PRIME32_4: u32 = 668265263;
pub const PRIME32_5: u32 = 374761393;

pub const PRIME64_1: u64 = 11400714785074694791;
pub const PRIME64_2: u64 = 14029467366897019727;
pub const PRIME64_3: u64 = 1609587929392839161;
pub const PRIME64_4: u64 = 9650029242287828579;
pub const PRIME64_5: u64 = 2870177450012600261;

/// The version of the hash, as major, minor and patch digits.
pub const VERSION_NUMBER: u32 = 605;

// ---------------------------------------------------------------------------
// The 32-bit hash as mathematics
// ---------------------------------------------------------------------------

pub open spec fn rotl32_spec(x: u32, r: u32) -> u32 {
    (x << r) | (x >> ((32 - r) as u32))
}

/// The four running values.
#[derive(Clone, Copy)]
pub struct Lanes32 {
    pub v1: u32,
    pub v2: u32,
    pub v3: u32,
    pub v4: u32,
}

pub open spec fn round32(acc: u32, input: u32) -> u32 {
    rotl32_spec(acc.wrapping_add(input.wrapping_mul(PRIME32_2)), 13).wrapping_mul(PRIME32_1)
}

pub open spec fn start32(seed: u32) -> Lanes32 {
    Lanes32 {
        v1: seed.wrapping_add(PRIME32_1).wrapping_add(PRIME32_2),
        v2: seed.wrapping_add(PRIME32_2),
        v3: seed,
        v4: seed.wrapping_sub(PRIME32_1),
    }
}

/// The running values after the sixteen bytes at `at`.
#[verifier::opaque]
pub open spec fn stripe32(l: Lanes32, data: Seq<u8>, at: int) -> Lanes32 {
    Lanes32 {
        v1: round32(l.v1, le32(data, at)),
        v2: round32(l.v2, le32(data, at + 4)),
        v3: round32(l.v3, le32(data, at + 8)),
        v4: round32(l.v4, le32(data, at + 12)),
    }
}

/// The running values after the first `n` stripes of sixteen bytes.
pub open spec fn lanes32(data: Seq<u8>, seed: u32, n: nat) -> Lanes32
    decreases n,
{
    if n == 0 {
        start32(seed)
    } else {
        stripe32(lanes32(data, seed, (n - 1) as nat), data, 16 * (n - 1))
    }
}

pub open spec fn merge32(l: Lanes32) -> u32 {
    rotl32_spec(l.v1, 1).wrapping_add(rotl32_spec(l.v2, 7)).wrapping_add(
        rotl32_spec(l.v3, 12),
    ).wrapping_add(rotl32_spec(l.v4, 18))
}

pub open spec fn avalanche32(h: u32) -> u32 {
    let h1 = h ^ (h >> 15u32);
    let h2 = h1.wrapping_mul(PRIME32_2);
    let h3 = h2 ^ (h2 >> 13u32);
    let h4 = h3.wrapping_mul(PRIME32_3);
    h4 ^ (h4 >> 16u32)
}

/// Mixes the bytes of `tail` from `at` on into `h`.
pub open spec fn tail32(h: u32, tail: Seq<u8>, at: int) -> u32
    decreases tail.len() - at,
{
    if at + 4 <= tail.len() {
        tail32(
            rotl32_spec(
                h.wrapping_add(le32(tail, at).wrapping_mul(PRIME32_3)),
                17,
            ).wrapping_mul(PRIME32_4),
            tail,
            at + 4,
        )
    } else if at < tail.len() {
        tail32(
            rotl32_spec(
                h.wrapping_add((tail[at] as u32).wrapping_mul(PRIME32_5)),
                11,
            ).wrapping_mul(PRIME32_1),
            tail,
            at + 1,
        )
    } else {
        avalanche32(h)
    }
}

/// The 32-bit hash of `data`.
pub open spec fn xxh32_spec(data: Seq<u8>, seed: u32) -> u32 {
    let n = data.len() / 16;
    let h = if data.len() >= 16 {
        merge32(lanes32(data, seed, n))
    } else {
        seed.wrapping_add(PRIME32_5)
    };
    tail32(h.wrapping_add((data.len() % 0x1_0000_0000) as u32), data.skip(16 * n as int), 0)
}

// ---------------------------------------------------------------------------
// The 32-bit hash
// ---------------------------------------------------------------------------

fn rotl32(x: u32, r: u32) -> (y: u32)
    requires
        0 < r < 32,
    ensures
        y == rotl32_spec(x, r),
{
    (x << r) | (x >> (32 - r))
}

fn xxh32_round(seed: u32, input: u32) -> (r: u32)
    ensures
        r == round32(seed, input),
{
    rotl32(seed.wrapping_add(input.wrapping_mul(PRIME32_2)), 13).wrapping_mul(PRIME32_1)
}

fn xxh32_avalanche(h: u32) -> (r: u32)
    ensures
        r == avalanche32(h),
{
    let h1 = h ^ (h >> 15u32);
    let h2 = h1.wrapping_mul(PRIME32_2);
    let h3 = h2 ^ (h2 >> 13u32);
    let h4 = h3.wrapping_mul(PRIME32_3);
    h4 ^ (h4 >> 16u32)
}

fn xxh32_finalize(h: u32, data: &[u8]) -> (r: u32)
    ensures
        r == tail32(h, data@, 0),
{
    let n = data.len();
    let ghost h0 = h;
    let mut h = h;
    let mut at: usize = 0;
    while n - at >= 4
        invariant
            at <= n,
            n == data.len(),
            tail32(h0, data@, 0) == tail32(h, data@, at as int),
        decreases n - at,
    {
        let v = read_le32(data, at);
        h = rotl32(h.wrapping_add(v.wrapping_mul(PRIME32_3)), 17).wrapping_mul(PRIME32_4);
        at = at + 4;
    }
    while at < n
        invariant
            at <= n,
            n - at < 4,
            n == data.len(),
            tail32(h0, data@, 0) == tail32(h, data@, at as int),
        decreases n - at,
    {
        h =
        rotl32(h.wrapping_add((data[at] as u32).wrapping_mul(PRIME32_5)), 11).wrapping_mul(
            PRIME32_1,
        );
        at = at + 1;
    }
    xxh32_avalanche(h)
}

fn xxh32_start(seed: u32) -> (l: Lanes32)
    ensures
        l == start32(seed),
{
    Lanes32 {
        v1: seed.wrapping_add(PRIME32_1).wrapping_add(PRIME32_2),
        v2: seed.wrapping_add(PRIME32_2),
        v3: seed,
        v4: seed.wrapping_sub(PRIME32_1),
    }
}

fn xxh32_stripe(l: Lanes32, data: &[u8], at: usize) -> (r: Lanes32)
    requires
        at + 16 <= data.len(),
    ensures
        r == stripe32(l, data@, at as int),
{
    reveal(stripe32);
    Lanes32 {
        v1: xxh32_round(l.v1, read_le32(data, at)),
        v2: xxh32_round(l.v2, read_le32(data, at + 4)),
        v3: xxh32_round(l.v3, read_le32(data, at + 8)),
        v4: xxh32_round(l.v4, read_le32(data, at + 12)),
    }
}

fn xxh32_merge(l: Lanes32) -> (h: u32)
    ensures
        h == merge32(l),
{
    rotl32(l.v1, 1).wrapping_add(rotl32(l.v2, 7)).wrapping_add(rotl32(l.v3, 12)).wrapping_add(
        rotl32(l.v4, 18),
    )
}

/// The low 32 bits of a length.
fn low32(n: usize) -> (r: u32)
    ensures
        r == n as int % 0x1_0000_0000,
{
    (n as u64 % 0x1_0000_0000) as u32
}

/// The 32-bit hash of `data`.
pub fn xxh32(data: &[u8], seed: u32) -> (h: u32)
    ensures
        h == xxh32_spec(data@, seed),
{
    let len = data.len();
    let mut l = xxh32_start(seed);
    let mut at: usize = 0;
    while len - at >= 16
        invariant
            at <= len,
            len == data.len(),
            at % 16 == 0,
            l == lanes32(data@, seed, (at / 16) as nat),
        decreases len - at,
    {
        l = xxh32_stripe(l, data, at);
        at = at + 16;
    }
    let h = if len >= 16 {
        xxh32_merge(l)
    } else {
        seed.wrapping_add(PRIME32_5)
    };
    assert(at == 16 * (data@.len() / 16));
    let tail = &data[at..len];
    assert(tail@ =~= data@.skip(at as int));
    xxh32_finalize(h.wrapping_add(low32(len)), tail)
}

/// The state of a 32-bit hash taken piece by piece.
#[derive(Clone, Copy)]
pub struct Xxh32State {
    pub total_len_32: u32,
    pub large_len: u32,
    pub v1: u32,
    pub v2: u32,
    pub v3: u32,
    pub v4: u32,
    pub mem: [u8; 16],
    pub memsize: u32,
    /// Never read or written.
    pub reserved: u32,
}

impl Xxh32State {
    pub open spec fn lanes(&self) -> Lanes32 {
        Lanes32 { v1: self.v1, v2: self.v2, v3: self.v3, v4: self.v4 }
    }

    /// Whether the state is that of a hash that has been given `data`.
    pub open spec fn tracks(&self, data: Seq<u8>, seed: u32) -> bool {
        let n = data.len() / 16;
        &&& self.total_len_32 == data.len() % 0x1_0000_0000
        &&& (self.large_len != 0) == (data.len() >= 16)
        &&& self.lanes() == lanes32(data, seed, n)
        &&& self.memsize == data.len() % 16
        &&& self.mem@.take(self.memsize as int) == data.skip(16 * n as int)
    }
}

proof fn lemma_stripe32_local(l: Lanes32, a: Seq<u8>, i: int, b: Seq<u8>, j: int)
    requires
        forall|k: int| 0 <= k < 16 ==> #[trigger] a[i + k] == b[j + k],
    ensures
        stripe32(l, a, i) == stripe32(l, b, j),
{
    reveal(stripe32);
    assert forall|k: int| 0 <= k <= 12 implies #[trigger] le32(a, i + k) == le32(b, j + k) by {
        assert(a[i + k] == b[j + k]);
        assert(a[i + (k + 1)] == b[j + (k + 1)]);
        assert(a[i + (k + 2)] == b[j + (k + 2)]);
        assert(a[i + (k + 3)] == b[j + (k + 3)]);
    }
    assert(le32(a, i + 0) == le32(b, j + 0));
    assert(le32(a, i + 4) == le32(b, j + 4));
    assert(le32(a, i + 8) == le32(b, j + 8));
    assert(le32(a, i + 12) == le32(b, j + 12));
}

proof fn lemma_lanes32_local(a: Seq<u8>, b: Seq<u8>, seed: u32, n: nat)
    requires
        16 * n <= a.len(),
        16 * n <= b.len(),
        forall|i: int| 0 <= i < 16 * n ==> a[i] == b[i],
    ensures
        lanes32(a, seed, n) == lanes32(b, seed, n),
    decreases n,
{
    if n > 0 {
        lemma_lanes32_local(a, b, seed, (n - 1) as nat);
        let at = 16 * (n - 1);
        lemma_stripe32_local(lanes32(a, seed, (n - 1) as nat), a, at, b, at);
    }
}

/// Readies a state for a hash with the given seed.
pub fn xxh32_reset(s: &mut Xxh32State, seed: u32)
    ensures
        final(s).tracks(Seq::empty(), seed),
        final(s).reserved == old(s).reserved,
        final(s).mem@ == Seq::new(16, |i: int| 0u8),
        final(s).large_len == 0,
{
    let l = xxh32_start(seed);
    s.total_len_32 = 0;
    s.large_len = 0;
    s.v1 = l.v1;
    s.v2 = l.v2;
    s.v3 = l.v3;
    s.v4 = l.v4;
    s.mem = [0;16];
    s.memsize = 0;
    assert(s.mem@.take(0) =~= Seq::<u8>::empty().skip(0));
    assert(s.mem@ =~= Seq::new(16, |i: int| 0u8));
}

/// Puts `n` input bytes into a buffer of sixteen.
fn buffer16(mem: &mut [u8; 16], at: usize, input: &[u8], from: usize, n: usize)
    requires
        at + n <= 16,
        from + n <= input.len(),
    ensures
        forall|k: int| 0 <= k < at ==> #[trigger] final(mem)@[k] == old(mem)@[k],
        forall|k: int| at <= k < at + n ==> #[trigger] final(mem)@[k] == input@[from + k - at],
{
    let mut i: usize = 0;
    while i < n
        invariant
            i <= n,
            at + n <= 16,
            from + n <= input.len(),
            forall|k: int| 0 <= k < at ==> #[trigger] mem@[k] == old(mem)@[k],
            forall|k: int| at <= k < at + i ==> #[trigger] mem@[k] == input@[from + k - at],
        decreases n - i,
    {
        mem[at + i] = input[from + i];
        i = i + 1;
    }
}

/// The running values after `n` more stripes.
spec fn resume32(l: Lanes32, data: Seq<u8>, n: nat) -> Lanes32
    decreases n,
{
    if n == 0 {
        l
    } else {
        stripe32(resume32(l, data, (n - 1) as nat), data, 16 * (n - 1))
    }
}

proof fn lemma_resume32(data: Seq<u8>, seed: u32, m: nat, n: nat)
    requires
        16 * (m + n) <= data.len(),
    ensures
        resume32(lanes32(data, seed, m), data.skip(16 * m as int), n) == lanes32(
            data,
            seed,
            m + n,
        ),
    decreases n,
{
    if n > 0 {
        lemma_resume32(data, seed, m, (n - 1) as nat);
        let l = lanes32(data, seed, (m + n - 1) as nat);
        let i = 16 * (n - 1);
        let j = 16 * (m + n - 1);
        let rest = data.skip(16 * m as int);
        assert forall|k: int| 0 <= k < 16 implies #[trigger] rest[i + k] == data[j + k] by {
            assert(rest[i + k] == data[16 * m + i + k]);
        }
        lemma_stripe32_local(l, rest, i, data, j);
    }
}

/// What giving more input does to a tracked hash, once its buffered bytes and
/// the input are laid end to end as `flow`.
#[verifier::spinoff_prover]
proof fn lemma_tracks32(s0: Xxh32State, s: Xxh32State, data: Seq<u8>, seed: u32, input: Seq<u8>, done: nat)
    requires
        s0.tracks(data, seed),
        s.lanes() == resume32(s0.lanes(), s0.mem@.take(s0.memsize as int) + input, done),
        s.total_len_32 == (s0.total_len_32 + input.len()) % 0x1_0000_0000,
        (s.large_len != 0) == (s0.large_len != 0 || done > 0),
        s0.memsize + input.len() == 16 * done + s.memsize,
        s.memsize < 16,
        s.mem@.take(s.memsize as int) == (s0.mem@.take(s0.memsize as int) + input).skip(
            16 * done as int,
        ),
    ensures
        s.tracks(data + input, seed),
{
    let all = data + input;
    let n = data.len() / 16;
    assert(data.len() == 16 * n + s0.memsize);
    assert(all.len() == 16 * (n + done) + s.memsize);
    let flow = s0.mem@.take(s0.memsize as int) + input;
    assert(all.skip(16 * n as int) =~= flow);
    lemma_lanes32_local(data, all, seed, n);
    lemma_resume32(all, seed, n, done);
    assert(all.len() / 16 == n + done);
    assert(all.len() % 0x1_0000_0000 == s.total_len_32) by {
        vstd::arithmetic::div_mod::lemma_add_mod_noop_right(
            input.len() as int,
            data.len() as int,
            0x1_0000_0000,
        );
    }
    assert(flow.skip(16 * done as int) =~= all.skip((16 * (n + done)) as int));
}

/// Gives a hash some more input.
#[verifier::rlimit(30)]
pub fn xxh32_update(s: &mut Xxh32State, input: &[u8])
    requires
        exists|data: Seq<u8>, seed: u32| old(s).tracks(data, seed),
    ensures
        forall|data: Seq<u8>, seed: u32| #[trigger]
            old(s).tracks(data, seed) ==> final(s).tracks(data + input@, seed),
        final(s).reserved == old(s).reserved,
{
    let len = input.len();
    let ms = s.memsize as usize;
    let ghost s0 = *s;
    let ghost held = s0.mem@.take(ms as int);
    let ghost flow = held + input@;
    s.total_len_32 = s.total_len_32.wrapping_add(low32(len));
    if len < 16 - ms {
        buffer16(&mut s.mem, ms, input, 0, len);
        s.memsize = s.memsize + len as u32;
        proof {
            assert(s.mem@.take(ms + len) =~= flow.skip(0));
            assert forall|data: Seq<u8>, seed: u32| #[trigger] s0.tracks(data, seed) implies s.tracks(
                data + input@,
                seed,
            ) by {
                lemma_tracks32(s0, *s, data, seed, input@, 0);
            }
        }
        return;
    }
    s.large_len = 1;
    let mut l = Lanes32 { v1: s.v1, v2: s.v2, v3: s.v3, v4: s.v4 };
    let mut at: usize = 0;
    let ghost mut done: nat = 0;
    if ms > 0 {
        at = 16 - ms;
        buffer16(&mut s.mem, ms, input, 0, at);
        let ghost b = s.mem@;
        l = xxh32_stripe(l, &s.mem, 0);
        proof {
            assert forall|k: int| 0 <= k < 16 implies #[trigger] b[0 + k] == flow[0 + k] by {
                if k < ms {
                    assert(held[k] == s0.mem@[k]);
                }
            }
            lemma_stripe32_local(s0.lanes(), b, 0, flow, 0);
            assert(resume32(s0.lanes(), flow, 0) == s0.lanes());
            done = 1;
        }
    }
    let ghost s1 = *s;
    while len - at >= 16
        invariant
            at <= len,
            len == input.len(),
            flow == held + input@,
            held.len() == ms,
            ms < 16,
            16 * done == ms + at,
            l == resume32(s0.lanes(), flow, done),
            *s == s1,
        decreases len - at,
    {
        let ghost l0 = l;
        l = xxh32_stripe(l, input, at);
        proof {
            let j = 16 * done as int;
            assert forall|k: int| 0 <= k < 16 implies #[trigger] input@[at + k] == flow[j + k] by {
            }
            lemma_stripe32_local(l0, input@, at as int, flow, j);
            done = done + 1;
        }
        at = at + 16;
    }
    s.v1 = l.v1;
    s.v2 = l.v2;
    s.v3 = l.v3;
    s.v4 = l.v4;
    let left = len - at;
    buffer16(&mut s.mem, 0, input, at, left);
    s.memsize = left as u32;
    proof {
        assert(s.mem@.take(left as int) =~= flow.skip(16 * done as int));
        assert forall|data: Seq<u8>, seed: u32| #[trigger] s0.tracks(data, seed) implies s.tracks(
            data + input@,
            seed,
        ) by {
            lemma_tracks32(s0, *s, data, seed, input@, done);
        }
    }
}

/// The hash of the input so far.
pub fn xxh32_digest(s: &Xxh32State) -> (h: u32)
    requires
        exists|data: Seq<u8>, seed: u32| s.tracks(data, seed),
    ensures
        forall|data: Seq<u8>, seed: u32| #[trigger]
            s.tracks(data, seed) ==> h == xxh32_spec(data, seed),
{
    let l = Lanes32 { v1: s.v1, v2: s.v2, v3: s.v3, v4: s.v4 };
    let h = if s.large_len != 0 {
        xxh32_merge(l)
    } else {
        s.v3.wrapping_add(PRIME32_5)
    };
    let mem: &[u8] = &s.mem;
    let tail = &mem[0..s.memsize as usize];
    assert(tail@ =~= s.mem@.take(s.memsize as int));
    xxh32_finalize(h.wrapping_add(s.total_len_32), tail)
}

/// The bytes of a hash, high byte first.
pub fn xxh32_canonical_from_hash(hash: u32) -> (r: [u8; 4])
    ensures
        r@ == le32_bytes(hash).reverse(),
{
    let r = [
        (hash / 0x100_0000) as u8,
        (hash / 0x1_0000 % 0x100) as u8,
        (hash / 0x100 % 0x100) as u8,
        (hash % 0x100) as u8,
    ];
    assert(r@ =~= le32_bytes(hash).reverse());
    r
}

/// The hash whose bytes, high byte first, are `src`.
pub fn xxh32_hash_from_canonical(src: &[u8; 4]) -> (h: u32)
    ensures
        h == le32(src@.reverse(), 0),
{
    src[3] as u32 + 0x100 * (src[2] as u32) + 0x1_0000 * (src[1] as u32) + 0x100_0000 * (src[0]
        as u32)
}

// ---------------------------------------------------------------------------
// The 64-bit hash as mathematics
// ---------------------------------------------------------------------------

pub open spec fn rotl64_spec(x: u64, r: u64) -> u64 {
    (x << r) | (x >> ((64 - r) as u64))
}

/// The four running values.
#[derive(Clone, Copy)]
pub struct Lanes64 {
    pub v1: u64,
    pub v2: u64,
    pub v3: u64,
    pub v4: u64,
}

pub open spec fn round64(acc: u64, input: u64) -> u64 {
    rotl64_spec(acc.wrapping_add(input.wrapping_mul(PRIME64_2)), 31).wrapping_mul(PRIME64_1)
}

pub open spec fn start64(seed: u64) -> Lanes64 {
    Lanes64 {
        v1: seed.wrapping_add(PRIME64_1).wrapping_add(PRIME64_2),
        v2: seed.wrapping_add(PRIME64_2),
        v3: seed,
        v4: seed.wrapping_sub(PRIME64_1),
    }
}

/// The running values after the thirty-two bytes at `at`.
#[verifier::opaque]
pub open spec fn stripe64(l: Lanes64, data: Seq<u8>, at: int) -> Lanes64 {
    Lanes64 {
        v1: round64(l.v1, le64(data, at)),
        v2: round64(l.v2, le64(data, at + 8)),
        v3: round64(l.v3, le64(data, at + 16)),
        v4: round64(l.v4, le64(data, at + 24)),
    }
}

/// The running values after the first `n` stripes of thirty-two bytes.
pub open spec fn lanes64(data: Seq<u8>, seed: u64, n: nat) -> Lanes64
    decreases n,
{
    if n == 0 {
        start64(seed)
    } else {
        stripe64(lanes64(data, seed, (n - 1) as nat), data, 32 * (n - 1))
    }
}

pub open spec fn merge_round64(acc: u64, val: u64) -> u64 {
    (acc ^ round64(0, val)).wrapping_mul(PRIME64_1).wrapping_add(PRIME64_4)
}

#[verifier::opaque]
pub open spec fn merge64(l: Lanes64) -> u64 {
    let h = rotl64_spec(l.v1, 1).wrapping_add(rotl64_spec(l.v2, 7)).wrapping_add(
        rotl64_spec(l.v3, 12),
    ).wrapping_add(rotl64_spec(l.v4, 18));
    merge_round64(merge_round64(merge_round64(merge_round64(h, l.v1), l.v2), l.v3), l.v4)
}

pub open spec fn avalanche64(h: u64) -> u64 {
    let h1 = h ^ (h >> 33u64);
    let h2 = h1.wrapping_mul(PRIME64_2);
    let h3 = h2 ^ (h2 >> 29u64);
    let h4 = h3.wrapping_mul(PRIME64_3);
    h4 ^ (h4 >> 32u64)
}

/// Mixes eight bytes into `h`.
pub open spec fn mix8(h: u64, v: u64) -> u64 {
    rotl64_spec(h ^ round64(0, v), 27).wrapping_mul(PRIME64_1).wrapping_add(PRIME64_4)
}

/// Mixes four bytes into `h`.
pub open spec fn mix4(h: u64, v: u32) -> u64 {
    rotl64_spec(h ^ (v as u64).wrapping_mul(PRIME64_1), 23).wrapping_mul(PRIME64_2).wrapping_add(
        PRIME64_3,
    )
}

/// Mixes one byte into `h`.
pub open spec fn mix1(h: u64, v: u8) -> u64 {
    rotl64_spec(h ^ (v as u64).wrapping_mul(PRIME64_5), 11).wrapping_mul(PRIME64_1)
}

/// Mixes the bytes of `tail` from `at` on into `h`.
pub open spec fn tail64(h: u64, tail: Seq<u8>, at: int) -> u64
    decreases tail.len() - at,
{
    if at + 8 <= tail.len() {
        tail64(mix8(h, le64(tail, at)), tail, at + 8)
    } else if at + 4 <= tail.len() {
        tail64(mix4(h, le32(tail, at)), tail, at + 4)
    } else if at < tail.len() {
        tail64(mix1(h, tail[at]), tail, at + 1)
    } else {
        avalanche64(h)
    }
}

/// The 64-bit hash of `data`.
pub open spec fn xxh64_spec(data: Seq<u8>, seed: u64) -> u64 {
    let n = data.len() / 32;
    let h = if data.len() >= 32 {
        merge64(lanes64(data, seed, n))
    } else {
        seed.wrapping_add(PRIME64_5)
    };
    tail64(h.wrapping_add((data.len() % 0x1_0000_0000_0000_0000) as u64), data.skip(32 * n as int), 0)
}

// ---------------------------------------------------------------------------
// The 64-bit hash
// ---------------------------------------------------------------------------

fn rotl64(x: u64, r: u64) -> (y: u64)
    requires
        0 < r < 64,
    ensures
        y == rotl64_spec(x, r),
{
    (x << r) | (x >> (64 - r))
}

fn xxh64_round(seed: u64, input: u64) -> (r: u64)
    ensures
        r == round64(seed, input),
{
    rotl64(seed.wrapping_add(input.wrapping_mul(PRIME64_2)), 31).wrapping_mul(PRIME64_1)
}

fn xxh64_avalanche(h: u64) -> (r: u64)
    ensures
        r == avalanche64(h),
{
    let h1 = h ^ (h >> 33u64);
    let h2 = h1.wrapping_mul(PRIME64_2);
    let h3 = h2 ^ (h2 >> 29u64);
    let h4 = h3.wrapping_mul(PRIME64_3);
    h4 ^ (h4 >> 32u64)
}

fn xxh64_finalize(h: u64, data: &[u8]) -> (r: u64)
    ensures
        r == tail64(h, data@, 0),
{
    let n = data.len();
    let ghost h0 = h;
    let mut h = h;
    let mut at: usize = 0;
    while n - at >= 8
        invariant
            at <= n,
            n == data.len(),
            tail64(h0, data@, 0) == tail64(h, data@, at as int),
        decreases n - at,
    {
        let k1 = xxh64_round(0, read_le64(data, at));
        h = rotl64(h ^ k1, 27).wrapping_mul(PRIME64_1).wrapping_add(PRIME64_4);
        at = at + 8;
    }
    if n - at >= 4 {
        let v = (read_le32(data, at) as u64).wrapping_mul(PRIME64_1);
        h = rotl64(h ^ v, 23).wrapping_mul(PRIME64_2).wrapping_add(PRIME64_3);
        at = at + 4;
    }
    while at < n
        invariant
            at <= n,
            n - at < 4,
            n == data.len(),
            tail64(h0, data@, 0) == tail64(h, data@, at as int),
        decreases n - at,
    {
        let v = (data[at] as u64).wrapping_mul(PRIME64_5);
        h = rotl64(h ^ v, 11).wrapping_mul(PRIME64_1);
        at = at + 1;
    }
    xxh64_avalanche(h)
}

fn xxh64_start(seed: u64) -> (l: Lanes64)
    ensures
        l == start64(seed),
{
    Lanes64 {
        v1: seed.wrapping_add(PRIME64_1).wrapping_add(PRIME64_2),
        v2: seed.wrapping_add(PRIME64_2),
        v3: seed,
        v4: seed.wrapping_sub(PRIME64_1),
    }
}

fn xxh64_stripe(l: Lanes64, data: &[u8], at: usize) -> (r: Lanes64)
    requires
        at + 32 <= data.len(),
    ensures
        r == stripe64(l, data@, at as int),
{
    reveal(stripe64);
    Lanes64 {
        v1: xxh64_round(l.v1, read_le64(data, at)),
        v2: xxh64_round(l.v2, read_le64(data, at + 8)),
        v3: xxh64_round(l.v3, read_le64(data, at + 16)),
        v4: xxh64_round(l.v4, read_le64(data, at + 24)),
    }
}

fn xxh64_merge_round(acc: u64, val: u64) -> (r: u64)
    ensures
        r == merge_round64(acc, val),
{
    (acc ^ xxh64_round(0, val)).wrapping_mul(PRIME64_1).wrapping_add(PRIME64_4)
}

fn xxh64_merge(l: Lanes64) -> (h: u64)
    ensures
        h == merge64(l),
{
    reveal(merge64);
    let h = rotl64(l.v1, 1).wrapping_add(rotl64(l.v2, 7)).wrapping_add(
        rotl64(l.v3, 12),
    ).wrapping_add(rotl64(l.v4, 18));
    let h = xxh64_merge_round(h, l.v1);
    let h = xxh64_merge_round(h, l.v2);
    let h = xxh64_merge_round(h, l.v3);
    xxh64_merge_round(h, l.v4)
}

/// The 64-bit hash of `data`.
pub fn xxh64(data: &[u8], seed: u64) -> (h: u64)
    ensures
        h == xxh64_spec(data@, seed),
{
    let len = data.len();
    let mut l = xxh64_start(seed);
    let mut at: usize = 0;
    while len - at >= 32
        invariant
            at <= len,
            len == data.len(),
            at % 32 == 0,
            l == lanes64(data@, seed, (at / 32) as nat),
        decreases len - at,
    {
        l = xxh64_stripe(l, data, at);
        at = at + 32;
    }
    let h = if len >= 32 {
        xxh64_merge(l)
    } else {
        seed.wrapping_add(PRIME64_5)
    };
    assert(at == 32 * (data@.len() / 32));
    let tail = &data[at..len];
    assert(tail@ =~= data@.skip(at as int));
    assert(data@.len() % 0x1_0000_0000_0000_0000 == len);
    xxh64_finalize(h.wrapping_add(len as u64), tail)
}

/// The state of a 64-bit hash taken piece by piece.
#[derive(Clone, Copy)]
pub struct Xxh64State {
    pub total_len: u64,
    pub v1: u64,
    pub v2: u64,
    pub v3: u64,
    pub v4: u64,
    pub mem: [u8; 32],
    pub memsize: u32,
    /// Never read; the first word is cleared with the state.
    pub reserved: [u32; 2],
}

impl Xxh64State {
    pub open spec fn lanes(&self) -> Lanes64 {
        Lanes64 { v1: self.v1, v2: self.v2, v3: self.v3, v4: self.v4 }
    }

    /// Whether the state is that of a hash that has been given `data`.
    pub open spec fn tracks(&self, data: Seq<u8>, seed: u64) -> bool {
        let n = data.len() / 32;
        &&& self.total_len == data.len()
        &&& self.lanes() == lanes64(data, seed, n)
        &&& self.memsize == data.len() % 32
        &&& self.mem@.take(self.memsize as int) == data.skip(32 * n as int)
    }
}

proof fn lemma_stripe64_local(l: Lanes64, a: Seq<u8>, i: int, b: Seq<u8>, j: int)
    requires
        forall|k: int| 0 <= k < 32 ==> #[trigger] a[i + k] == b[j + k],
    ensures
        stripe64(l, a, i) == stripe64(l, b, j),
{
    reveal(stripe64);
    assert forall|k: int| 0 <= k <= 24 implies #[trigger] le64(a, i + k) == le64(b, j + k) by {
        assert(a[i + k] == b[j + k]);
        assert(a[i + (k + 1)] == b[j + (k + 1)]);
        assert(a[i + (k + 2)] == b[j + (k + 2)]);
        assert(a[i + (k + 3)] == b[j + (k + 3)]);
        assert(a[i + (k + 4)] == b[j + (k + 4)]);
        assert(a[i + (k + 5)] == b[j + (k + 5)]);
        assert(a[i + (k + 6)] == b[j + (k + 6)]);
        assert(a[i + (k + 7)] == b[j + (k + 7)]);
    }
    assert(le64(a, i + 0) == le64(b, j + 0));
    assert(le64(a, i + 8) == le64(b, j + 8));
    assert(le64(a, i + 16) == le64(b, j + 16));
    assert(le64(a, i + 24) == le64(b, j + 24));
}

proof fn lemma_lanes64_local(a: Seq<u8>, b: Seq<u8>, seed: u64, n: nat)
    requires
        32 * n <= a.len(),
        32 * n <= b.len(),
        forall|i: int| 0 <= i < 32 * n ==> a[i] == b[i],
    ensures
        lanes64(a, seed, n) == lanes64(b, seed, n),
    decreases n,
{
    if n > 0 {
        lemma_lanes64_local(a, b, seed, (n - 1) as nat);
        let at = 32 * (n - 1);
        lemma_stripe64_local(lanes64(a, seed, (n - 1) as nat), a, at, b, at);
    }
}

/// Readies a state for a hash with the given seed.
pub fn xxh64_reset(s: &mut Xxh64State, seed: u64)
    ensures
        final(s).tracks(Seq::empty(), seed),
        final(s).reserved@ == old(s).reserved@.update(0, 0),
        final(s).mem@ == Seq::new(32, |i: int| 0u8),
{
    let l = xxh64_start(seed);
    s.total_len = 0;
    s.v1 = l.v1;
    s.v2 = l.v2;
    s.v3 = l.v3;
    s.v4 = l.v4;
    s.mem = [0;32];
    s.memsize = 0;
    s.reserved[0] = 0;
    assert(s.mem@.take(0) =~= Seq::<u8>::empty().skip(0));
    assert(s.mem@ =~= Seq::new(32, |i: int| 0u8));
}

/// Puts `n` input bytes into a buffer of thirty-two.
fn buffer32(mem: &mut [u8; 32], at: usize, input: &[u8], from: usize, n: usize)
    requires
        at + n <= 32,
        from + n <= input.len(),
    ensures
        forall|k: int| 0 <= k < at ==> #[trigger] final(mem)@[k] == old(mem)@[k],
        forall|k: int| at <= k < at + n ==> #[trigger] final(mem)@[k] == input@[from + k - at],
{
    let mut i: usize = 0;
    while i < n
        invariant
            i <= n,
            at + n <= 32,
            from + n <= input.len(),
            forall|k: int| 0 <= k < at ==> #[trigger] mem@[k] == old(mem)@[k],
            forall|k: int| at <= k < at + i ==> #[trigger] mem@[k] == input@[from + k - at],
        decreases n - i,
    {
        mem[at + i] = input[from + i];
        i = i + 1;
    }
}

/// The running values after `n` more stripes.
spec fn resume64(l: Lanes64, data: Seq<u8>, n: nat) -> Lanes64
    decreases n,
{
    if n == 0 {
        l
    } else {
        stripe64(resume64(l, data, (n - 1) as nat), data, 32 * (n - 1))
    }
}

proof fn lemma_resume64(data: Seq<u8>, seed: u64, m: nat, n: nat)
    requires
        32 * (m + n) <= data.len(),
    ensures
        resume64(lanes64(data, seed, m), data.skip(32 * m as int), n) == lanes64(
            data,
            seed,
            m + n,
        ),
    decreases n,
{
    if n > 0 {
        lemma_resume64(data, seed, m, (n - 1) as nat);
        let l = lanes64(data, seed, (m + n - 1) as nat);
        let i = 32 * (n - 1);
        let j = 32 * (m + n - 1);
        let rest = data.skip(32 * m as int);
        assert forall|k: int| 0 <= k < 32 implies #[trigger] rest[i + k] == data[j + k] by {
            assert(rest[i + k] == data[32 * m + i + k]);
        }
        lemma_stripe64_local(l, rest, i, data, j);
    }
}

/// What giving more input does to a tracked hash, once its buffered bytes and
/// the input are laid end to end as `flow`.
#[verifier::spinoff_prover]
proof fn lemma_tracks64(s0: Xxh64State, s: Xxh64State, data: Seq<u8>, seed: u64, input: Seq<u8>, done: nat)
    requires
        s0.tracks(data, seed),
        s.lanes() == resume64(s0.lanes(), s0.mem@.take(s0.memsize as int) + input, done),
        s.total_len == s0.total_len + input.len(),
        s0.memsize + input.len() == 32 * done + s.memsize,
        s.memsize < 32,
        s.mem@.take(s.memsize as int) == (s0.mem@.take(s0.memsize as int) + input).skip(
            32 * done as int,
        ),
    ensures
        s.tracks(data + input, seed),
{
    let all = data + input;
    let n = data.len() / 32;
    assert(data.len() == 32 * n + s0.memsize);
    assert(all.len() == 32 * (n + done) + s.memsize);
    let flow = s0.mem@.take(s0.memsize as int) + input;
    assert(all.skip(32 * n as int) =~= flow);
    lemma_lanes64_local(data, all, seed, n);
    lemma_resume64(all, seed, n, done);
    assert(all.len() / 32 == n + done);
    assert(flow.skip(32 * done as int) =~= all.skip((32 * (n + done)) as int));
}

/// Gives a hash some more input.
pub fn xxh64_update(s: &mut Xxh64State, input: &[u8])
    requires
        exists|data: Seq<u8>, seed: u64| old(s).tracks(data, seed),
    ensures
        forall|data: Seq<u8>, seed: u64| #[trigger]
            old(s).tracks(data, seed) && data.len() + input@.len() <= u64::MAX ==> final(s).tracks(
                data + input@,
                seed,
            ),
        final(s).reserved == old(s).reserved,
{
    let len = input.len();
    let ms = s.memsize as usize;
    let ghost s0 = *s;
    let ghost held = s0.mem@.take(ms as int);
    let ghost flow = held + input@;
    s.total_len = s.total_len.wrapping_add(len as u64);
    if len < 32 - ms {
        buffer32(&mut s.mem, ms, input, 0, len);
        s.memsize = s.memsize + len as u32;
        proof {
            assert(s.mem@.take(ms + len) =~= flow.skip(0));
            assert forall|data: Seq<u8>, seed: u64| #[trigger] s0.tracks(data, seed) && data.len()
                + input@.len() <= u64::MAX implies s.tracks(
                data + input@,
                seed,
            ) by {
                lemma_tracks64(s0, *s, data, seed, input@, 0);
            }
        }
        return;
    }
    let mut l = Lanes64 { v1: s.v1, v2: s.v2, v3: s.v3, v4: s.v4 };
    let mut at: usize = 0;
    let ghost mut done: nat = 0;
    if ms > 0 {
        at = 32 - ms;
        buffer32(&mut s.mem, ms, input, 0, at);
        let ghost b = s.mem@;
        l = xxh64_stripe(l, &s.mem, 0);
        proof {
            assert forall|k: int| 0 <= k < 32 implies #[trigger] b[0 + k] == flow[0 + k] by {
                if k < ms {
                    assert(held[k] == s0.mem@[k]);
                }
            }
            lemma_stripe64_local(s0.lanes(), b, 0, flow, 0);
            assert(resume64(s0.lanes(), flow, 0) == s0.lanes());
            done = 1;
        }
    }
    let ghost s1 = *s;
    while len - at >= 32
        invariant
            at <= len,
            len == input.len(),
            flow == held + input@,
            held.len() == ms,
            ms < 32,
            32 * done == ms + at,
            l == resume64(s0.lanes(), flow, done),
            *s == s1,
        decreases len - at,
    {
        let ghost l0 = l;
        l = xxh64_stripe(l, input, at);
        proof {
            let j = 32 * done as int;
            assert forall|k: int| 0 <= k < 32 implies #[trigger] input@[at + k] == flow[j + k] by {
            }
            lemma_stripe64_local(l0, input@, at as int, flow, j);
            done = done + 1;
        }
        at = at + 32;
    }
    s.v1 = l.v1;
    s.v2 = l.v2;
    s.v3 = l.v3;
    s.v4 = l.v4;
    let left = len - at;
    buffer32(&mut s.mem, 0, input, at, left);
    s.memsize = left as u32;
    proof {
        assert(s.mem@.take(left as int) =~= flow.skip(32 * done as int));
        assert forall|data: Seq<u8>, seed: u64| #[trigger] s0.tracks(data, seed) && data.len()
                + input@.len() <= u64::MAX implies s.tracks(
            data + input@,
            seed,
        ) by {
            lemma_tracks64(s0, *s, data, seed, input@, done);
        }
    }
}

/// The hash of the input so far.
pub fn xxh64_digest(s: &Xxh64State) -> (h: u64)
    requires
        exists|data: Seq<u8>, seed: u64| s.tracks(data, seed),
    ensures
        forall|data: Seq<u8>, seed: u64| #[trigger]
            s.tracks(data, seed) ==> h == xxh64_spec(data, seed),
{
    let l = Lanes64 { v1: s.v1, v2: s.v2, v3: s.v3, v4: s.v4 };
    let h = if s.total_len >= 32 {
        xxh64_merge(l)
    } else {
        s.v3.wrapping_add(PRIME64_5)
    };
    let mem: &[u8] = &s.mem;
    let tail = &mem[0..s.memsize as usize];
    assert(tail@ =~= s.mem@.take(s.memsize as int));
    xxh64_finalize(h.wrapping_add(s.total_len), tail)
}

/// The bytes of a hash, high byte first.
pub fn xxh64_canonical_from_hash(hash: u64) -> (r: [u8; 8])
    ensures
        r@ == le64_bytes(hash).reverse(),
{
    let hi = xxh32_canonical_from_hash((hash / 0x1_0000_0000) as u32);
    let lo = xxh32_canonical_from_hash((hash % 0x1_0000_0000) as u32);
    let r = [hi[0], hi[1], hi[2], hi[3], lo[0], lo[1], lo[2], lo[3]];
    assert(r@ =~= le64_bytes(hash).reverse());
    r
}

/// The hash whose bytes, high byte first, are `src`.
pub fn xxh64_hash_from_canonical(src: &[u8; 8]) -> (h: u64)
    ensures
        h == le64(src@.reverse(), 0),
{
    let hi = xxh32_hash_from_canonical(&[src[0], src[1], src[2], src[3]]);
    let lo = xxh32_hash_from_canonical(&[src[4], src[5], src[6], src[7]]);
    lo as u64 + 0x1_0000_0000 * (hi as u64)
}

/// Reading a hash back from its bytes gives the hash.
pub proof fn law_canonical_inverse(h: u32, k: u64)
    ensures
        le32(le32_bytes(h).reverse().reverse(), 0) == h,
        le64(le64_bytes(k).reverse().reverse(), 0) == k,
{
    law_le_inverse(h, k);
    assert(le32_bytes(h).reverse().reverse() =~= le32_bytes(h));
    assert(le64_bytes(k).reverse().reverse() =~= le64_bytes(k));
}

} // verus!
