//! Moving bytes about inside and between buffers.
use vstd::prelude::*;

verus! {

/// `b` with the bytes from `at` on replaced by `x`.
pub open spec fn splice(b: Seq<u8>, at: int, x: Seq<u8>) -> Seq<u8> {
    Seq::new(b.len(), |i: int| if at <= i < at + x.len() { x[i - at] } else { b[i] })
}

/// Whether `a` and `b` have one length and agree outside `[from, to)`.
pub open spec fn same_outside(a: Seq<u8>, b: Seq<u8>, from: int, to: int) -> bool {
    &&& a.len() == b.len()
    &&& forall|i: int| 0 <= i < a.len() && !(from <= i < to) ==> #[trigger] a[i] == b[i]
}

/// Copies `n` bytes of `src` from `from` on to `buf` at `at`.
pub fn copy_from(buf: &mut [u8], at: usize, src: &[u8], from: usize, n: usize)
    requires
        at + n <= old(buf).len(),
        from + n <= src.len(),
    ensures
        final(buf)@ == splice(old(buf)@, at as int, src@.subrange(from as int, from + n)),
{
    let mut i: usize = 0;
    while i < n
        invariant
            0 <= i <= n,
            at + n <= buf.len(),
            buf.len() == old(buf).len(),
            from + n <= src.len(),
            buf@ == splice(old(buf)@, at as int, src@.subrange(from as int, from + i)),
        decreases n - i,
    {
        buf[at + i] = src[from + i];
        i = i + 1;
        assert(buf@ =~= splice(old(buf)@, at as int, src@.subrange(from as int, from + i)));
    }
}

/// Copies `n` bytes inside `buf` from `from` to `at`; the two may overlap, and
/// the bytes read are those held before the call.
pub fn copy_within(buf: &mut [u8], from: usize, at: usize, n: usize)
    requires
        at + n <= old(buf).len(),
        from + n <= old(buf).len(),
    ensures
        final(buf)@ == splice(old(buf)@, at as int, old(buf)@.subrange(from as int, from + n)),
{
    let ghost b0 = buf@;
    if at <= from {
        let mut i: usize = 0;
        while i < n
            invariant
                0 <= i <= n,
                at <= from,
                at + n <= buf.len(),
                from + n <= buf.len(),
                buf@ == splice(b0, at as int, b0.subrange(from as int, from + i)),
                buf.len() == b0.len(),
            decreases n - i,
        {
            let v = buf[from + i];
            buf[at + i] = v;
            i = i + 1;
            assert(buf@ =~= splice(b0, at as int, b0.subrange(from as int, from + i)));
        }
    } else {
        let mut i: usize = n;
        while i > 0
            invariant
                0 <= i <= n,
                from < at,
                at + n <= buf.len(),
                from + n <= buf.len(),
                buf@ == splice(b0, at + i, b0.subrange(from + i, from + n)),
                buf.len() == b0.len(),
            decreases i,
        {
            i = i - 1;
            let v = buf[from + i];
            buf[at + i] = v;
            assert(buf@ =~= splice(b0, at + i, b0.subrange(from + i, from + n)));
        }
        assert(buf@ =~= splice(b0, at as int, b0.subrange(from as int, from + n)));
    }
    assert(buf@ =~= splice(b0, at as int, b0.subrange(from as int, from + n)));
}

/// Sets `buf[from..to]` to `v`.
pub fn fill(buf: &mut [u8], from: usize, to: usize, v: u8)
    requires
        from <= to <= old(buf).len(),
    ensures
        final(buf)@ == splice(old(buf)@, from as int, Seq::new((to - from) as nat, |i: int| v)),
{
    let mut i: usize = from;
    while i < to
        invariant
            from <= i <= to <= buf.len(),
            buf@ == splice(old(buf)@, from as int, Seq::new((i - from) as nat, |j: int| v)),
            buf.len() == old(buf).len(),
        decreases to - i,
    {
        buf[i] = v;
        i = i + 1;
        assert(buf@ =~= splice(old(buf)@, from as int, Seq::new((i - from) as nat, |j: int| v)));
    }
}

/// The 32-bit value at `at`, low byte first.
pub open spec fn le32(s: Seq<u8>, at: int) -> u32 {
    (s[at] + 0x100 * s[at + 1] + 0x1_0000 * s[at + 2] + 0x100_0000 * s[at + 3]) as u32
}

/// The 64-bit value at `at`, low byte first.
pub open spec fn le64(s: Seq<u8>, at: int) -> u64 {
    (le32(s, at) + 0x1_0000_0000 * le32(s, at + 4)) as u64
}

pub fn read_le32(s: &[u8], at: usize) -> (v: u32)
    requires
        at + 4 <= s.len(),
    ensures
        v == le32(s@, at as int),
{
    s[at] as u32 + 0x100 * (s[at + 1] as u32) + 0x1_0000 * (s[at + 2] as u32) + 0x100_0000 * (s[at
        + 3] as u32)
}

pub fn read_le64(s: &[u8], at: usize) -> (v: u64)
    requires
        at + 8 <= s.len(),
    ensures
        v == le64(s@, at as int),
{
    read_le32(s, at) as u64 + 0x1_0000_0000 * (read_le32(s, at + 4) as u64)
}

/// The four bytes of `v`, low byte first.
pub open spec fn le32_bytes(v: u32) -> Seq<u8> {
    seq![
        (v % 0x100) as u8,
        (v / 0x100 % 0x100) as u8,
        (v / 0x1_0000 % 0x100) as u8,
        (v / 0x100_0000) as u8,
    ]
}

/// The eight bytes of `v`, low byte first.
pub open spec fn le64_bytes(v: u64) -> Seq<u8> {
    le32_bytes((v % 0x1_0000_0000) as u32) + le32_bytes((v / 0x1_0000_0000) as u32)
}

pub fn write_le32(buf: &mut [u8], at: usize, v: u32)
    requires
        at + 4 <= old(buf).len(),
    ensures
        final(buf)@ == splice(old(buf)@, at as int, le32_bytes(v)),
{
    buf[at] = (v % 0x100) as u8;
    buf[at + 1] = (v / 0x100 % 0x100) as u8;
    buf[at + 2] = (v / 0x1_0000 % 0x100) as u8;
    buf[at + 3] = (v / 0x100_0000) as u8;
    assert(buf@ =~= splice(old(buf)@, at as int, le32_bytes(v)));
}

pub fn write_le64(buf: &mut [u8], at: usize, v: u64)
    requires
        at + 8 <= old(buf).len(),
    ensures
        final(buf)@ == splice(old(buf)@, at as int, le64_bytes(v)),
{
    let ghost b0 = buf@;
    write_le32(buf, at, (v % 0x1_0000_0000) as u32);
    write_le32(buf, at + 4, (v / 0x1_0000_0000) as u32);
    assert(buf@ =~= splice(b0, at as int, le64_bytes(v)));
}

/// Reading gives back what writing wrote.
pub proof fn law_le_inverse(v: u32, w: u64)
    ensures
        le32(le32_bytes(v), 0) == v,
        le64(le64_bytes(w), 0) == w,
{
    let lo = (w % 0x1_0000_0000) as u32;
    let hi = (w / 0x1_0000_0000) as u32;
    let b = le64_bytes(w);
    lemma_le32(v);
    lemma_le32(lo);
    lemma_le32(hi);
    assert(le32(b, 0) == le32(le32_bytes(lo), 0));
    assert(le32(b, 4) == le32(le32_bytes(hi), 0));
}

#[verifier::rlimit(30)]
proof fn lemma_le32(v: u32)
    ensures
        le32(le32_bytes(v), 0) == v,
{
    let b = le32_bytes(v);
    assert(b[0] == v % 0x100 && b[1] == v / 0x100 % 0x100 && b[2] == v / 0x1_0000 % 0x100 && b[3]
        == v / 0x100_0000);
}

/// Writing gives back what reading read.
pub proof fn law_le_bytes(s: Seq<u8>, at: int)
    requires
        0 <= at,
        at + 4 <= s.len(),
    ensures
        le32_bytes(le32(s, at)) == s.subrange(at, at + 4),
        at + 8 <= s.len() ==> le64_bytes(le64(s, at)) == s.subrange(at, at + 8),
{
    lemma_le32_bytes(s, at);
    if at + 8 <= s.len() {
        lemma_le32_bytes(s, at + 4);
        lemma_halves(le32(s, at), le32(s, at + 4));
        assert(s.subrange(at, at + 8) =~= s.subrange(at, at + 4) + s.subrange(at + 4, at + 8));
    }
}

proof fn lemma_halves(a: u32, b: u32)
    ensures
        ({
            let w = (a + 0x1_0000_0000 * b) as u64;
            le64_bytes(w) == le32_bytes(a) + le32_bytes(b)
        }),
{
    let w = (a + 0x1_0000_0000 * b) as u64;
    assert(w == a + 0x1_0000_0000 * b);
    assert(w % 0x1_0000_0000 == a);
    assert(w / 0x1_0000_0000 == b);
}

#[verifier::rlimit(30)]
proof fn lemma_le32_bytes(s: Seq<u8>, at: int)
    requires
        0 <= at,
        at + 4 <= s.len(),
    ensures
        le32_bytes(le32(s, at)) == s.subrange(at, at + 4),
{
    let v = le32(s, at);
    assert(v == s[at] + 0x100 * s[at + 1] + 0x1_0000 * s[at + 2] + 0x100_0000 * s[at + 3]);
    assert(v % 0x100 == s[at]);
    assert(v / 0x100 % 0x100 == s[at + 1]);
    assert(v / 0x1_0000 % 0x100 == s[at + 2]);
    assert(v / 0x100_0000 == s[at + 3]);
    assert(le32_bytes(v) =~= s.subrange(at, at + 4));
}

} // verus!
