//! The LZ4 block format as mathematics: what a compressed block means, which
//! bytes encode a parse, and the law that ties the two together.
use vstd::prelude::*;

pub mod accepted;
pub mod partial;

verus! {

/// Shortest match the format can express.
pub const MINMATCH: usize = 4;
/// A block ends with at least this many literals.
pub const LASTLITERALS: usize = 5;
/// The last match starts at least this many bytes before the end of the block.
pub const MFLIMIT: usize = 12;
/// The largest literal or match length code a token holds by itself.
pub const RUN_MASK: usize = 15;
/// The farthest back a match may reach.
pub const LZ4_DISTANCE_MAX: usize = 65535;

/// The 16-bit little-endian value at `at`.
pub open spec fn le16(s: Seq<u8>, at: int) -> int {
    s[at] + 256 * s[at + 1]
}

/// `w` followed by `n` bytes, each a copy of the byte `off` places before it.
pub open spec fn lz_copy(w: Seq<u8>, off: int, n: nat) -> Seq<u8>
    decreases n,
{
    if n == 0 {
        w
    } else {
        let p = lz_copy(w, off, (n - 1) as nat);
        p.push(p[p.len() - off])
    }
}

/// `n` zero bytes.
pub open spec fn zeros(n: nat) -> Seq<u8> {
    Seq::new(n, |i: int| 0u8)
}

pub open spec fn min_int(a: int, b: int) -> int {
    if a <= b { a } else { b }
}

/// The length extension that starts at `ip`: bytes are added up to and
/// including the first one that is not 255. `None` when no such byte is found
/// before `limit`, or when the sum does not fit a `usize`. The second
/// component is where reading stopped.
pub open spec fn varlen(src: Seq<u8>, ip: int, limit: int, acc: int) -> (Option<int>, int)
    decreases limit - ip,
{
    if ip >= limit {
        (None, ip)
    } else if acc + src[ip] > usize::MAX {
        (None, ip + 1)
    } else if src[ip] != 255 {
        (Some(acc + src[ip]), ip + 1)
    } else {
        varlen(src, ip + 1, limit, acc + src[ip])
    }
}

// ---------------------------------------------------------------------------
// Decoding
// ---------------------------------------------------------------------------

/// What surrounds a block being decoded.
#[verifier::ext_equal]
pub struct DecodeSetup {
    /// The bytes that precede the output, oldest first.
    pub hist: Seq<u8>,
    /// How many trailing bytes of `hist` sit directly before the output.
    pub prefix: int,
    /// Room for the output.
    pub cap: int,
    /// Whether decoding may stop once `cap` bytes are produced.
    pub partial: bool,
    /// For an input that shares the buffer with the output: how far the input
    /// starts after the output. `None` when the two do not overlap.
    pub lead: Option<int>,
}

/// How decoding a block ends.
#[verifier::ext_equal]
pub enum Decoded {
    /// `out` was produced. Where there is a `doubt`, the input held a match of
    /// distance zero in the tail of a partial decode: from there on only the
    /// length of `out` is determined.
    Done { out: Seq<u8>, doubt: Option<int> },
    /// The input is malformed, found after `consumed` bytes.
    Malformed { consumed: int },
    /// The output caught up with an input held in the same buffer.
    Overrun,
}

/// The bytes of an output that are determined.
pub open spec fn certain(out: Seq<u8>, doubt: Option<int>) -> Seq<u8> {
    match doubt {
        None => out,
        Some(k) => out.take(k),
    }
}

/// One sequence of a block: either decoding ends, or it goes on at `ip`.
#[verifier::ext_equal]
pub enum Step {
    Stop(Decoded),
    Next { ip: int, out: Seq<u8>, doubt: Option<int> },
}

/// Whether unread input from `ip` on lies behind everything that writing
/// `len` output bytes may touch.
pub open spec fn keeps_lead(d: DecodeSetup, ip: int, len: int) -> bool {
    match d.lead {
        None => true,
        Some(lead) => lead + ip >= min_int(len + 16, d.cap),
    }
}

/// `out` extended by a match.
pub open spec fn with_match(hist: Seq<u8>, out: Seq<u8>, off: int, n: int) -> Seq<u8> {
    lz_copy(hist + out, off, n as nat).skip(hist.len() as int)
}

/// A step that goes on, as long as the input is still intact.
pub open spec fn proceed(d: DecodeSetup, ip: int, out: Seq<u8>, doubt: Option<int>) -> Step {
    if keeps_lead(d, ip, out.len() as int) {
        Step::Next { ip, out, doubt }
    } else {
        Step::Stop(Decoded::Overrun)
    }
}

/// Writing a match of `len` bytes at distance `off`, read up to `ip`.
#[verifier::opaque]
pub open spec fn place_match(d: DecodeSetup, off: int, len: int, ip: int, out: Seq<u8>, doubt: Option<int>) -> Step {
    let room = d.cap - out.len();
    if off > d.hist.len() + out.len() {
        Step::Stop(Decoded::Malformed { consumed: ip })
    } else if off > d.prefix + out.len() {
        // The match starts in the part of the history held elsewhere.
        if len + LASTLITERALS <= room {
            proceed(d, ip, with_match(d.hist, out, off, len), doubt)
        } else if d.partial {
            proceed(d, ip, with_match(d.hist, out, off, min_int(len, room)), doubt)
        } else {
            Step::Stop(Decoded::Malformed { consumed: ip })
        }
    } else if d.partial && len + MFLIMIT > room {
        let n = min_int(len, room);
        let out2 = if off == 0 {
            out + zeros(n as nat)
        } else {
            with_match(d.hist, out, off, n)
        };
        let doubt2 = if doubt is None && off == 0 && n > 0 {
            Some(out.len() as int)
        } else {
            doubt
        };
        if n == room {
            Step::Stop(Decoded::Done { out: out2, doubt: doubt2 })
        } else {
            proceed(d, ip, out2, doubt2)
        }
    } else if len + LASTLITERALS > room {
        Step::Stop(Decoded::Malformed { consumed: ip })
    } else if off == 0 {
        proceed(d, ip, out + zeros(len as nat), doubt)
    } else {
        proceed(d, ip, with_match(d.hist, out, off, len), doubt)
    }
}

/// The match half of a sequence: token code `ml`, distance `off`, input
/// position `ip`, output so far `out`.
#[verifier::opaque]
pub open spec fn match_step(d: DecodeSetup, src: Seq<u8>, ml: int, off: int, ip: int, out: Seq<u8>, doubt: Option<int>) -> Step {
    let (ext, ip2) = if ml == 15 {
        varlen(src, ip, src.len() - 6, 0)
    } else {
        (Some(0), ip)
    };
    if ext is None || ml + ext->0 > usize::MAX {
        Step::Stop(Decoded::Malformed { consumed: ip2 })
    } else {
        place_match(d, off, ml + ext->0 + MINMATCH, ip2, out, doubt)
    }
}

/// What follows the literals of a sequence: the two distance bytes at `ip`,
/// then the match.
pub open spec fn after_literals(d: DecodeSetup, src: Seq<u8>, ml: int, ip: int, out: Seq<u8>, doubt: Option<int>) -> Step {
    if !keeps_lead(d, ip, out.len() as int) {
        Step::Stop(Decoded::Overrun)
    } else {
        match_step(d, src, ml, le16(src, ip), ip + 2, out, doubt)
    }
}

/// The sequence at `ip` when it is far from both ends: its literals are taken
/// without checking that the block could still end behind them.
#[verifier::opaque]
pub open spec fn short_step(d: DecodeSetup, src: Seq<u8>, ip: int, out: Seq<u8>, doubt: Option<int>) -> Step {
    let ll = src[ip] as int / 16;
    let ml = src[ip] as int % 16;
    let out1 = out + src.subrange(ip + 1, ip + 1 + ll);
    let at = ip + 1 + ll;
    let off = le16(src, at);
    if !keeps_lead(d, at, out1.len() as int) {
        Step::Stop(Decoded::Overrun)
    } else if ml != 15 && 8 <= off <= d.prefix + out1.len() {
        proceed(d, at + 2, with_match(d.hist, out1, off, ml + MINMATCH), doubt)
    } else {
        match_step(d, src, ml, off, at + 2, out1, doubt)
    }
}

/// The rest of a sequence with `ll` literals at `at` and match code `ml`.
#[verifier::opaque]
pub open spec fn literal_step(d: DecodeSetup, src: Seq<u8>, ll: int, ml: int, at: int, out: Seq<u8>, doubt: Option<int>) -> Step {
    let room = d.cap - out.len();
    let left = src.len() - at;
    if ll + MFLIMIT <= room && ll + 8 <= left {
        after_literals(d, src, ml, at + ll, out + src.subrange(at, at + ll), doubt)
    } else if d.partial {
        let n = min_int(min_int(ll, left), room);
        let out1 = out + src.subrange(at, at + n);
        if n == room || left - n <= 2 {
            Step::Stop(Decoded::Done { out: out1, doubt })
        } else {
            after_literals(d, src, ml, at + n, out1, doubt)
        }
    } else if ll != left || ll > room {
        Step::Stop(Decoded::Malformed { consumed: at })
    } else {
        Step::Stop(Decoded::Done { out: out + src.subrange(at, at + ll), doubt })
    }
}

/// The sequence at `ip` in general.
#[verifier::opaque]
pub open spec fn long_step(d: DecodeSetup, src: Seq<u8>, ip: int, out: Seq<u8>, doubt: Option<int>) -> Step {
    let ll0 = src[ip] as int / 16;
    let ml = src[ip] as int % 16;
    let (ext, at) = if ll0 == 15 {
        varlen(src, ip + 1, src.len() - 15, 0)
    } else {
        (Some(0), ip + 1)
    };
    if ext is None || ll0 + ext->0 > usize::MAX {
        Step::Stop(Decoded::Malformed { consumed: at })
    } else {
        literal_step(d, src, ll0 + ext->0, ml, at, out, doubt)
    }
}

/// The sequence at `ip`.
pub open spec fn step(d: DecodeSetup, src: Seq<u8>, ip: int, out: Seq<u8>, doubt: Option<int>) -> Step {
    if src[ip] as int / 16 != 15 && ip + 1 + 16 < src.len() && out.len() + 32 <= d.cap {
        short_step(d, src, ip, out, doubt)
    } else {
        long_step(d, src, ip, out, doubt)
    }
}

/// A sequence that is not the last leaves the unread input intact.
pub proof fn lemma_step_keeps_lead(d: DecodeSetup, src: Seq<u8>, ip: int, out: Seq<u8>, doubt: Option<int>)
    ensures
        step(d, src, ip, out, doubt) matches Step::Next { ip: ip2, out: out2, doubt: _ }
            ==> keeps_lead(d, ip2, out2.len() as int),
{
    reveal(match_step);
    reveal(place_match);
    reveal(short_step);
    reveal(literal_step);
    reveal(long_step);
}

/// Decoding from the sequence at `ip` on.
pub open spec fn decode_from(d: DecodeSetup, src: Seq<u8>, ip: int, out: Seq<u8>, doubt: Option<int>) -> Decoded
    decreases src.len() - ip,
{
    if !(0 <= ip < src.len()) {
        Decoded::Malformed { consumed: ip }
    } else {
        match step(d, src, ip, out, doubt) {
            Step::Stop(r) => r,
            Step::Next { ip: ip2, out: out2, doubt: doubt2 } => if ip < ip2 <= src.len() {
                decode_from(d, src, ip2, out2, doubt2)
            } else {
                Decoded::Malformed { consumed: ip2 }
            },
        }
    }
}

/// What the block `src` decodes to.
pub open spec fn decode(d: DecodeSetup, src: Seq<u8>) -> Decoded {
    if d.cap == 0 {
        if d.partial || (src.len() == 1 && src[0] == 0) {
            Decoded::Done { out: Seq::empty(), doubt: None }
        } else {
            Decoded::Malformed { consumed: 0 }
        }
    } else if src.len() == 0 {
        Decoded::Malformed { consumed: 0 }
    } else {
        decode_from(d, src, 0, Seq::empty(), None)
    }
}

/// A whole decode, from an input held elsewhere, is determined and fits its room.
proof fn lemma_whole_from(d: DecodeSetup, src: Seq<u8>, ip: int, out: Seq<u8>)
    requires
        !d.partial,
        d.lead is None,
    ensures
        match decode_from(d, src, ip, out, None) {
            Decoded::Done { out: r, doubt } => doubt is None && r.len() <= d.cap,
            Decoded::Malformed { consumed: _ } => true,
            Decoded::Overrun => false,
        },
    decreases src.len() - ip,
{
    if 0 <= ip < src.len() {
        let s = step(d, src, ip, out, None);
        assert(match s {
            Step::Stop(Decoded::Done { out: r, doubt }) => doubt is None && r.len() <= d.cap,
            Step::Stop(Decoded::Malformed { consumed: _ }) => true,
            Step::Stop(Decoded::Overrun) => false,
            Step::Next { ip: _, out: _, doubt } => doubt is None,
        }) by {
            reveal(match_step);
            reveal(place_match);
            reveal(short_step);
            reveal(literal_step);
            reveal(long_step);
            lemma_varlen(src, ip + 1, src.len() - 15, 0);
        }
        if let Step::Next { ip: ip2, out: out2, doubt: _ } = s {
            if ip < ip2 <= src.len() {
                lemma_whole_from(d, src, ip2, out2);
            }
        }
    }
}

/// Decoding a whole block, from an input held elsewhere, settles every byte
/// and stays within its room.
pub proof fn lemma_whole(d: DecodeSetup, src: Seq<u8>)
    requires
        !d.partial,
        d.lead is None,
        d.cap >= 0,
    ensures
        match decode(d, src) {
            Decoded::Done { out, doubt } => doubt is None && out.len() <= d.cap,
            Decoded::Malformed { consumed: _ } => true,
            Decoded::Overrun => false,
        },
{
    lemma_whole_from(d, src, 0, Seq::empty());
}

// ---------------------------------------------------------------------------
// Facts about copies
// ---------------------------------------------------------------------------

/// The byte at `i` equals the one `off` places before it.
pub open spec fn echoes(r: Seq<u8>, i: int, off: int) -> bool {
    r[i] == r[i - off]
}

pub proof fn lemma_lz_copy(w: Seq<u8>, off: int, n: nat)
    requires
        1 <= off <= w.len(),
    ensures
        lz_copy(w, off, n).len() == w.len() + n,
        lz_copy(w, off, n).take(w.len() as int) == w,
        forall|i: int| 0 <= i < w.len() ==> #[trigger] lz_copy(w, off, n)[i] == w[i],
        forall|i: int| w.len() <= i < w.len() + n ==> #[trigger] echoes(lz_copy(w, off, n), i, off),
    decreases n,
{
    if n > 0 {
        let p = lz_copy(w, off, (n - 1) as nat);
        lemma_lz_copy(w, off, (n - 1) as nat);
        let r = lz_copy(w, off, n);
        assert forall|i: int| w.len() <= i < w.len() + n implies #[trigger] echoes(r, i, off) by {
            if i < w.len() + n - 1 {
                assert(echoes(p, i, off));
            }
        }
        assert(r.take(w.len() as int) =~= p.take(w.len() as int));
    } else {
        assert(w.take(w.len() as int) =~= w);
    }
}

/// A sequence that starts with `w` and repeats itself at distance `off` from
/// there on is the copy.
pub proof fn lemma_lz_copy_unique(w: Seq<u8>, off: int, n: nat, r: Seq<u8>)
    requires
        1 <= off <= w.len(),
        r.len() == w.len() + n,
        forall|i: int| 0 <= i < w.len() ==> r[i] == w[i],
        forall|i: int| w.len() <= i < w.len() + n ==> #[trigger] echoes(r, i, off),
    ensures
        r == lz_copy(w, off, n),
    decreases n,
{
    lemma_lz_copy(w, off, n);
    if n == 0 {
        assert(r =~= w);
    } else {
        let r1 = r.drop_last();
        assert forall|i: int| w.len() <= i < w.len() + n - 1 implies #[trigger] echoes(r1, i, off) by {
            assert(echoes(r, i, off));
        }
        lemma_lz_copy_unique(w, off, (n - 1) as nat, r1);
        assert(echoes(r, r.len() - 1, off));
        assert(r =~= r1.push(r1[r1.len() - off]));
    }
}

pub proof fn lemma_varlen(src: Seq<u8>, ip: int, limit: int, acc: int)
    requires
        0 <= ip,
        limit <= src.len(),
        acc >= 0,
    ensures
        varlen(src, ip, limit, acc).1 >= ip,
        varlen(src, ip, limit, acc).1 <= limit || varlen(src, ip, limit, acc).1 == ip,
        varlen(src, ip, limit, acc).0 matches Some(v) ==> acc <= v <= usize::MAX && varlen(
            src,
            ip,
            limit,
            acc,
        ).1 > ip,
    decreases limit - ip,
{
    if ip < limit && acc + src[ip] <= usize::MAX && src[ip] == 255 {
        lemma_varlen(src, ip + 1, limit, acc + src[ip]);
    }
}

// ---------------------------------------------------------------------------
// Encoding
// ---------------------------------------------------------------------------

/// One sequence of a parse: literals, then a match of `mlen` bytes at distance
/// `off`.
#[verifier::ext_equal]
pub struct Sq {
    pub lits: Seq<u8>,
    pub off: int,
    pub mlen: int,
}

/// The extension bytes of a length code `n`.
pub open spec fn len_ext(n: int) -> Seq<u8> {
    if n < 15 {
        Seq::empty()
    } else {
        Seq::new(((n - 15) / 255) as nat, |i: int| 255u8).push(((n - 15) % 255) as u8)
    }
}

/// The token for a literal length and a match length code.
pub open spec fn token(ll: int, mc: int) -> u8 {
    (16 * min_int(ll, 15) + min_int(mc, 15)) as u8
}

/// The bytes of a sequence.
pub open spec fn enc_seq(s: Sq) -> Seq<u8> {
    seq![token(s.lits.len() as int, s.mlen - MINMATCH)] + len_ext(s.lits.len() as int) + s.lits
        + seq![(s.off % 256) as u8, (s.off / 256) as u8] + len_ext(s.mlen - MINMATCH)
}

/// The bytes of the literals that end a block.
pub open spec fn enc_last(lits: Seq<u8>) -> Seq<u8> {
    seq![token(lits.len() as int, 0)] + len_ext(lits.len() as int) + lits
}

/// The bytes of several sequences.
pub open spec fn enc_seqs(seqs: Seq<Sq>) -> Seq<u8>
    decreases seqs.len(),
{
    if seqs.len() == 0 {
        Seq::empty()
    } else {
        enc_seqs(seqs.drop_last()) + enc_seq(seqs.last())
    }
}

/// The bytes of a whole block.
pub open spec fn enc_block(seqs: Seq<Sq>, last: Seq<u8>) -> Seq<u8> {
    enc_seqs(seqs) + enc_last(last)
}

/// What several sequences stand for, after the history `hist`.
pub open spec fn content(hist: Seq<u8>, seqs: Seq<Sq>) -> Seq<u8>
    decreases seqs.len(),
{
    if seqs.len() == 0 {
        Seq::empty()
    } else {
        let s = seqs.last();
        with_match(hist, content(hist, seqs.drop_last()) + s.lits, s.off, s.mlen)
    }
}

/// Whether a sequence can follow the output `out`.
pub open spec fn seq_ok(hist: Seq<u8>, out: Seq<u8>, s: Sq) -> bool {
    &&& 1 <= s.off <= LZ4_DISTANCE_MAX
    &&& s.off <= hist.len() + out.len() + s.lits.len()
    &&& s.mlen >= MINMATCH
}

/// Whether each sequence only reaches back to what is there.
pub open spec fn seqs_ok(hist: Seq<u8>, seqs: Seq<Sq>) -> bool
    decreases seqs.len(),
{
    seqs.len() == 0 || {
        &&& seqs_ok(hist, seqs.drop_last())
        &&& seq_ok(hist, content(hist, seqs.drop_last()), seqs.last())
    }
}

/// Whether a block keeps to the rules at its end: the last five bytes are
/// literals, and the last match starts twelve bytes before the end.
pub open spec fn end_ok(seqs: Seq<Sq>, last: Seq<u8>) -> bool {
    seqs.len() > 0 ==> last.len() >= LASTLITERALS && seqs.last().mlen + last.len() >= MFLIMIT
}

/// Whether `block` is an encoding of `data` after the history `hist`.
pub open spec fn encodes(hist: Seq<u8>, block: Seq<u8>, data: Seq<u8>) -> bool {
    exists|seqs: Seq<Sq>, last: Seq<u8>|
        #![trigger enc_block(seqs, last)]
        {
            &&& block == enc_block(seqs, last)
            &&& data == content(hist, seqs) + last
            &&& seqs_ok(hist, seqs)
            &&& end_ok(seqs, last)
        }
}

proof fn lemma_varlen_ext(src: Seq<u8>, ip: int, n: int, limit: int, j: int)
    requires
        15 <= n <= usize::MAX,
        0 <= ip,
        ip + len_ext(n).len() <= limit <= src.len(),
        src.subrange(ip, ip + len_ext(n).len()) == len_ext(n),
        0 <= j <= (n - 15) / 255,
    ensures
        varlen(src, ip + j, limit, 255 * j) == (Some(n - 15), ip + len_ext(n).len()),
    decreases (n - 15) / 255 - j,
{
    let e = len_ext(n);
    assert(src[ip + j] == e[j]) by {
        assert(src.subrange(ip, ip + e.len())[j] == src[ip + j]);
    }
    if j < (n - 15) / 255 {
        lemma_varlen_ext(src, ip, n, limit, j + 1);
        assert(255 * (j + 1) == 255 * j + 255);
    }
}

/// Where the parts of an encoded sequence lie.
pub proof fn lemma_seq_layout(src: Seq<u8>, ip: int, s: Sq)
    requires
        0 <= ip,
        ip + enc_seq(s).len() <= src.len(),
        src.subrange(ip, ip + enc_seq(s).len()) == enc_seq(s),
        1 <= s.off <= LZ4_DISTANCE_MAX,
    ensures
        ({
            let ll = s.lits.len() as int;
            let mc = s.mlen - MINMATCH;
            let at = ip + 1 + len_ext(ll).len();
            let mp = at + ll + 2;
            &&& enc_seq(s).len() == 1 + len_ext(ll).len() + ll + 2 + len_ext(mc).len()
            &&& src[ip] == token(ll, mc)
            &&& src.subrange(ip + 1, at) == len_ext(ll)
            &&& src.subrange(at, at + ll) == s.lits
            &&& le16(src, at + ll) == s.off
            &&& src.subrange(mp, mp + len_ext(mc).len()) == len_ext(mc)
        }),
{
    let e = enc_seq(s);
    let ll = s.lits.len() as int;
    let mc = s.mlen - MINMATCH;
    let le = len_ext(ll);
    let me = len_ext(mc);
    let at = ip + 1 + le.len();
    let dp = at + ll;
    let mp = dp + 2;
    let o = seq![(s.off % 256) as u8, (s.off / 256) as u8];
    assert(e.len() == 1 + le.len() + ll + 2 + me.len());
    assert forall|k: int| 0 <= k < e.len() implies src[ip + k] == #[trigger] e[k] by {
        assert(src.subrange(ip, ip + e.len())[k] == src[ip + k]);
    }
    assert(src[ip] == e[0] && e[0] == token(ll, mc));
    assert(src.subrange(at, at + ll) =~= s.lits) by {
        assert forall|k: int| 0 <= k < ll implies src[at + k] == s.lits[k] by {
            assert(e[1 + le.len() + k] == s.lits[k]);
        }
    }
    assert(src.subrange(ip + 1, at) =~= le) by {
        assert forall|k: int| 0 <= k < le.len() implies src[ip + 1 + k] == le[k] by {
            assert(e[1 + k] == le[k]);
        }
    }
    assert(src.subrange(mp, mp + me.len()) =~= me) by {
        assert forall|k: int| 0 <= k < me.len() implies src[mp + k] == me[k] by {
            assert(e[1 + le.len() + ll + 2 + k] == me[k]);
        }
    }
    let k = 1 + le.len() + ll;
    assert(e[k] == o[0] && e[k + 1] == o[1]);
    assert(src[ip + k] == e[k] && src[ip + (k + 1)] == e[k + 1]);
    assert(dp == ip + k);
}

/// Decoding one encoded sequence.
proof fn lemma_step_seq(d: DecodeSetup, src: Seq<u8>, ip: int, out: Seq<u8>, s: Sq)
    requires
        !d.partial,
        keeps_lead(
            d,
            ip + 1 + len_ext(s.lits.len() as int).len() + s.lits.len(),
            (out.len() + s.lits.len()) as int,
        ),
        keeps_lead(d, ip + enc_seq(s).len(), out.len() + s.lits.len() + s.mlen),
        0 <= d.prefix <= d.hist.len(),
        d.cap <= usize::MAX,
        0 <= ip,
        ip + enc_seq(s).len() + 6 <= src.len(),
        src.subrange(ip, ip + enc_seq(s).len()) == enc_seq(s),
        seq_ok(d.hist, out, s),
        out.len() + s.lits.len() + MFLIMIT <= d.cap,
        out.len() + s.lits.len() + s.mlen + LASTLITERALS <= d.cap,
    ensures
        step(d, src, ip, out, None) == (Step::Next {
            ip: ip + enc_seq(s).len(),
            out: with_match(d.hist, out + s.lits, s.off, s.mlen),
            doubt: None,
        }),
{
    lemma_seq_layout(src, ip, s);
    let ll = s.lits.len() as int;
    let mc = s.mlen - MINMATCH;
    let at = ip + 1 + len_ext(ll).len();
    let mp = at + ll + 2;
    let out1 = out + s.lits;
    lemma_lz_copy(d.hist + out1, s.off, s.mlen as nat);
    let next = Step::Next {
        ip: ip + enc_seq(s).len(),
        out: with_match(d.hist, out1, s.off, s.mlen),
        doubt: None,
    };
    assert(match_step(d, src, min_int(mc, 15), s.off, mp, out1, None) == next) by {
        reveal(match_step);
        reveal(place_match);
        if mc >= 15 {
            lemma_varlen_ext(src, mp, mc, src.len() - 6, 0);
        }
    }
    if src[ip] as int / 16 != 15 && ip + 1 + 16 < src.len() && out.len() + 32 <= d.cap {
        reveal(short_step);
    } else {
        assert(literal_step(d, src, ll, min_int(mc, 15), at, out, None) == next) by {
            reveal(literal_step);
        }
        assert(long_step(d, src, ip, out, None) == next) by {
            reveal(long_step);
            if ll >= 15 {
                lemma_varlen_ext(src, ip + 1, ll, src.len() - 15, 0);
            }
        }
    }
}

/// Decoding the literals that end a block.
proof fn lemma_step_last(d: DecodeSetup, src: Seq<u8>, ip: int, out: Seq<u8>, last: Seq<u8>)
    requires
        !d.partial,
        d.cap <= usize::MAX,
        0 <= ip,
        ip + enc_last(last).len() == src.len(),
        src.subrange(ip, src.len() as int) == enc_last(last),
        out.len() + last.len() <= d.cap,
    ensures
        decode_from(d, src, ip, out, None) == (Decoded::Done { out: out + last, doubt: None }),
{
    reveal(short_step);
    reveal(long_step);
    reveal(literal_step);
    let e = enc_last(last);
    let ll = last.len() as int;
    let le = len_ext(ll);
    let at = ip + 1 + le.len();
    assert forall|k: int| 0 <= k < e.len() implies src[ip + k] == #[trigger] e[k] by {
        assert(src.subrange(ip, src.len() as int)[k] == src[ip + k]);
    }
    assert(src[ip] == e[0] && e[0] == token(ll, 0));
    assert(src.subrange(at, at + ll) =~= last) by {
        assert forall|k: int| 0 <= k < ll implies src[at + k] == last[k] by {
            assert(e[1 + le.len() + k] == last[k]);
        }
    }
    if ll >= 15 {
        assert(src.subrange(ip + 1, ip + 1 + le.len()) =~= le) by {
            assert forall|k: int| 0 <= k < le.len() implies src[ip + 1 + k] == le[k] by {
                assert(e[1 + k] == le[k]);
            }
        }
        lemma_varlen_ext(src, ip + 1, ll, src.len() - 15, 0);
    }
}

/// Whether an input of `len` bytes in the output's buffer starts so far behind
/// the output that decoding it to `total` bytes never catches up with it.
pub open spec fn leads_enough(d: DecodeSetup, len: int, total: int) -> bool {
    d.lead matches Some(lead) ==> lead + len >= total + len / 256 + 32
}

/// What is left of a block takes little more room than what it stands for.
proof fn lemma_rest_len(hist: Seq<u8>, seqs: Seq<Sq>, last: Seq<u8>, i: int)
    requires
        seqs_ok(hist, seqs),
        0 <= i <= seqs.len(),
    ensures
        ({
            let rest = enc_block(seqs, last).len() - enc_seqs(seqs.take(i)).len();
            let left = content(hist, seqs).len() + last.len() - content(hist, seqs.take(i)).len();
            0 <= rest && rest - left <= rest / 256 + 2
        }),
    decreases seqs.len() - i,
{
    if i == seqs.len() {
        assert(seqs.take(i) =~= seqs);
    } else {
        lemma_rest_len(hist, seqs, last, i + 1);
        lemma_content_grows(hist, seqs, i);
        let a = seqs.take(i);
        let b = seqs.take(i + 1);
        let s = seqs[i];
        assert(b.drop_last() =~= a);
        assert(b.last() == s);
        lemma_lz_copy(hist + (content(hist, a) + s.lits), s.off, s.mlen as nat);
    }
}

/// Decoding passes over the first sequences of a block.
proof fn lemma_decode_seqs(d: DecodeSetup, src: Seq<u8>, seqs: Seq<Sq>, last: Seq<u8>, i: int)
    requires
        !d.partial,
        leads_enough(
            d,
            src.len() as int,
            (content(d.hist, seqs).len() + last.len()) as int,
        ),
        0 <= d.prefix <= d.hist.len(),
        content(d.hist, seqs).len() + last.len() <= d.cap <= usize::MAX,
        src == enc_block(seqs, last),
        seqs_ok(d.hist, seqs),
        end_ok(seqs, last),
        0 <= i <= seqs.len(),
    ensures
        decode_from(d, src, 0, Seq::empty(), None) == decode_from(
            d,
            src,
            enc_seqs(seqs.take(i)).len() as int,
            content(d.hist, seqs.take(i)),
            None,
        ),
    decreases i,
{
    if i > 0 {
        lemma_decode_seqs(d, src, seqs, last, i - 1);
        lemma_prefix_facts(d.hist, seqs, last, i - 1);
        let a = seqs.take(i - 1);
        let s = seqs[i - 1];
        let ip = enc_seqs(a).len() as int;
        let out = content(d.hist, a);
        assert(seqs.take(i).drop_last() =~= a);
        assert(seqs.take(i).last() == s);
        lemma_rest_len(d.hist, seqs, last, i);
        lemma_lz_copy(d.hist + (out + s.lits), s.off, s.mlen as nat);
        lemma_step_seq(d, src, ip, out, s);
    }
}

/// What is known of the sequence at `i` inside a block.
#[verifier::rlimit(30)]
pub proof fn lemma_prefix_facts(hist: Seq<u8>, seqs: Seq<Sq>, last: Seq<u8>, i: int)
    requires
        seqs_ok(hist, seqs),
        end_ok(seqs, last),
        0 <= i < seqs.len(),
    ensures
        ({
            let a = seqs.take(i);
            let s = seqs[i];
            let src = enc_block(seqs, last);
            let ip = enc_seqs(a).len() as int;
            let out = content(hist, a);
            let total = content(hist, seqs).len() + last.len();
            &&& seq_ok(hist, out, s)
            &&& ip + enc_seq(s).len() + 6 <= src.len()
            &&& src.subrange(ip, ip + enc_seq(s).len()) == enc_seq(s)
            &&& out.len() + s.lits.len() + MFLIMIT <= total
            &&& out.len() + s.lits.len() + s.mlen + LASTLITERALS <= total
        }),
    decreases seqs.len(),
{
    let n = seqs.len() as int;
    let s = seqs[i];
    let a = seqs.take(i);
    let out = content(hist, a);
    lemma_enc_split(seqs, i);
    lemma_content_grows(hist, seqs, i);
    let src = enc_block(seqs, last);
    let ip = enc_seqs(a).len() as int;
    let b = seqs.take(i + 1);
    assert(b.drop_last() =~= a);
    assert(b.last() == s);
    lemma_enc_split(seqs, i + 1);
    assert(src.subrange(ip, ip + enc_seq(s).len()) =~= enc_seq(s)) by {
        assert(enc_seqs(b) == enc_seqs(a) + enc_seq(s));
        assert forall|k: int| 0 <= k < enc_seq(s).len() implies src[ip + k] == enc_seq(s)[k] by {
            assert(src[ip + k] == enc_seqs(seqs)[ip + k]);
            assert(enc_seqs(seqs)[ip + k] == enc_seqs(b)[ip + k]);
        }
    }
    lemma_content_grows(hist, seqs, i + 1);
    lemma_lz_copy(hist + (out + s.lits), s.off, s.mlen as nat);
    if i < n - 1 {
        // The last sequence starts no earlier than this one ends.
        let z = seqs.take(n - 1);
        let t = seqs[n - 1];
        assert(seqs.drop_last() =~= z);
        lemma_content_grows(hist, z, i + 1);
        assert(z.take(i + 1) =~= b);
        lemma_lz_copy(hist + (content(hist, z) + t.lits), t.off, t.mlen as nat);
    } else {
        assert(a =~= seqs.drop_last());
        assert(b =~= seqs);
    }
}

/// The bytes of the first sequences start the bytes of all.
proof fn lemma_enc_split(seqs: Seq<Sq>, i: int)
    requires
        0 <= i <= seqs.len(),
    ensures
        enc_seqs(seqs.take(i)).len() <= enc_seqs(seqs).len(),
        enc_seqs(seqs).take(enc_seqs(seqs.take(i)).len() as int) == enc_seqs(seqs.take(i)),
        forall|k: int|
            0 <= k < enc_seqs(seqs.take(i)).len() ==> #[trigger] enc_seqs(seqs)[k] == enc_seqs(
                seqs.take(i),
            )[k],
    decreases seqs.len(),
{
    if i == seqs.len() {
        assert(seqs.take(i) =~= seqs);
    } else {
        lemma_enc_split(seqs.drop_last(), i);
        assert(seqs.drop_last().take(i) =~= seqs.take(i));
        assert(enc_seqs(seqs).take(enc_seqs(seqs.take(i)).len() as int) =~= enc_seqs(
            seqs.drop_last(),
        ).take(enc_seqs(seqs.take(i)).len() as int));
    }
}

/// Sequences only add to what stands before them.
proof fn lemma_content_grows(hist: Seq<u8>, seqs: Seq<Sq>, i: int)
    requires
        seqs_ok(hist, seqs),
        0 <= i <= seqs.len(),
    ensures
        seqs_ok(hist, seqs.take(i)),
        i < seqs.len() ==> seq_ok(hist, content(hist, seqs.take(i)), seqs[i]),
        content(hist, seqs.take(i)).len() <= content(hist, seqs).len(),
    decreases seqs.len(),
{
    if i == seqs.len() {
        assert(seqs.take(i) =~= seqs);
    } else {
        let z = seqs.drop_last();
        let t = seqs.last();
        lemma_content_grows(hist, z, i);
        assert(z.take(i) =~= seqs.take(i));
        lemma_lz_copy(hist + (content(hist, z) + t.lits), t.off, t.mlen as nat);
        if i == seqs.len() - 1 {
            assert(seqs.take(i) =~= z);
        }
    }
}

/// Decoding an encoding gives the data back, whatever room beyond its length
/// is offered and wherever the history is held; also in place, where the input
/// ends far enough behind the end of the data.
pub proof fn law_round_trip(d: DecodeSetup, block: Seq<u8>, data: Seq<u8>)
    requires
        encodes(d.hist, block, data),
        !d.partial,
        leads_enough(d, block.len() as int, data.len() as int),
        0 <= d.prefix <= d.hist.len(),
        data.len() <= d.cap <= usize::MAX,
    ensures
        decode(d, block) == (Decoded::Done { out: data, doubt: None }),
{
    let (seqs, last) = choose|seqs: Seq<Sq>, last: Seq<u8>|
        #![trigger enc_block(seqs, last)]
        {
            &&& block == enc_block(seqs, last)
            &&& data == content(d.hist, seqs) + last
            &&& seqs_ok(d.hist, seqs)
            &&& end_ok(seqs, last)
        };
    let n = seqs.len() as int;
    assert(seqs.take(n) =~= seqs);
    lemma_decode_seqs(d, block, seqs, last, n);
    let ip = enc_seqs(seqs).len() as int;
    assert(block.subrange(ip, block.len() as int) =~= enc_last(last));
    lemma_step_last(d, block, ip, content(d.hist, seqs), last);
    if d.cap == 0 {
        if seqs.len() > 0 {
            lemma_prefix_facts(d.hist, seqs, last, n - 1);
        }
        assert(block =~= seq![0u8]);
        assert(data =~= Seq::empty());
    }
}

proof fn lemma_more_history(pre: Seq<u8>, hist: Seq<u8>, seqs: Seq<Sq>)
    requires
        seqs_ok(hist, seqs),
    ensures
        seqs_ok(pre + hist, seqs),
        content(pre + hist, seqs) == content(hist, seqs),
    decreases seqs.len(),
{
    if seqs.len() > 0 {
        let s = seqs.last();
        lemma_more_history(pre, hist, seqs.drop_last());
        let out = content(hist, seqs.drop_last()) + s.lits;
        let w = hist + out;
        let n = s.mlen as nat;
        let a = lz_copy(w, s.off, n);
        let b = pre + a;
        lemma_lz_copy(w, s.off, n);
        assert forall|i: int| pre.len() + w.len() <= i < pre.len() + w.len() + n implies #[trigger] echoes(
            b,
            i,
            s.off,
        ) by {
            assert(echoes(a, i - pre.len(), s.off));
        }
        assert((pre + hist) + out =~= pre + w);
        lemma_lz_copy_unique(pre + w, s.off, n, b);
        assert(b.skip((pre + hist).len() as int) =~= a.skip(hist.len() as int));
    }
}

/// An encoding stays one when more history precedes it.
pub proof fn law_more_history(pre: Seq<u8>, hist: Seq<u8>, block: Seq<u8>, data: Seq<u8>)
    requires
        encodes(hist, block, data),
    ensures
        encodes(pre + hist, block, data),
{
    let (seqs, last) = choose|seqs: Seq<Sq>, last: Seq<u8>|
        #![trigger enc_block(seqs, last)]
        {
            &&& block == enc_block(seqs, last)
            &&& data == content(hist, seqs) + last
            &&& seqs_ok(hist, seqs)
            &&& end_ok(seqs, last)
        };
    lemma_more_history(pre, hist, seqs);
    assert(block == enc_block(seqs, last));
}

} // verus!
