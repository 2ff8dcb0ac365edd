//! Which blocks decode at all: only those that are written as sequences and
//! literals.
use vstd::prelude::*;
use super::{
    decode, decode_from, enc_seq, enc_seqs, keeps_lead, le16, len_ext, literal_step, long_step,
    match_step, min_int, place_match, short_step, step, token, varlen, with_match, zeros,
    DecodeSetup, Decoded, Sq, Step, MINMATCH,
};

verus! {

/// What follows `out` once a sequence is read: a match of distance zero stands
/// for zeros.
pub open spec fn unrolled_by(hist: Seq<u8>, out: Seq<u8>, s: Sq) -> Seq<u8> {
    if s.off == 0 {
        out + s.lits + zeros(s.mlen as nat)
    } else {
        with_match(hist, out + s.lits, s.off, s.mlen)
    }
}

/// What several sequences are read as.
pub open spec fn unrolled(hist: Seq<u8>, seqs: Seq<Sq>) -> Seq<u8>
    decreases seqs.len(),
{
    if seqs.len() == 0 {
        Seq::empty()
    } else {
        unrolled_by(hist, unrolled(hist, seqs.drop_last()), seqs.last())
    }
}

/// Whether each match refers to no more than what is there.
pub open spec fn grounded(hist: Seq<u8>, seqs: Seq<Sq>) -> bool
    decreases seqs.len(),
{
    seqs.len() > 0 ==> {
        let s = seqs.last();
        let out = unrolled(hist, seqs.drop_last()) + s.lits;
        &&& grounded(hist, seqs.drop_last())
        &&& 0 <= s.off <= hist.len() + out.len()
        &&& s.off <= 65535
        &&& s.mlen >= MINMATCH
    }
}

/// The literals at the end of a block; the token has a match code that counts
/// for nothing.
pub open spec fn spelled(last: Seq<u8>, code: int) -> Seq<u8> {
    seq![token(last.len() as int, code)] + len_ext(last.len() as int) + last
}

/// Whether `src` is written as sequences and literals that are read as `out`.
pub open spec fn spells(hist: Seq<u8>, src: Seq<u8>, out: Seq<u8>) -> bool {
    exists|seqs: Seq<Sq>, last: Seq<u8>, code: int|
        {
            &&& src == #[trigger] enc_seqs(seqs) + #[trigger] spelled(last, code)
            &&& 0 <= code < 16
            &&& out == unrolled(hist, seqs) + last
            &&& grounded(hist, seqs)
        }
}

/// A length extension that was read is the one that is written.
proof fn lemma_varlen_spelled(src: Seq<u8>, ip: int, limit: int, acc: int)
    requires
        0 <= ip,
        limit <= src.len(),
        acc >= 0,
    ensures
        varlen(src, ip, limit, acc) matches (Some(v), e) ==> {
            &&& ip < e <= limit
            &&& v >= acc
            &&& src.subrange(ip, e) == len_ext(15 + v - acc)
        },
    decreases limit - ip,
{
    if ip < limit && acc + src[ip] <= usize::MAX {
        if src[ip] == 255 {
            lemma_varlen_spelled(src, ip + 1, limit, acc + 255);
            if let (Some(v), e) = varlen(src, ip, limit, acc) {
                assert(src.subrange(ip, e) =~= seq![255u8] + src.subrange(ip + 1, e));
                assert(len_ext(15 + v - acc) =~= seq![255u8] + len_ext(15 + v - acc - 255));
            }
        } else {
            assert(src.subrange(ip, ip + 1) =~= len_ext(15 + src[ip] as int));
        }
    }
}

/// A match that was read.
spec fn match_read(d: DecodeSetup, src: Seq<u8>, ml: int, off: int, ip: int, out: Seq<u8>, n: int, r: Step) -> bool {
    match r {
        Step::Stop(e) => !(e is Done),
        Step::Next { ip: ip2, out: out2, doubt } => {
            &&& doubt is None
            &&& ip <= ip2 <= src.len()
            &&& n >= MINMATCH
            &&& min_int(n - MINMATCH, 15) == ml
            &&& src.subrange(ip, ip2) == len_ext(n - MINMATCH)
            &&& off <= d.hist.len() + out.len()
            &&& out2 == if off == 0 {
                out + zeros(n as nat)
            } else {
                with_match(d.hist, out, off, n)
            }
        },
    }
}

proof fn lemma_match_read(d: DecodeSetup, src: Seq<u8>, ml: int, off: int, ip: int, out: Seq<u8>) -> (n: int)
    requires
        !d.partial,
        0 <= d.prefix <= d.hist.len(),
        0 <= ml <= 15,
        0 <= off,
        0 <= ip <= src.len(),
    ensures
        match_read(d, src, ml, off, ip, out, n, match_step(d, src, ml, off, ip, out, None)),
{
    reveal(match_step);
    reveal(place_match);
    if ml == 15 {
        lemma_varlen_spelled(src, ip, src.len() - 6, 0);
        match varlen(src, ip, src.len() - 6, 0) {
            (Some(v), e) => 15 + v + MINMATCH,
            _ => 0,
        }
    } else {
        assert(src.subrange(ip, ip) =~= len_ext(ml));
        ml + MINMATCH
    }
}

/// Whether a step has read the sequence `s`, or the last literals `s.lits`.
spec fn step_read(d: DecodeSetup, src: Seq<u8>, ip: int, out: Seq<u8>, s: Sq, r: Step) -> bool {
    match r {
        Step::Stop(Decoded::Done { out: out2, doubt: _ }) => {
            &&& src.skip(ip) == spelled(s.lits, src[ip] as int % 16)
            &&& out2 == out + s.lits
        },
        Step::Stop(_) => true,
        Step::Next { ip: ip2, out: out2, doubt } => {
            &&& doubt is None
            &&& ip < ip2 <= src.len()
            &&& src.subrange(ip, ip2) == enc_seq(s)
            &&& out2 == unrolled_by(d.hist, out, s)
            &&& 0 <= s.off <= 65535
            &&& s.off <= d.hist.len() + out.len() + s.lits.len()
            &&& s.mlen >= MINMATCH
        },
    }
}

/// Literals, and what follows them.
#[verifier::rlimit(40)]
proof fn lemma_sequence_read(d: DecodeSetup, src: Seq<u8>, ip: int, at: int, ll: int, out: Seq<u8>) -> (s: Sq)
    requires
        !d.partial,
        0 <= d.prefix <= d.hist.len(),
        0 <= ip < at,
        0 <= ll,
        at + ll + 2 <= src.len(),
        min_int(ll, 15) == src[ip] as int / 16,
        src.subrange(ip + 1, at) == len_ext(ll),
    ensures
        ({
            let ml = src[ip] as int % 16;
            let off = le16(src, at + ll);
            let out1 = out + src.subrange(at, at + ll);
            &&& s.off == off
            &&& s.lits == src.subrange(at, at + ll)
            &&& step_read(
                d,
                src,
                ip,
                out,
                s,
                match_step(d, src, ml, off, at + ll + 2, out1, None),
            )
        }),
{
    let ml = src[ip] as int % 16;
    let off = le16(src, at + ll);
    let lits = src.subrange(at, at + ll);
    let n = lemma_match_read(d, src, ml, off, at + ll + 2, out + lits);
    let s = Sq { lits, off, mlen: n };
    let r = match_step(d, src, ml, off, at + ll + 2, out + lits, None);
    if let Step::Next { ip: ip2, out: out2, doubt } = r {
        assert(token(ll, n - MINMATCH) == src[ip]);
        let two = seq![(off % 256) as u8, (off / 256) as u8];
        assert(src.subrange(at + ll, at + ll + 2) =~= two);
        assert(src.subrange(ip, ip2) =~= seq![src[ip]] + src.subrange(ip + 1, at) + lits
            + src.subrange(at + ll, at + ll + 2) + src.subrange(at + ll + 2, ip2));
    }
    s
}

/// A short match that is placed at once reads as any other.
proof fn lemma_short_read(d: DecodeSetup, src: Seq<u8>, ip: int, out: Seq<u8>) -> (s: Sq)
    requires
        !d.partial,
        0 <= d.prefix <= d.hist.len(),
        0 <= ip,
        ip + 17 < src.len(),
        src[ip] as int / 16 != 15,
    ensures
        step_read(d, src, ip, out, s, short_step(d, src, ip, out, None)),
{
    reveal(short_step);
    let ll = src[ip] as int / 16;
    let ml = src[ip] as int % 16;
    let at = ip + 1;
    assert(src.subrange(ip + 1, at) =~= len_ext(ll));
    let s = lemma_sequence_read(d, src, ip, at, ll, out);
    let off = le16(src, at + ll);
    let lits = src.subrange(at, at + ll);
    let out1 = out + lits;
    if keeps_lead(d, at + ll, out1.len() as int) && ml != 15 && 8 <= off <= d.prefix + out1.len() {
        let q = Sq { lits, off, mlen: ml + MINMATCH };
        let two = seq![(off % 256) as u8, (off / 256) as u8];
        assert(src.subrange(at + ll, at + ll + 2) =~= two);
        assert(src.subrange(ip, at + ll + 2) =~= seq![src[ip]] + src.subrange(at, at + ll) + two);
        assert(enc_seq(q) =~= seq![src[ip]] + lits + two);
        q
    } else {
        s
    }
}

proof fn lemma_long_read(d: DecodeSetup, src: Seq<u8>, ip: int, out: Seq<u8>) -> (s: Sq)
    requires
        !d.partial,
        0 <= d.prefix <= d.hist.len(),
        0 <= ip < src.len(),
    ensures
        step_read(d, src, ip, out, s, long_step(d, src, ip, out, None)),
{
    reveal(long_step);
    reveal(literal_step);
    let ll0 = src[ip] as int / 16;
    let (ext, at) = if ll0 == 15 {
        varlen(src, ip + 1, src.len() - 15, 0)
    } else {
        (Some(0), ip + 1)
    };
    if ll0 == 15 {
        lemma_varlen_spelled(src, ip + 1, src.len() - 15, 0);
    }
    match ext {
        None => arbitrary(),
        Some(v) => {
            let ll = ll0 + v;
            assert(src.subrange(ip + 1, at) =~= len_ext(ll));
            let left = src.len() - at;
            if ll + 12 <= d.cap - out.len() && ll + 8 <= left {
                lemma_sequence_read(d, src, ip, at, ll, out)
            } else {
                let lits = src.subrange(at, at + ll);
                if ll == left {
                    assert(token(ll, src[ip] as int % 16) == src[ip]);
                    assert(src.skip(ip) =~= seq![src[ip]] + src.subrange(ip + 1, at) + lits);
                }
                Sq { lits, off: 0, mlen: 0 }
            }
        },
    }
}

proof fn lemma_decode_from_spells(d: DecodeSetup, src: Seq<u8>, ip: int, out: Seq<u8>, seqs: Seq<Sq>)
    requires
        !d.partial,
        0 <= d.prefix <= d.hist.len(),
        0 <= ip <= src.len(),
        src.take(ip) == enc_seqs(seqs),
        out == unrolled(d.hist, seqs),
        grounded(d.hist, seqs),
    ensures
        decode_from(d, src, ip, out, None) matches Decoded::Done { out: r, doubt: _ } ==> spells(
            d.hist,
            src,
            r,
        ),
    decreases src.len() - ip,
{
    if ip < src.len() {
        let short = src[ip] as int / 16 != 15 && ip + 1 + 16 < src.len() && out.len() + 32 <= d.cap;
        let s = if short {
            lemma_short_read(d, src, ip, out)
        } else {
            lemma_long_read(d, src, ip, out)
        };
        match step(d, src, ip, out, None) {
            Step::Stop(Decoded::Done { out: r, doubt: _ }) => {
                let code = src[ip] as int % 16;
                assert(src =~= src.take(ip) + src.skip(ip));
                assert(src == enc_seqs(seqs) + spelled(s.lits, code));
            },
            Step::Stop(_) => {},
            Step::Next { ip: ip2, out: out2, doubt } => {
                let more = seqs.push(s);
                assert(more.drop_last() =~= seqs);
                assert(src.take(ip2) =~= src.take(ip) + src.subrange(ip, ip2));
                lemma_decode_from_spells(d, src, ip2, out2, more);
            },
        }
    }
}

/// Only blocks decode as a whole that are written as sequences and literals,
/// every byte of them accounted for, and they decode to what these are read
/// as: literals as they are, and matches as copies of what is there.
pub proof fn law_only_blocks(d: DecodeSetup, src: Seq<u8>)
    requires
        !d.partial,
        0 <= d.prefix <= d.hist.len(),
        0 <= d.cap,
    ensures
        decode(d, src) matches Decoded::Done { out, doubt: _ } ==> {
            &&& spells(d.hist, src, out)
            &&& d.lead is None ==> out.len() <= d.cap
        },
{
    let none = Seq::<Sq>::empty();
    let last = Seq::<u8>::empty();
    if d.cap == 0 {
        if src.len() == 1 && src[0] == 0 {
            assert(src =~= enc_seqs(none) + spelled(last, 0));
            assert(unrolled(d.hist, none) + last =~= Seq::<u8>::empty());
        }
    } else if src.len() > 0 {
        assert(src.take(0) =~= enc_seqs(none));
        lemma_decode_from_spells(d, src, 0, Seq::empty(), none);
    }
    if d.lead is None {
        super::lemma_whole(d, src);
    }
}

} // verus!
