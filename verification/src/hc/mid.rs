//! The lower levels: positions are found again by a hash of their first eight
//! bytes or, failing that, of their first four.
use vstd::prelude::*;
use crate::bytes::{le32, le64, read_le32, read_le64};
use crate::format::{enc_seqs, min_int, LZ4_DISTANCE_MAX, MFLIMIT, MINMATCH};
use super::output::{dest_overflow, encode_sequence, gave, last_literals, Done, Draft};
use super::scene::{
    agree, agree_back, count_back, count_match, in_order, lemma_agree, lemma_agree_back, scene_of,
    MidDictCtx, Scene, SrcView,
};
use super::{Limit, LZ4MID_HASHTABLESIZE};

verus! {

/// A hash of four bytes.
pub open spec fn mid_hash4_spec(v: u32) -> usize {
    (v.wrapping_mul(2654435761u32) >> 18u32) as usize
}

/// A hash of the low seven of eight bytes.
pub open spec fn mid_hash7_spec(v: u64) -> usize {
    ((v << 8u64).wrapping_mul(58295818150454627u64) >> 50u64) as usize
}

/// A hash of four bytes.
pub fn mid_hash4(v: u32) -> (h: usize)
    ensures
        h == mid_hash4_spec(v),
        h < LZ4MID_HASHTABLESIZE,
{
    let w = v.wrapping_mul(2654435761);
    assert(w >> 18u32 < 16384) by (bit_vector);
    (w >> 18) as usize
}

/// A hash of the low seven of eight bytes.
pub fn mid_hash7(v: u64) -> (h: usize)
    ensures
        h == mid_hash7_spec(v),
        h < LZ4MID_HASHTABLESIZE,
{
    let w = (v << 8).wrapping_mul(58295818150454627);
    assert(w >> 50u64 < 16384) by (bit_vector);
    (w >> 50) as usize
}

/// Where the four bytes at `at` are entered.
#[verifier::opaque]
pub open spec fn slot4(s: Seq<u8>, at: int) -> int {
    mid_hash4_spec(le32(s, at)) as int
}

/// Where the eight bytes at `at` are entered.
#[verifier::opaque]
pub open spec fn slot8(s: Seq<u8>, at: int) -> int {
    mid_hash7_spec(le64(s, at)) as int
}

pub proof fn lemma_slots(s: Seq<u8>, at: int)
    ensures
        0 <= slot4(s, at) < LZ4MID_HASHTABLESIZE,
        0 <= slot8(s, at) < LZ4MID_HASHTABLESIZE,
{
    reveal(slot4);
    reveal(slot8);
    let w = le32(s, at).wrapping_mul(2654435761u32);
    assert(w >> 18u32 < 16384) by (bit_vector);
    let x = (le64(s, at) << 8u64).wrapping_mul(58295818150454627u64);
    assert(x >> 50u64 < 16384) by (bit_vector);
}

fn slot4_at(s: &[u8], at: usize) -> (h: usize)
    requires
        at + 4 <= s.len(),
    ensures
        h == slot4(s@, at as int),
        h < LZ4MID_HASHTABLESIZE,
{
    reveal(slot4);
    mid_hash4(read_le32(s, at))
}

fn slot8_at(s: &[u8], at: usize) -> (h: usize)
    requires
        at + 8 <= s.len(),
    ensures
        h == slot8(s@, at as int),
        h < LZ4MID_HASHTABLESIZE,
{
    reveal(slot8);
    mid_hash7(read_le64(s, at))
}

/// The two tables.
#[verifier::ext_equal]
pub struct MidTables {
    pub four: Seq<u32>,
    pub eight: Seq<u32>,
}

impl MidTables {
    pub open spec fn wf(self) -> bool {
        &&& self.four.len() == LZ4MID_HASHTABLESIZE
        &&& self.eight.len() == LZ4MID_HASHTABLESIZE
    }

    /// Enters the four bytes at `at` under an index, if there are as many.
    pub open spec fn add4(self, s: Seq<u8>, at: int, index: int) -> MidTables {
        if at + 4 <= s.len() {
            MidTables { four: self.four.update(slot4(s, at), index as u32), ..self }
        } else {
            self
        }
    }

    /// Enters the eight bytes at `at` under an index, if there are as many.
    pub open spec fn add8(self, s: Seq<u8>, at: int, index: int) -> MidTables {
        if at + 8 <= s.len() {
            MidTables { eight: self.eight.update(slot8(s, at), index as u32), ..self }
        } else {
            self
        }
    }
}

/// Enters the four bytes at `pos` under an index, if there are as many.
fn add_pos4(four: &mut [u32], s: &[u8], pos: usize, index: u32, Ghost(t): Ghost<MidTables>)
    requires
        old(four)@ == t.four,
        old(four)@.len() == LZ4MID_HASHTABLESIZE,
        pos <= s.len(),
    ensures
        final(four)@ == t.add4(s@, pos as int, index as int).four,
        final(four)@.len() == LZ4MID_HASHTABLESIZE,
{
    if MINMATCH <= s.len() - pos {
        let h = slot4_at(s, pos);
        four[h] = index;
    }
}

/// Enters the eight bytes at `pos` under an index, if there are as many.
fn add_pos8(eight: &mut [u32], s: &[u8], pos: usize, index: u32, Ghost(t): Ghost<MidTables>)
    requires
        old(eight)@ == t.eight,
        old(eight)@.len() == LZ4MID_HASHTABLESIZE,
        pos <= s.len(),
    ensures
        final(eight)@ == t.add8(s@, pos as int, index as int).eight,
        final(eight)@.len() == LZ4MID_HASHTABLESIZE,
{
    if 8 <= s.len() - pos {
        let h = slot8_at(s, pos);
        eight[h] = index;
    }
}

/// A match that is taken.
#[verifier::ext_equal]
pub struct Pick {
    pub ip: int,
    pub mlen: int,
    pub off: int,
}

/// How far a parse has come.
#[verifier::ext_equal]
pub struct Mid {
    pub t: MidTables,
    pub d: Draft,
    pub ip: int,
}

/// What a position leads to.
#[verifier::ext_equal]
pub enum MidNext {
    /// The block ends.
    End(Done, MidTables),
    /// The parse goes on.
    Go(Mid),
}

impl Scene {
    /// How long a match at `ip` with the bytes at index `pos` is.
    #[verifier::opaque]
    pub open spec fn reach(self, ip: int, pos: int) -> int {
        let dist = self.prefix + ip - pos;
        if !(1 <= dist <= LZ4_DISTANCE_MAX) {
            0
        } else if pos >= self.prefix {
            agree(self.base, ip, self.base, pos - self.prefix, self.matchlimit())
        } else if pos >= self.low {
            agree(self.base, ip, self.dict, pos - self.low, self.matchlimit())
        } else {
            0
        }
    }

    /// How far back the byte with index `l` of the attached dictionary is from
    /// `ip`.
    pub open spec fn far_distance(self, ip: int, l: int) -> int {
        self.prefix + ip - self.low + self.attached->0.end() - l
    }

    /// How long a match at `ip` with the bytes at index `l` of the attached
    /// dictionary is.
    #[verifier::opaque]
    pub open spec fn far_reach(self, ip: int, l: int) -> int {
        let a = self.attached->0;
        if a.limit <= l < a.end() && self.far_distance(ip, l) <= LZ4_DISTANCE_MAX {
            agree(self.base, ip, a.bytes, l - a.limit, self.matchlimit())
        } else {
            0
        }
    }

    /// The match at `ip` with the attached dictionary.
    #[verifier::opaque]
    pub open spec fn far_pick(self, ip: int) -> Option<Pick> {
        if self.attached is Some && self.prefix + ip - self.low < LZ4_DISTANCE_MAX - 8 {
            let a = self.attached->0;
            let l8 = a.hash[LZ4MID_HASHTABLESIZE + slot8(self.base, ip)] as int;
            let l4 = a.hash[slot4(self.base, ip)] as int;
            if self.far_reach(ip, l8) >= MINMATCH {
                Some(Pick { ip, mlen: self.far_reach(ip, l8), off: self.far_distance(ip, l8) })
            } else if self.far_reach(ip, l4) >= MINMATCH {
                Some(Pick { ip, mlen: self.far_reach(ip, l4), off: self.far_distance(ip, l4) })
            } else {
                None
            }
        } else {
            None
        }
    }

    /// A match of four bytes was found at `ip`: a longer one at the position
    /// behind it is taken instead.
    pub open spec fn peeked(self, t: MidTables, ip: int, n: int, pos: int) -> (Pick, MidTables) {
        let s = slot8(self.base, ip + 1);
        let p = t.eight[s] as int;
        let n2 = if p >= self.prefix && ip < self.mflimit() {
            self.reach(ip + 1, p)
        } else {
            0
        };
        if pos >= self.prefix && n2 > n {
            (
                Pick { ip: ip + 1, mlen: n2, off: self.prefix + ip + 1 - p },
                MidTables { eight: t.eight.update(s, (self.prefix + ip + 1) as u32), ..t },
            )
        } else {
            (Pick { ip, mlen: n, off: self.prefix + ip - pos }, t)
        }
    }

    /// The match at `ip`, and the tables once `ip` is entered: the eight bytes
    /// are looked up first, then the four, then the attached dictionary.
    #[verifier::opaque]
    pub open spec fn pick(self, t: MidTables, ip: int) -> (Option<Pick>, MidTables) {
        let index = (self.prefix + ip) as u32;
        let s8 = slot8(self.base, ip);
        let p8 = t.eight[s8] as int;
        let t1 = MidTables { eight: t.eight.update(s8, index), ..t };
        let n8 = self.reach(ip, p8);
        if n8 >= MINMATCH {
            (Some(Pick { ip, mlen: n8, off: self.prefix + ip - p8 }), t1)
        } else {
            let s4 = slot4(self.base, ip);
            let p4 = t1.four[s4] as int;
            let t2 = MidTables { four: t1.four.update(s4, index), ..t1 };
            let n4 = self.reach(ip, p4);
            if n4 >= MINMATCH {
                let (p, t3) = self.peeked(t2, ip, n4, p4);
                (Some(p), t3)
            } else {
                (self.far_pick(ip), t2)
            }
        }
    }

    /// How many bytes before a match at `ip` it can be extended by.
    pub open spec fn caught(self, ip: int, off: int, anchor: int) -> int {
        let n = min_int(
            ip - anchor,
            if ip > off {
                ip - off
            } else {
                0
            },
        );
        agree_back(self.base, ip, self.base, ip - off, n)
    }

    /// The tables with the beginning of a match at `at` entered, under indices
    /// that follow `index`.
    #[verifier::opaque]
    pub open spec fn opening(self, t: MidTables, at: int, index: int) -> MidTables {
        t.add8(self.base, at + 1, index + 1).add8(self.base, at + 2, index + 2).add4(
            self.base,
            at + 1,
            index + 1,
        )
    }

    /// The tables with the end of a match at `ip` entered.
    #[verifier::opaque]
    pub open spec fn closing(self, t: MidTables, ip: int) -> MidTables {
        let i = self.prefix + ip;
        let b = self.base;
        if ip - 2 < self.len() - 8 {
            let t1 = if ip > 5 {
                t.add8(b, ip - 5, i - 5)
            } else {
                t
            };
            t1.add8(b, ip - 3, i - 3).add8(b, ip - 2, i - 2).add4(b, ip - 2, i - 2).add4(
                b,
                ip - 1,
                i - 1,
            )
        } else {
            t
        }
    }

    /// What a position leads to, where a match may start.
    #[verifier::opaque]
    pub open spec fn mid_step(self, limit: Limit, room: int, s: Mid) -> MidNext {
        match self.pick(s.t, s.ip) {
            (None, t) => MidNext::Go(Mid { t, ip: s.ip + 1 + (s.ip - s.d.anchor) / 512, ..s }),
            (Some(p), t) => {
                let k = self.caught(p.ip, p.off, s.d.anchor);
                let at = p.ip - k;
                let n = p.mlen + k;
                let t2 = self.opening(t, at, self.prefix + s.ip);
                if s.d.takes(limit, room, at, n) {
                    MidNext::Go(
                        Mid {
                            t: self.closing(t2, at + n),
                            d: s.d.with(self.base, at, n, p.off),
                            ip: at + n,
                        },
                    )
                } else {
                    MidNext::End(
                        s.d.cut_short(self.base, self.start, limit, room, at, n, p.off),
                        t2,
                    )
                }
            },
        }
    }

    /// The parse from `s` on.
    pub open spec fn mid_run(self, limit: Limit, room: int, s: Mid) -> (Done, MidTables)
        decreases
            if s.ip > self.mflimit() {
                0
            } else {
                self.mflimit() - s.ip + 1
            },
    {
        if s.ip > self.mflimit() {
            (s.d.finish(self.base, self.start, limit, room), s.t)
        } else {
            match self.mid_step(limit, room, s) {
                MidNext::End(done, t) => (done, t),
                MidNext::Go(next) => if next.ip > s.ip {
                    self.mid_run(limit, room, next)
                } else {
                    (Done { block: None, consumed: 0 }, next.t)
                },
            }
        }
    }

    /// What becomes of the block, and the tables afterwards.
    pub open spec fn mid_outcome(self, t: MidTables, limit: Limit, room: int) -> (Done, MidTables) {
        let d = Draft { seqs: Seq::empty(), anchor: self.start };
        if self.len() - self.start < MFLIMIT + 1 {
            (d.finish(self.base, self.start, limit, room), t)
        } else {
            self.mid_run(limit, room, Mid { t, d, ip: self.start })
        }
    }

    /// A reach is within the block, and within reach.
    pub proof fn lemma_reach(self, ip: int, pos: int)
        requires
            self.wf(),
            0 <= ip,
        ensures
            0 <= self.reach(ip, pos),
            self.reach(ip, pos) > 0 ==> {
                &&& ip + self.reach(ip, pos) <= self.matchlimit()
                &&& 1 <= self.prefix + ip - pos <= LZ4_DISTANCE_MAX
                &&& self.repeats(ip, self.prefix + ip - pos, self.reach(ip, pos))
            },
    {
        reveal(Scene::reach);
        let off = self.prefix + ip - pos;
        let n = self.reach(ip, pos);
        if n > 0 {
            let w = self.whole();
            if pos >= self.prefix {
                lemma_agree(self.base, ip, self.base, pos - self.prefix, self.matchlimit());
                assert forall|k: int| 0 <= k < n implies #[trigger] self.base[ip + k]
                    == w[self.lead() + ip - off + k] by {
                    assert(self.base[ip + k] == self.base[(pos - self.prefix) + k]);
                }
            } else {
                lemma_agree(self.base, ip, self.dict, pos - self.low, self.matchlimit());
                assert forall|k: int| 0 <= k < n implies #[trigger] self.base[ip + k]
                    == w[self.lead() + ip - off + k] by {
                    assert(self.base[ip + k] == self.dict[(pos - self.low) + k]);
                }
            }
        } else {
            lemma_agree(self.base, ip, self.base, pos - self.prefix, self.matchlimit());
            lemma_agree(self.base, ip, self.dict, pos - self.low, self.matchlimit());
        }
    }

    pub proof fn lemma_far_reach(self, ip: int, l: int)
        requires
            self.wf(),
            self.attached is Some,
            0 <= ip,
        ensures
            0 <= self.far_reach(ip, l),
            self.far_reach(ip, l) > 0 ==> {
                &&& ip + self.far_reach(ip, l) <= self.matchlimit()
                &&& 1 <= self.far_distance(ip, l) <= LZ4_DISTANCE_MAX
                &&& self.repeats(ip, self.far_distance(ip, l), self.far_reach(ip, l))
            },
    {
        reveal(Scene::far_reach);
        let a = self.attached->0;
        let off = self.far_distance(ip, l);
        let n = self.far_reach(ip, l);
        lemma_agree(self.base, ip, a.bytes, l - a.limit, self.matchlimit());
        if n > 0 {
            let w = self.whole();
            assert forall|k: int| 0 <= k < n implies #[trigger] self.base[ip + k] == w[self.lead()
                + ip - off + k] by {
                assert(self.base[ip + k] == a.bytes[(l - a.limit) + k]);
            }
        }
    }

    /// A match that is picked is one: it starts at `ip` or just behind it.
    pub proof fn lemma_pick(self, t: MidTables, ip: int)
        requires
            self.wf(),
            t.wf(),
            0 <= ip <= self.mflimit(),
        ensures
            self.pick(t, ip).1.wf(),
            self.pick(t, ip).0 matches Some(p) ==> {
                &&& ip <= p.ip <= ip + 1
                &&& p.ip <= self.mflimit()
                &&& p.mlen >= MINMATCH
                &&& p.ip + p.mlen <= self.matchlimit()
                &&& self.repeats(p.ip, p.off, p.mlen)
            },
    {
        reveal(Scene::pick);
        reveal(Scene::far_pick);
        lemma_slots(self.base, ip);
        lemma_slots(self.base, ip + 1);
        let s8 = slot8(self.base, ip);
        let p8 = t.eight[s8] as int;
        self.lemma_reach(ip, p8);
        let s4 = slot4(self.base, ip);
        let p4 = t.four[s4] as int;
        self.lemma_reach(ip, p4);
        let t1 = MidTables {
            eight: t.eight.update(s8, (self.prefix + ip) as u32),
            ..t
        };
        let q = t1.eight[slot8(self.base, ip + 1)] as int;
        self.lemma_reach(ip + 1, q);
        if let Some(a) = self.attached {
            self.lemma_far_reach(ip, a.hash[LZ4MID_HASHTABLESIZE + s8] as int);
            self.lemma_far_reach(ip, a.hash[s4] as int);
        }
    }

    /// Entering positions keeps the tables in order.
    pub proof fn lemma_tables(self, t: MidTables, at: int, index: int)
        requires
            t.wf(),
        ensures
            self.opening(t, at, index).wf(),
            self.closing(t, at).wf(),
    {
        reveal(Scene::opening);
        reveal(Scene::closing);
        let b = self.base;
        lemma_slots(b, at + 1);
        lemma_slots(b, at + 2);
        lemma_slots(b, at - 1);
        lemma_slots(b, at - 2);
        lemma_slots(b, at - 3);
        lemma_slots(b, at - 5);
    }

    /// Extending a match backwards keeps it one.
    pub proof fn lemma_caught(self, p: Pick, anchor: int)
        requires
            self.wf(),
            0 <= anchor <= p.ip,
            self.repeats(p.ip, p.off, p.mlen),
        ensures
            ({
                let k = self.caught(p.ip, p.off, anchor);
                &&& 0 <= k <= p.ip - anchor
                &&& self.repeats(p.ip - k, p.off, p.mlen + k)
            }),
    {
        let n = min_int(
            p.ip - anchor,
            if p.ip > p.off {
                p.ip - p.off
            } else {
                0
            },
        );
        let k = self.caught(p.ip, p.off, anchor);
        lemma_agree_back(self.base, p.ip, self.base, p.ip - p.off, n);
        let w = self.whole();
        let at = p.ip - k;
        assert forall|j: int| 0 <= j < p.mlen + k implies #[trigger] self.base[at + j]
            == w[self.lead() + at - p.off + j] by {
            if j < k {
                assert(self.base[p.ip - (k - j)] == self.base[(p.ip - p.off) - (k - j)]);
            } else {
                assert(self.base[p.ip + (j - k)] == w[self.lead() + p.ip - p.off + (j - k)]);
            }
        }
    }
}

/// A match that is taken.
struct Taken {
    ip: usize,
    mlen: usize,
    off: usize,
}

impl View for Taken {
    type V = Pick;

    closed spec fn view(&self) -> Pick {
        Pick { ip: self.ip as int, mlen: self.mlen as int, off: self.off as int }
    }
}

/// What an optional match stands for.
spec fn taken(m: Option<Taken>) -> Option<Pick> {
    match m {
        Some(t) => Some(t@),
        None => None,
    }
}

/// How long a match at `ip` with the bytes at index `pos` is.
fn reach_at(v: &SrcView, ip: usize, pos: u32, Ghost(sc): Ghost<Scene>) -> (n: usize)
    requires
        sc.wf(),
        sc.base == v.base@,
        sc.prefix == v.prefix_idx,
        sc.dict == v.dict@,
        sc.low == v.dict_idx,
        ip <= sc.matchlimit(),
    ensures
        n == sc.reach(ip as int, pos as int),
{
    reveal(Scene::reach);
    let index = v.prefix_idx + ip as u32;
    if pos >= index || index - pos > LZ4_DISTANCE_MAX as u32 {
        return 0;
    }
    let limit = v.base.len() - 5;
    if pos >= v.prefix_idx {
        count_match(v.base, ip, v.base, (pos - v.prefix_idx) as usize, limit)
    } else if pos >= v.dict_idx {
        count_match(v.base, ip, v.dict, (pos - v.dict_idx) as usize, limit)
    } else {
        0
    }
}

/// The match at `ip` with the bytes at index `l` of the attached dictionary,
/// and how far back they are.
fn far_reach_at(v: &SrcView, d: &MidDictCtx, ip: usize, l: u32, Ghost(sc): Ghost<Scene>) -> (r: (usize, usize))
    requires
        sc.wf(),
        d.wf(),
        sc.base == v.base@,
        sc.prefix == v.prefix_idx,
        sc.low == v.dict_idx,
        sc.attached == Some(d.attachment()),
        ip <= sc.matchlimit(),
        sc.prefix + ip - sc.low < LZ4_DISTANCE_MAX,
    ensures
        r.0 == sc.far_reach(ip as int, l as int),
        r.0 > 0 ==> r.1 == sc.far_distance(ip as int, l as int),
{
    reveal(Scene::far_reach);
    let end = d.l_dict_end_index();
    if l < d.dict_limit || l >= end {
        return (0, 0);
    }
    let near = v.prefix_idx + ip as u32 - v.dict_idx;
    let back = end - l;
    if back > LZ4_DISTANCE_MAX as u32 - near {
        return (0, 0);
    }
    let limit = v.base.len() - 5;
    let n = count_match(v.base, ip, d.prefix, (l - d.dict_limit) as usize, limit);
    (n, (near + back) as usize)
}

/// The match at `ip` with the attached dictionary.
fn mid_search_ext_dict(v: &SrcView, ip: usize, d: &MidDictCtx, Ghost(sc): Ghost<Scene>) -> (m: Option<Taken>)
    requires
        sc.wf(),
        d.wf(),
        sc.base == v.base@,
        sc.prefix == v.prefix_idx,
        sc.low == v.dict_idx,
        sc.attached == Some(d.attachment()),
        ip <= sc.mflimit(),
    ensures
        taken(m) == sc.far_pick(ip as int),
{
    reveal(Scene::far_pick);
    if v.prefix_idx + ip as u32 - v.dict_idx >= LZ4_DISTANCE_MAX as u32 - 8 {
        return None;
    }
    let l8 = d.hash_table[LZ4MID_HASHTABLESIZE + slot8_at(v.base, ip)];
    let (n8, off8) = far_reach_at(v, d, ip, l8, Ghost(sc));
    if n8 >= MINMATCH {
        return Some(Taken { ip, mlen: n8, off: off8 });
    }
    let l4 = d.hash_table[slot4_at(v.base, ip)];
    let (n4, off4) = far_reach_at(v, d, ip, l4, Ghost(sc));
    if n4 >= MINMATCH {
        return Some(Taken { ip, mlen: n4, off: off4 });
    }
    None
}

/// The match at `ip`; `ip` is entered in the tables.
fn find_match(four: &mut [u32], eight: &mut [u32], v: &SrcView, ip: usize, dict_ctx: Option<&MidDictCtx>, Ghost(sc): Ghost<Scene>) -> (m: Option<Taken>)
    requires
        in_order(*v, dict_ctx),
        sc == scene_of(*v, dict_ctx, true),
        old(four)@.len() == LZ4MID_HASHTABLESIZE,
        old(eight)@.len() == LZ4MID_HASHTABLESIZE,
        ip <= sc.mflimit(),
    ensures
        (taken(m), MidTables { four: final(four)@, eight: final(eight)@ }) == sc.pick(
            MidTables { four: old(four)@, eight: old(eight)@ },
            ip as int,
        ),
{
    reveal(Scene::pick);
    let index = v.prefix_idx + ip as u32;
    let s8 = slot8_at(v.base, ip);
    let p8 = eight[s8];
    eight[s8] = index;
    let n8 = reach_at(v, ip, p8, Ghost(sc));
    if n8 >= MINMATCH {
        proof {
            sc.lemma_reach(ip as int, p8 as int);
        }
        return Some(Taken { ip, mlen: n8, off: (index - p8) as usize });
    }
    let s4 = slot4_at(v.base, ip);
    let p4 = four[s4];
    four[s4] = index;
    let n4 = reach_at(v, ip, p4, Ghost(sc));
    if n4 >= MINMATCH {
        proof {
            sc.lemma_reach(ip as int, p4 as int);
        }
        if p4 >= v.prefix_idx && ip < v.base.len() - MFLIMIT {
            let s = slot8_at(v.base, ip + 1);
            let p = eight[s];
            if p >= v.prefix_idx {
                let n2 = reach_at(v, ip + 1, p, Ghost(sc));
                if n2 > n4 {
                    proof {
                        sc.lemma_reach(ip + 1, p as int);
                    }
                    eight[s] = index + 1;
                    return Some(Taken { ip: ip + 1, mlen: n2, off: (index + 1 - p) as usize });
                }
            }
        }
        return Some(Taken { ip, mlen: n4, off: (index - p4) as usize });
    }
    match dict_ctx {
        Some(d) => mid_search_ext_dict(v, ip, d, Ghost(sc)),
        None => {
            assert(sc.far_pick(ip as int) is None) by {
                reveal(Scene::far_pick);
            }
            None
        },
    }
}

/// Enters the beginning of a match at `at`.
fn enter_opening(four: &mut [u32], eight: &mut [u32], base: &[u8], at: usize, index: u32, Ghost(sc): Ghost<Scene>)
    requires
        old(four)@.len() == LZ4MID_HASHTABLESIZE,
        old(eight)@.len() == LZ4MID_HASHTABLESIZE,
        sc.base == base@,
        at + 2 <= base.len(),
        index + 2 <= u32::MAX,
    ensures
        final(four)@.len() == LZ4MID_HASHTABLESIZE,
        final(eight)@.len() == LZ4MID_HASHTABLESIZE,
        (MidTables { four: final(four)@, eight: final(eight)@ }) == sc.opening(
            MidTables { four: old(four)@, eight: old(eight)@ },
            at as int,
            index as int,
        ),
{
    reveal(Scene::opening);
    let ghost t0 = MidTables { four: four@, eight: eight@ };
    let ghost t1 = t0.add8(base@, at + 1, index + 1);
    let ghost t2 = t1.add8(base@, at + 2, index + 2);
    add_pos8(eight, base, at + 1, index + 1, Ghost(t0));
    add_pos8(eight, base, at + 2, index + 2, Ghost(t1));
    add_pos4(four, base, at + 1, index + 1, Ghost(t2));
}

/// Enters the end of a match at `ip`.
fn enter_closing(four: &mut [u32], eight: &mut [u32], v: &SrcView, ip: usize, Ghost(sc): Ghost<Scene>)
    requires
        sc.wf(),
        old(four)@.len() == LZ4MID_HASHTABLESIZE,
        old(eight)@.len() == LZ4MID_HASHTABLESIZE,
        sc.base == v.base@,
        sc.prefix == v.prefix_idx,
        4 <= ip <= sc.matchlimit(),
        sc.len() >= 8,
    ensures
        final(four)@.len() == LZ4MID_HASHTABLESIZE,
        final(eight)@.len() == LZ4MID_HASHTABLESIZE,
        (MidTables { four: final(four)@, eight: final(eight)@ }) == sc.closing(
            MidTables { four: old(four)@, eight: old(eight)@ },
            ip as int,
        ),
{
    reveal(Scene::closing);
    let ghost t0 = MidTables { four: four@, eight: eight@ };
    let base = v.base;
    if ip - 2 < base.len() - 8 {
        let i = v.prefix_idx + ip as u32;
        let ghost mut t1 = t0;
        if ip > 5 {
            proof {
                t1 = t0.add8(base@, ip - 5, i - 5);
            }
            add_pos8(eight, base, ip - 5, i - 5, Ghost(t0));
        }
        let ghost t2 = t1.add8(base@, ip - 3, i - 3);
        let ghost t3 = t2.add8(base@, ip - 2, i - 2);
        let ghost t4 = t3.add4(base@, ip - 2, i - 2);
        add_pos8(eight, base, ip - 3, i - 3, Ghost(t1));
        add_pos8(eight, base, ip - 2, i - 2, Ghost(t2));
        add_pos4(four, base, ip - 2, i - 2, Ghost(t3));
        add_pos4(four, base, ip - 1, i - 1, Ghost(t4));
    }
}

/// Whether a parse stands at `s`.
spec fn at(s: Mid, four: Seq<u32>, eight: Seq<u32>, dst: Seq<u8>, ip: int, anchor: int, op: int) -> bool {
    &&& s.t == (MidTables { four, eight })
    &&& s.t.wf()
    &&& s.ip == ip
    &&& s.d.anchor == anchor <= ip
    &&& s.d.op() == op <= dst.len()
    &&& dst.take(op) == enc_seqs(s.d.seqs)
}

/// Goes on from the position `ip`. Returns the result where the block ends.
fn mid_advance(four: &mut [u32], eight: &mut [u32], v: &SrcView, dst: &mut [u8], limit: Limit, dict_ctx: Option<&MidDictCtx>, ip: &mut usize, anchor: &mut usize, op: &mut usize, Ghost(sc): Ghost<Scene>, Ghost(s): Ghost<Mid>) -> (r: Option<(usize, usize)>)
    requires
        in_order(*v, dict_ctx),
        sc == scene_of(*v, dict_ctx, true),
        v.src_off <= *old(anchor),
        *old(ip) <= sc.mflimit(),
        at(s, old(four)@, old(eight)@, old(dst)@, *old(ip) as int, *old(anchor) as int, *old(op) as int),
    ensures
        final(four)@.len() == LZ4MID_HASHTABLESIZE,
        final(eight)@.len() == LZ4MID_HASHTABLESIZE,
        final(dst)@.len() == old(dst)@.len(),
        match sc.mid_step(limit, old(dst)@.len() as int, s) {
            MidNext::End(done, t) => {
                &&& r matches Some(x) && gave(done, x, final(dst)@)
                &&& t == (MidTables { four: final(four)@, eight: final(eight)@ })
            },
            MidNext::Go(next) => {
                &&& r is None
                &&& next.ip > *old(ip)
                &&& *final(ip) == (if next.ip > sc.mflimit() {
                    sc.mflimit() + 1
                } else {
                    next.ip
                }) || *final(ip) == next.ip
                &&& at(
                    Mid { ip: *final(ip) as int, ..next },
                    final(four)@,
                    final(eight)@,
                    final(dst)@,
                    *final(ip) as int,
                    *final(anchor) as int,
                    *final(op) as int,
                )
                &&& *old(anchor) <= *final(anchor) <= *final(ip) <= v.base.len()
            },
        },
{
    let ghost room = dst@.len() as int;
    let base = v.base;
    let mflimit = base.len() - MFLIMIT;
    let index = v.prefix_idx + *ip as u32;
    proof {
        reveal(Scene::mid_step);
        sc.lemma_pick(s.t, *ip as int);
    }
    let p = match find_match(four, eight, v, *ip, dict_ctx, Ghost(sc)) {
        None => {
            let step = 1 + (*ip - *anchor) / 512;
            *ip = if step > mflimit - *ip {
                mflimit + 1
            } else {
                *ip + step
            };
            return None;
        },
        Some(p) => p,
    };
    proof {
        sc.lemma_caught(p@, *anchor as int);
    }
    let reach = if p.ip > p.off {
        p.ip - p.off
    } else {
        0
    };
    let k = if reach > 0 {
        count_back(base, p.ip, base, p.ip - p.off, reach.min(p.ip - *anchor))
    } else {
        0
    };
    assert(k == sc.caught(p.ip as int, p.off as int, *anchor as int));
    let from = p.ip - k;
    let n = p.mlen + k;
    enter_opening(four, eight, base, from, index, Ghost(sc));
    match encode_sequence(base, dst, *op, *anchor, from, n, p.off, limit, Ghost(s.d)) {
        None => Some(
            dest_overflow(base, dst, *anchor, from, *op, n, p.off, limit, v.src_off, Ghost(s.d)),
        ),
        Some(op2) => {
            *op = op2;
            *ip = from + n;
            *anchor = *ip;
            enter_closing(four, eight, v, *ip, Ghost(sc));
            None
        },
    }
}

/// Compresses the block of `v` into `dst` with the given tables. Returns how
/// many bytes that took, none where the room ran out, and how many bytes of the
/// block they stand for.
pub fn compress_mid(hash4_table: &mut [u32], hash8_table: &mut [u32], v: &SrcView, dst: &mut [u8], limit: Limit, dict_ctx: Option<&MidDictCtx>) -> (r: (usize, usize))
    requires
        in_order(*v, dict_ctx),
        old(hash4_table)@.len() == LZ4MID_HASHTABLESIZE,
        old(hash8_table)@.len() == LZ4MID_HASHTABLESIZE,
    ensures
        final(hash4_table)@.len() == LZ4MID_HASHTABLESIZE,
        final(hash8_table)@.len() == LZ4MID_HASHTABLESIZE,
        final(dst)@.len() == old(dst)@.len(),
        ({
            let (done, t) = scene_of(*v, dict_ctx, true).mid_outcome(
                MidTables { four: old(hash4_table)@, eight: old(hash8_table)@ },
                limit,
                old(dst)@.len() as int,
            );
            &&& gave(done, r, final(dst)@)
            &&& final(hash4_table)@ == t.four
            &&& final(hash8_table)@ == t.eight
        }),
{
    let ghost sc = scene_of(*v, dict_ctx, true);
    let ghost room = dst@.len() as int;
    let base = v.base;
    let mut ip = v.src_off;
    let mut anchor = ip;
    let mut op: usize = 0;
    let ghost mut s = Mid {
        t: MidTables { four: hash4_table@, eight: hash8_table@ },
        d: Draft { seqs: Seq::empty(), anchor: sc.start },
        ip: ip as int,
    };
    let ghost want = sc.mid_outcome(s.t, limit, room);
    assert(dst@.take(0) =~= Seq::<u8>::empty());
    if base.len() - v.src_off < MFLIMIT + 1 {
        return last_literals(base, dst, anchor, op, limit, v.src_off, Ghost(s.d));
    }
    let mflimit = base.len() - MFLIMIT;
    while ip <= mflimit
        invariant
            in_order(*v, dict_ctx),
            sc == scene_of(*v, dict_ctx, true),
            base@ == v.base@,
            mflimit == sc.mflimit(),
            dst@.len() == room,
            v.src_off <= anchor <= ip <= base.len(),
            hash4_table@.len() == LZ4MID_HASHTABLESIZE,
            hash8_table@.len() == LZ4MID_HASHTABLESIZE,
            at(s, hash4_table@, hash8_table@, dst@, ip as int, anchor as int, op as int),
            want == sc.mid_run(limit, room, s),
            room == old(dst)@.len(),
            want == sc.mid_outcome(
                MidTables { four: old(hash4_table)@, eight: old(hash8_table)@ },
                limit,
                room,
            ),
        decreases base.len() - ip,
    {
        let ghost act = sc.mid_step(limit, room, s);
        let r = mid_advance(
            hash4_table,
            hash8_table,
            v,
            dst,
            limit,
            dict_ctx,
            &mut ip,
            &mut anchor,
            &mut op,
            Ghost(sc),
            Ghost(s),
        );
        if let Some(x) = r {
            return x;
        }
        proof {
            let next = act->Go_0;
            s = Mid { ip: ip as int, ..next };
            if next.ip == ip {
                assert(s == next);
            }
            assert(sc.mid_run(limit, room, s) == sc.mid_run(limit, room, next));
        }
    }
    last_literals(base, dst, anchor, op, limit, v.src_off, Ghost(s.d))
}

/// The tables with every third position from `idx` up to `target` entered,
/// its four bytes and the eight behind its first.
pub open spec fn enter_thirds(t: MidTables, s: Seq<u8>, first: u32, idx: int, target: int) -> MidTables
    decreases target + 3 - idx,
{
    if idx >= target {
        t
    } else {
        let at = idx - first;
        enter_thirds(t.add4(s, at, idx).add8(s, at + 1, idx + 1), s, first, idx + 3, target)
    }
}

/// The tables with the eight bytes at every position from `idx` up to `target`
/// entered.
pub open spec fn enter_each(t: MidTables, s: Seq<u8>, first: u32, idx: int, target: int) -> MidTables
    decreases target - idx,
{
    if idx >= target {
        t
    } else {
        enter_each(t.add8(s, idx - first, idx), s, first, idx + 1, target)
    }
}

/// The tables with a dictionary entered whose first byte has the index
/// `first`, from the index `next` on. All positions are entered by their four
/// bytes or eight, the last 32 KB by their eight.
pub open spec fn dict_tables(t: MidTables, dict: Seq<u8>, first: u32, next: u32) -> MidTables {
    let target = first + dict.len() - 8;
    let t1 = enter_thirds(t, dict, first, next as int, target);
    if dict.len() > 32776 {
        enter_each(t1, dict, first, target - 32768, target)
    } else {
        enter_each(t1, dict, first, next as int, target)
    }
}

/// Enters a dictionary in the tables, from the index `next_to_update` on.
/// `prefix_idx` is the index of its first byte.
pub fn mid_fill_htable(hash4_table: &mut [u32], hash8_table: &mut [u32], dict: &[u8], prefix_idx: u32, next_to_update: &mut u32)
    requires
        old(hash4_table)@.len() == LZ4MID_HASHTABLESIZE,
        old(hash8_table)@.len() == LZ4MID_HASHTABLESIZE,
        prefix_idx + dict.len() <= u32::MAX,
        dict.len() > 8 ==> prefix_idx <= *old(next_to_update),
    ensures
        final(hash4_table)@.len() == LZ4MID_HASHTABLESIZE,
        final(hash8_table)@.len() == LZ4MID_HASHTABLESIZE,
        dict.len() <= 8 ==> *final(next_to_update) == *old(next_to_update),
        dict.len() > 8 ==> *final(next_to_update) == prefix_idx + dict.len() - 8,
        (MidTables { four: final(hash4_table)@, eight: final(hash8_table)@ }) == (if dict.len()
            <= 8 {
            MidTables { four: old(hash4_table)@, eight: old(hash8_table)@ }
        } else {
            dict_tables(
                MidTables { four: old(hash4_table)@, eight: old(hash8_table)@ },
                dict@,
                prefix_idx,
                *old(next_to_update),
            )
        }),
{
    let size = dict.len();
    if size <= 8 {
        return ;
    }
    let target = prefix_idx + (size - 8) as u32;
    let next = *next_to_update;
    let ghost t0 = MidTables { four: hash4_table@, eight: hash8_table@ };
    let ghost t1 = enter_thirds(t0, dict@, prefix_idx, next as int, target as int);
    let mut idx = next;
    while idx < target
        invariant
            hash4_table@.len() == LZ4MID_HASHTABLESIZE,
            hash8_table@.len() == LZ4MID_HASHTABLESIZE,
            prefix_idx <= idx,
            target == prefix_idx + dict.len() - 8,
            prefix_idx + dict.len() <= u32::MAX,
            t1 == enter_thirds(
                MidTables { four: hash4_table@, eight: hash8_table@ },
                dict@,
                prefix_idx,
                idx as int,
                target as int,
            ),
        decreases target + 3 - idx,
    {
        let p = (idx - prefix_idx) as usize;
        let ghost a = MidTables { four: hash4_table@, eight: hash8_table@ };
        let ghost b = a.add4(dict@, p as int, idx as int);
        add_pos4(hash4_table, dict, p, idx, Ghost(a));
        add_pos8(hash8_table, dict, p + 1, idx + 1, Ghost(b));
        assert((MidTables { four: hash4_table@, eight: hash8_table@ }) == b.add8(
            dict@,
            p + 1,
            idx + 1,
        ));
        idx = idx + 3;
    }
    let mut idx = if size > 32776 {
        target - 32768
    } else {
        next
    };
    let ghost t2 = enter_each(t1, dict@, prefix_idx, idx as int, target as int);
    while idx < target
        invariant
            hash4_table@.len() == LZ4MID_HASHTABLESIZE,
            hash8_table@.len() == LZ4MID_HASHTABLESIZE,
            prefix_idx <= idx,
            target == prefix_idx + dict.len() - 8,
            prefix_idx + dict.len() <= u32::MAX,
            t2 == enter_each(
                MidTables { four: hash4_table@, eight: hash8_table@ },
                dict@,
                prefix_idx,
                idx as int,
                target as int,
            ),
        decreases target - idx,
    {
        let p = (idx - prefix_idx) as usize;
        let ghost a = MidTables { four: hash4_table@, eight: hash8_table@ };
        add_pos8(hash8_table, dict, p, idx, Ghost(a));
        assert((MidTables { four: hash4_table@, eight: hash8_table@ }) == a.add8(
            dict@,
            p as int,
            idx as int,
        ));
        idx = idx + 1;
    }
    *next_to_update = target;
}

} // verus!
