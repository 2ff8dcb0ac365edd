//! The middle levels: before a match is taken, matches that overlap its end are
//! weighed against it.
use vstd::prelude::*;
use crate::format::{enc_seqs, min_int, MFLIMIT, MINMATCH};
use super::chase::{lemma_enter_upto, Chains, Found, Hunt};
use super::output::{dest_overflow, encode_sequence, gave, last_literals, Done, Draft};
use super::scene::{in_order, scene_of, MidDictCtx, Scene, SrcView};
use super::search::{chains, insert_and_get_wider_match, Match};
use super::{HcState, Limit};

verus! {

/// The longest match whose length fits its token.
pub const OPTIMAL_ML: usize = 18;

/// What is being decided.
#[derive(Clone, Copy, PartialEq, Eq, Structural)]
pub enum Spot {
    /// A match is looked for at `ip`.
    Main,
    /// A match at `ip` was found, and one that overlaps its end is looked for.
    Two,
    /// Two overlapping matches were found, and one that overlaps the end of the
    /// second is looked for.
    Three,
}

/// How far a parse has come. The match `m1` starts at `ip`, and `m2` at
/// `start2`; `m0` at `start0` is what `m1` was preferred to.
#[verifier::ext_equal]
pub struct Lazy {
    pub spot: Spot,
    pub c: Chains,
    pub d: Draft,
    pub ip: int,
    pub m1: Found,
    pub start0: int,
    pub m0: Found,
    pub start2: int,
    pub m2: Found,
}

/// What a decision leads to.
#[verifier::ext_equal]
pub enum LazyNext {
    End(Done, Chains),
    Go(Lazy),
}

/// What taking a match leads to.
#[verifier::ext_equal]
pub enum Put {
    On(Draft),
    Over(Done),
}

/// No match.
pub open spec fn nothing() -> Found {
    Found { len: 0, off: 0, back: 0 }
}

impl Lazy {
    /// Where the farthest match that is considered ends.
    pub open spec fn edge(self) -> int {
        match self.spot {
            Spot::Main => self.ip,
            Spot::Two => self.ip + self.m1.len,
            Spot::Three => self.start2 + self.m2.len,
        }
    }

    pub open spec fn rank(self) -> int {
        if self.spot == Spot::Main {
            0
        } else {
            1
        }
    }

    /// Whether `next` is nearer to the end of a block of `len` bytes.
    pub open spec fn nears(self, next: Lazy, len: int) -> bool {
        ||| self.edge() < next.edge() <= len
        ||| self.edge() == next.edge() && next.rank() < self.rank()
    }
}

/// Where the second match starts, and how long it is, once the first is given
/// the length that suits both: of the `gap` between them and the lengths `n1`
/// and `n2`, the length of the first.
pub open spec fn suited(gap: int, n1: int, n2: int) -> int {
    let n = min_int(n1, OPTIMAL_ML as int);
    if n > gap + n2 - MINMATCH {
        gap + n2 - MINMATCH
    } else {
        n
    }
}

/// How much of the second match the first takes.
pub open spec fn correction(gap: int, n1: int, n2: int) -> int {
    let k = suited(gap, n1, n2) - gap;
    if gap < OPTIMAL_ML && k > 0 {
        k
    } else {
        0
    }
}

/// How the search of the middle levels is done.
pub open spec fn lazy_hunt(sc: Scene, ip: int, low: int, least: int, tries: usize) -> Hunt {
    Hunt {
        ip: ip as usize,
        low: low as usize,
        high: sc.matchlimit() as usize,
        least: least as usize,
        tries,
        pattern: tries > 128,
        swap: false,
        favor: false,
    }
}

impl Scene {
    /// Takes a match of `n` bytes at `at`, unless that is too short to be one.
    pub open spec fn put(self, limit: Limit, room: int, d: Draft, at: int, n: int, off: int) -> Put {
        if n < MINMATCH {
            Put::On(d)
        } else if d.takes(limit, room, at, n) {
            Put::On(d.with(self.base, at, n, off))
        } else {
            Put::Over(d.cut_short(self.base, self.start, limit, room, at, n, off))
        }
    }

    /// The match that overlaps the end of one that starts at `low` and is
    /// `least` bytes long: where it starts, what it is, and the tables.
    #[verifier::opaque]
    pub open spec fn overlap(self, c: Chains, low: int, least: int, lap: int, tries: usize) -> (int, Found, Chains) {
        if low + least <= self.mflimit() {
            let at = low + least - lap;
            let c1 = c.upto(self.base, self.prefix, at, self.little);
            let m = self.wider(lazy_hunt(self, at, low, least, tries), c1);
            (at - m.back, m, c1)
        } else {
            (0, nothing(), c)
        }
    }

    #[verifier::opaque]
    pub open spec fn lazy_main(self, tries: usize, s: Lazy) -> LazyNext {
        let c = s.c.upto(self.base, self.prefix, s.ip, self.little);
        let m = self.wider(lazy_hunt(self, s.ip, s.ip, 3, tries), c);
        if m.len < MINMATCH {
            LazyNext::Go(Lazy { c, ip: s.ip + 1, ..s })
        } else {
            LazyNext::Go(Lazy { spot: Spot::Two, c, m1: m, start0: s.ip, m0: m, ..s })
        }
    }

    #[verifier::opaque]
    pub open spec fn lazy_two(self, limit: Limit, room: int, tries: usize, s: Lazy) -> LazyNext {
        let (start2, m2, c) = self.overlap(s.c, s.ip, s.m1.len, 2, tries);
        if m2.len <= s.m1.len {
            match self.put(limit, room, s.d, s.ip, s.m1.len, s.m1.off) {
                Put::Over(done) => LazyNext::End(done, c),
                Put::On(d) => LazyNext::Go(
                    Lazy { spot: Spot::Main, c, d, ip: s.ip + s.m1.len, ..s },
                ),
            }
        } else {
            let first = s.start0 < s.ip && start2 < s.ip + s.m0.len;
            let (ip, m1) = if first {
                (s.start0, s.m0)
            } else {
                (s.ip, s.m1)
            };
            if start2 - ip < 3 {
                LazyNext::Go(Lazy { c, ip: start2, m1: m2, ..s })
            } else {
                LazyNext::Go(Lazy { spot: Spot::Three, c, ip, m1, start2, m2, ..s })
            }
        }
    }

    /// The second match once the first is given the length that suits both.
    pub open spec fn settled(self, s: Lazy) -> Lazy {
        let k = correction(s.start2 - s.ip, s.m1.len, s.m2.len);
        Lazy { start2: s.start2 + k, m2: Found { len: s.m2.len - k, ..s.m2 }, ..s }
    }

    /// No third match: both are taken.
    #[verifier::opaque]
    pub open spec fn take_both(self, limit: Limit, room: int, s: Lazy) -> LazyNext {
        let n = if s.start2 < s.ip + s.m1.len {
            s.start2 - s.ip
        } else {
            s.m1.len
        };
        match self.put(limit, room, s.d, s.ip, n, s.m1.off) {
            Put::Over(done) => LazyNext::End(done, s.c),
            Put::On(d) => match self.put(limit, room, d, s.start2, s.m2.len, s.m2.off) {
                Put::Over(done) => LazyNext::End(done, s.c),
                Put::On(e) => LazyNext::Go(
                    Lazy { spot: Spot::Main, d: e, ip: s.start2 + s.m2.len, ..s },
                ),
            },
        }
    }

    /// A third match that leaves little room for the second: the first is
    /// taken, and the third weighed against the second.
    #[verifier::opaque]
    pub open spec fn take_first(self, limit: Limit, room: int, s: Lazy, start3: int, m3: Found) -> LazyNext {
        let end1 = s.ip + s.m1.len;
        let k = if s.start2 < end1 {
            end1 - s.start2
        } else {
            0
        };
        let (start2, m2) = if k > 0 && s.m2.len - k < MINMATCH {
            (start3, m3)
        } else {
            (s.start2 + k, Found { len: s.m2.len - k, ..s.m2 })
        };
        match self.put(limit, room, s.d, s.ip, s.m1.len, s.m1.off) {
            Put::Over(done) => LazyNext::End(done, s.c),
            Put::On(d) => LazyNext::Go(
                Lazy {
                    spot: Spot::Two,
                    d,
                    ip: start3,
                    m1: m3,
                    start0: start2,
                    m0: m2,
                    ..s
                },
            ),
        }
    }

    /// Three matches with room for each: the first is taken, and the search
    /// goes on with the other two.
    #[verifier::opaque]
    pub open spec fn take_next(self, limit: Limit, room: int, s: Lazy, start3: int, m3: Found) -> LazyNext {
        let gap = s.start2 - s.ip;
        let n = if s.start2 >= s.ip + s.m1.len {
            s.m1.len
        } else if gap < OPTIMAL_ML {
            suited(gap, s.m1.len, s.m2.len)
        } else {
            gap
        };
        let k = if s.start2 < s.ip + s.m1.len {
            correction(gap, s.m1.len, s.m2.len)
        } else {
            0
        };
        match self.put(limit, room, s.d, s.ip, n, s.m1.off) {
            Put::Over(done) => LazyNext::End(done, s.c),
            Put::On(d) => LazyNext::Go(
                Lazy {
                    d,
                    ip: s.start2 + k,
                    m1: Found { len: s.m2.len - k, ..s.m2 },
                    start2: start3,
                    m2: m3,
                    ..s
                },
            ),
        }
    }

    #[verifier::opaque]
    pub open spec fn lazy_three(self, limit: Limit, room: int, tries: usize, s0: Lazy) -> LazyNext {
        let s1 = self.settled(s0);
        let (start3, m3, c) = self.overlap(s1.c, s1.start2, s1.m2.len, 3, tries);
        let s = Lazy { c, ..s1 };
        let end1 = s.ip + s.m1.len;
        if m3.len <= s.m2.len {
            self.take_both(limit, room, s)
        } else if start3 >= end1 + 3 {
            self.take_next(limit, room, s, start3, m3)
        } else if start3 >= end1 {
            self.take_first(limit, room, s, start3, m3)
        } else {
            LazyNext::Go(Lazy { start2: start3, m2: m3, ..s })
        }
    }

    /// The parse from `s` on.
    pub open spec fn lazy_run(self, limit: Limit, room: int, tries: usize, s: Lazy) -> (Done, Chains)
        decreases self.len() - s.edge(), s.rank(),
    {
        if s.spot == Spot::Main && s.ip > self.mflimit() {
            (s.d.finish(self.base, self.start, limit, room), s.c)
        } else {
            let next = match s.spot {
                Spot::Main => self.lazy_main(tries, s),
                Spot::Two => self.lazy_two(limit, room, tries, s),
                Spot::Three => self.lazy_three(limit, room, tries, s),
            };
            match next {
                LazyNext::End(done, c) => (done, c),
                LazyNext::Go(t) => if s.nears(t, self.len()) {
                    self.lazy_run(limit, room, tries, t)
                } else {
                    (Done { block: None, consumed: 0 }, t.c)
                },
            }
        }
    }

    /// What becomes of the block, and the tables afterwards.
    pub open spec fn lazy_outcome(self, c: Chains, limit: Limit, room: int, tries: usize) -> (Done, Chains) {
        let d = Draft { seqs: Seq::empty(), anchor: self.start };
        if self.len() - self.start < MFLIMIT + 1 {
            (d.finish(self.base, self.start, limit, room), c)
        } else {
            self.lazy_run(
                limit,
                room,
                tries,
                Lazy {
                    spot: Spot::Main,
                    c,
                    d,
                    ip: self.start,
                    m1: nothing(),
                    start0: 0,
                    m0: nothing(),
                    start2: 0,
                    m2: nothing(),
                },
            )
        }
    }

    // -----------------------------------------------------------------------

    /// Whether a match may be taken at `at`.
    pub open spec fn stands_at(self, at: int, m: Found) -> bool {
        &&& MINMATCH <= m.len
        &&& 0 <= at <= self.mflimit()
        &&& at + m.len <= self.matchlimit()
        &&& self.repeats(at, m.off, m.len)
    }

    /// What holds throughout a parse.
    pub open spec fn lazy_ok(self, s: Lazy) -> bool {
        &&& s.c.wf()
        &&& self.start <= s.d.anchor
        &&& match s.spot {
            Spot::Main => s.d.anchor <= s.ip <= self.matchlimit(),
            Spot::Two => {
                &&& self.stands_at(s.ip, s.m1)
                &&& self.stands_at(s.start0, s.m0)
                &&& s.d.anchor <= s.start0 <= s.ip
                &&& s.start0 + s.m0.len <= s.ip + s.m1.len
            },
            Spot::Three => {
                &&& self.stands_at(s.ip, s.m1)
                &&& self.stands_at(s.start2, s.m2)
                &&& s.d.anchor <= s.ip <= s.start2
                &&& s.ip + s.m1.len < s.start2 + s.m2.len
                &&& s.ip + s.m1.len <= self.mflimit()
            },
        }
    }

    /// The end of a match is one itself.
    pub proof fn lemma_later(self, at: int, m: Found, k: int)
        requires
            self.wf(),
            self.stands_at(at, m),
            0 <= k <= m.len - MINMATCH,
            at + k <= self.mflimit(),
        ensures
            self.stands_at(at + k, Found { len: m.len - k, ..m }),
    {
        let w = self.whole();
        assert forall|j: int| 0 <= j < m.len - k implies #[trigger] self.base[at + k + j]
            == w[self.lead() + at + k - m.off + j] by {
            assert(self.base[at + (k + j)] == w[self.lead() + at - m.off + (k + j)]);
        }
    }

    /// The search for an overlapping match makes sense, and finds a match.
    pub proof fn lemma_overlap(self, c: Chains, low: int, least: int, lap: int, tries: usize)
        requires
            self.wf(),
            self.len() <= usize::MAX,
            c.wf(),
            0 <= low,
            MINMATCH <= least,
            2 <= lap <= 3,
        ensures
            low + least <= self.mflimit() ==> self.hunts(
                lazy_hunt(self, low + least - lap, low, least, tries),
            ),
            ({
                let (start, m, c1) = self.overlap(c, low, least, lap, tries);
                &&& c1.wf()
                &&& m.len > least ==> {
                    &&& low + least <= self.mflimit()
                    &&& self.stands_at(start, m)
                    &&& low <= start
                    &&& low + least < start + m.len
                }
                &&& 0 <= m.len
                &&& m.len > 0 ==> m.len > least
            }),
    {
        reveal(Scene::overlap);
        if low + least <= self.mflimit() {
            let at = low + least - lap;
            let h = lazy_hunt(self, at, low, least, tries);
            lemma_enter_upto(
                c,
                self.base,
                self.prefix,
                c.next as int,
                self.prefix + at,
                self.little,
            );
            let c1 = c.upto(self.base, self.prefix, at, self.little);
            self.lemma_wider(h, c1);
        }
    }

    pub proof fn lemma_best(self, c: Chains, ip: int, tries: usize)
        requires
            self.wf(),
            self.len() <= usize::MAX,
            c.wf(),
            0 <= ip <= self.mflimit(),
        ensures
            self.hunts(lazy_hunt(self, ip, ip, 3, tries)),
            c.upto(self.base, self.prefix, ip, self.little).wf(),
            ({
                let m = self.wider(
                    lazy_hunt(self, ip, ip, 3, tries),
                    c.upto(self.base, self.prefix, ip, self.little),
                );
                &&& m.len >= MINMATCH ==> self.stands_at(ip, m)
                &&& m.len < MINMATCH ==> m.len == 0
            }),
    {
        lemma_enter_upto(c, self.base, self.prefix, c.next as int, self.prefix + ip, self.little);
        let h = lazy_hunt(self, ip, ip, 3, tries);
        self.lemma_wider(h, c.upto(self.base, self.prefix, ip, self.little));
    }

    /// Deciding keeps what holds, and goes nearer to the end.
    pub proof fn lemma_lazy_main(self, tries: usize, s: Lazy)
        requires
            self.wf(),
            self.len() <= usize::MAX,
            self.lazy_ok(s),
            s.spot == Spot::Main,
            s.ip <= self.mflimit(),
        ensures
            self.lazy_main(tries, s) matches LazyNext::Go(t) && self.lazy_ok(t) && s.nears(
                t,
                self.len(),
            ),
    {
        reveal(Scene::lazy_main);
        self.lemma_best(s.c, s.ip, tries);
    }

    pub proof fn lemma_lazy_two(self, limit: Limit, room: int, tries: usize, s: Lazy)
        requires
            self.wf(),
            self.len() <= usize::MAX,
            self.lazy_ok(s),
            s.spot == Spot::Two,
        ensures
            self.lazy_two(limit, room, tries, s) matches LazyNext::Go(t) ==> self.lazy_ok(t)
                && s.nears(t, self.len()),
    {
        reveal(Scene::lazy_two);
        self.lemma_overlap(s.c, s.ip, s.m1.len, 2, tries);
    }

    /// The second match, settled, still is one.
    pub proof fn lemma_settled(self, s: Lazy)
        requires
            self.wf(),
            self.lazy_ok(s),
            s.spot == Spot::Three,
        ensures
            self.lazy_ok(self.settled(s)),
            self.settled(s).edge() == s.edge(),
            self.settled(s).spot == Spot::Three,
            0 <= correction(s.start2 - s.ip, s.m1.len, s.m2.len) <= s.m2.len - MINMATCH,
    {
        let k = correction(s.start2 - s.ip, s.m1.len, s.m2.len);
        self.lemma_later(s.start2, s.m2, k);
    }

    pub proof fn lemma_take_first(self, limit: Limit, room: int, s: Lazy, start3: int, m3: Found)
        requires
            self.wf(),
            self.lazy_ok(s),
            s.spot == Spot::Three,
            self.stands_at(start3, m3),
            s.start2 <= start3,
            s.ip + s.m1.len <= start3,
            s.start2 + s.m2.len < start3 + m3.len,
        ensures
            self.take_first(limit, room, s, start3, m3) matches LazyNext::Go(t) ==> self.lazy_ok(t)
                && s.nears(t, self.len()),
    {
        reveal(Scene::take_first);
        let end1 = s.ip + s.m1.len;
        if s.start2 < end1 && s.m2.len - (end1 - s.start2) >= MINMATCH {
            self.lemma_later(s.start2, s.m2, end1 - s.start2);
        }
    }

    pub proof fn lemma_take_next(self, limit: Limit, room: int, s: Lazy, start3: int, m3: Found)
        requires
            self.wf(),
            self.lazy_ok(s),
            s.spot == Spot::Three,
            self.stands_at(start3, m3),
            s.start2 <= start3,
            s.ip + s.m1.len + 3 <= start3,
            s.start2 + s.m2.len < start3 + m3.len,
            s.start2 + s.m2.len <= self.mflimit(),
        ensures
            self.take_next(limit, room, s, start3, m3) matches LazyNext::Go(t) ==> self.lazy_ok(t)
                && s.nears(t, self.len()),
            0 <= correction(s.start2 - s.ip, s.m1.len, s.m2.len) <= s.m2.len - MINMATCH,
    {
        reveal(Scene::take_next);
        let k = if s.start2 < s.ip + s.m1.len {
            correction(s.start2 - s.ip, s.m1.len, s.m2.len)
        } else {
            0
        };
        self.lemma_later(s.start2, s.m2, k);
    }

    pub proof fn lemma_lazy_three(self, limit: Limit, room: int, tries: usize, s0: Lazy)
        requires
            self.wf(),
            self.len() <= usize::MAX,
            self.lazy_ok(s0),
            s0.spot == Spot::Three,
        ensures
            self.lazy_three(limit, room, tries, s0) matches LazyNext::Go(t) ==> self.lazy_ok(t)
                && s0.nears(t, self.len()),
    {
        reveal(Scene::lazy_three);
        self.lemma_settled(s0);
        let s1 = self.settled(s0);
        self.lemma_overlap(s1.c, s1.start2, s1.m2.len, 3, tries);
        let (start3, m3, c) = self.overlap(s1.c, s1.start2, s1.m2.len, 3, tries);
        let s = Lazy { c, ..s1 };
        if m3.len <= s.m2.len {
            reveal(Scene::take_both);
        } else if start3 >= s.ip + s.m1.len + 3 {
            self.lemma_take_next(limit, room, s, start3, m3);
        } else if start3 >= s.ip + s.m1.len {
            self.lemma_take_first(limit, room, s, start3, m3);
        }
    }
}

/// Takes a match of `n` bytes at `at`, unless that is too short to be one.
/// Returns the result where the block ends.
pub(crate) fn place(base: &[u8], dst: &mut [u8], op: &mut usize, anchor: &mut usize, at: usize, n: usize, off: usize, limit: Limit, Ghost(sc): Ghost<Scene>, src_off: usize, Ghost(d): Ghost<Draft>) -> (r: Option<(usize, usize)>)
    requires
        sc.base == base@,
        sc.start == src_off,
        src_off <= *old(anchor) <= at,
        at + n <= base.len(),
        off <= 65535,
        *old(op) <= old(dst).len(),
        *old(op) == d.op(),
        *old(anchor) == d.anchor,
        old(dst)@.take(*old(op) as int) == enc_seqs(d.seqs),
    ensures
        final(dst)@.len() == old(dst)@.len(),
        match sc.put(limit, old(dst)@.len() as int, d, at as int, n as int, off as int) {
            Put::Over(done) => r matches Some(x) && gave(done, x, final(dst)@),
            Put::On(e) => {
                &&& r is None
                &&& *final(op) == e.op() <= final(dst)@.len()
                &&& *final(anchor) == e.anchor
                &&& final(dst)@.take(*final(op) as int) == enc_seqs(e.seqs)
            },
        },
{
    if n < MINMATCH {
        return None;
    }
    match encode_sequence(base, dst, *op, *anchor, at, n, off, limit, Ghost(d)) {
        None => Some(
            dest_overflow(base, dst, *anchor, at, *op, n, off, limit, src_off, Ghost(d)),
        ),
        Some(op2) => {
            *op = op2;
            *anchor = at + n;
            None
        },
    }
}

/// How far a parse has come.
#[derive(Clone, Copy)]
struct Walk {
    spot: Spot,
    ip: usize,
    anchor: usize,
    op: usize,
    m1: Match,
    start0: usize,
    m0: Match,
    start2: usize,
    m2: Match,
}

/// Whether a parse stands at `s`.
spec fn walks(w: Walk, c: Chains, dst: Seq<u8>, s: Lazy) -> bool {
    &&& s.spot == w.spot
    &&& s.c == c
    &&& s.ip == w.ip
    &&& s.d.anchor == w.anchor
    &&& s.d.op() == w.op <= dst.len()
    &&& dst.take(w.op as int) == enc_seqs(s.d.seqs)
    &&& s.m1 == w.m1@
    &&& s.start0 == w.start0
    &&& s.m0 == w.m0@
    &&& s.start2 == w.start2
    &&& s.m2 == w.m2@
}

/// Whether a parse stands where `next` says.
spec fn arrived(next: LazyNext, r: Option<(usize, usize)>, w: Walk, c: Chains, dst: Seq<u8>) -> bool {
    match next {
        LazyNext::End(done, c1) => (r matches Some(x) && gave(done, x, dst)) && c1 == c,
        LazyNext::Go(t) => r is None && walks(w, c, dst, t),
    }
}

/// Whether only the tables of a state differ.
pub open spec fn same_but_tables(a: HcState, b: HcState) -> bool {
    a == (HcState {
        hash_table: a.hash_table,
        chain_table: a.chain_table,
        next_to_update: a.next_to_update,
        ..b
    })
}

/// The match that overlaps the end of one that starts at `low` and is `least`
/// bytes long, and where it starts.
fn overlap_at(state: &mut HcState, v: &SrcView, low: usize, least: usize, lap: usize, tries: usize, dict_ctx: Option<&MidDictCtx>, little: bool, Ghost(sc): Ghost<Scene>) -> (r: (usize, Match))
    requires
        old(state).wf(),
        in_order(*v, dict_ctx),
        sc == scene_of(*v, dict_ctx, little),
        MINMATCH <= least,
        low + least <= sc.matchlimit(),
        2 <= lap <= 3,
    ensures
        final(state).wf(),
        same_but_tables(*final(state), *old(state)),
        (r.0 as int, r.1@, chains(*final(state))) == sc.overlap(
            chains(*old(state)),
            low as int,
            least as int,
            lap as int,
            tries,
        ),
{
    reveal(Scene::overlap);
    proof {
        sc.lemma_overlap(chains(*state), low as int, least as int, lap as int, tries);
    }
    let len = v.base.len();
    if len < MFLIMIT || low + least > len - MFLIMIT {
        return (0, Match { len: 0, off: 0, back: 0 });
    }
    let at = low + least - lap;
    let h = Hunt {
        ip: at,
        low,
        high: len - 5,
        least,
        tries,
        pattern: tries > 128,
        swap: false,
        favor: false,
    };
    assert(h == lazy_hunt(sc, at as int, low as int, least as int, tries));
    let m = insert_and_get_wider_match(state, v, h, dict_ctx, little);
    (at - m.back, m)
}

/// The length of the first of two matches that suits both.
fn suited_length(gap: usize, n1: usize, n2: usize) -> (n: usize)
    requires
        gap + n2 <= usize::MAX,
        n2 >= MINMATCH,
    ensures
        n == suited(gap as int, n1 as int, n2 as int),
{
    let n = n1.min(OPTIMAL_ML);
    if n > gap + n2 - MINMATCH {
        gap + n2 - MINMATCH
    } else {
        n
    }
}

/// How much of the second match the first takes.
fn correction_of(gap: usize, n1: usize, n2: usize) -> (k: usize)
    requires
        gap + n2 <= usize::MAX,
        n2 >= MINMATCH,
    ensures
        k == correction(gap as int, n1 as int, n2 as int),
{
    let n = suited_length(gap, n1, n2);
    if gap < OPTIMAL_ML && n > gap {
        n - gap
    } else {
        0
    }
}

fn walk_main(state: &mut HcState, v: &SrcView, w: &mut Walk, tries: usize, dict_ctx: Option<&MidDictCtx>, little: bool, Ghost(sc): Ghost<Scene>, Ghost(s): Ghost<Lazy>, Ghost(dst): Ghost<Seq<u8>>) -> (r: Option<(usize, usize)>)
    requires
        old(state).wf(),
        in_order(*v, dict_ctx),
        sc == scene_of(*v, dict_ctx, little),
        sc.lazy_ok(s),
        walks(*old(w), chains(*old(state)), dst, s),
        s.spot == Spot::Main,
        s.ip <= sc.mflimit(),
    ensures
        final(state).wf(),
        same_but_tables(*final(state), *old(state)),
        arrived(sc.lazy_main(tries, s), r, *final(w), chains(*final(state)), dst),
{
    reveal(Scene::lazy_main);
    proof {
        sc.lemma_best(s.c, s.ip, tries);
    }
    let h = Hunt {
        ip: w.ip,
        low: w.ip,
        high: v.base.len() - 5,
        least: 3,
        tries,
        pattern: tries > 128,
        swap: false,
        favor: false,
    };
    assert(h == lazy_hunt(sc, s.ip, s.ip, 3, tries));
    let m = insert_and_get_wider_match(state, v, h, dict_ctx, little);
    if m.len < MINMATCH {
        w.ip = w.ip + 1;
    } else {
        w.spot = Spot::Two;
        w.m1 = m;
        w.start0 = w.ip;
        w.m0 = m;
    }
    None
}

fn walk_two(state: &mut HcState, v: &SrcView, dst: &mut [u8], w: &mut Walk, limit: Limit, tries: usize, dict_ctx: Option<&MidDictCtx>, little: bool, Ghost(sc): Ghost<Scene>, Ghost(s): Ghost<Lazy>) -> (r: Option<(usize, usize)>)
    requires
        old(state).wf(),
        in_order(*v, dict_ctx),
        sc == scene_of(*v, dict_ctx, little),
        sc.lazy_ok(s),
        walks(*old(w), chains(*old(state)), old(dst)@, s),
        s.spot == Spot::Two,
    ensures
        final(state).wf(),
        same_but_tables(*final(state), *old(state)),
        final(dst)@.len() == old(dst)@.len(),
        arrived(
            sc.lazy_two(limit, old(dst)@.len() as int, tries, s),
            r,
            *final(w),
            chains(*final(state)),
            final(dst)@,
        ),
{
    reveal(Scene::lazy_two);
    proof {
        sc.lemma_overlap(s.c, s.ip, s.m1.len, 2, tries);
    }
    let (start2, m2) = overlap_at(
        state,
        v,
        w.ip,
        w.m1.len,
        2,
        tries,
        dict_ctx,
        little,
        Ghost(sc),
    );
    if m2.len <= w.m1.len {
        let at = w.ip;
        let m = w.m1;
        let r = place(
            v.base,
            dst,
            &mut w.op,
            &mut w.anchor,
            at,
            m.len,
            m.off,
            limit,
            Ghost(sc),
            v.src_off,
            Ghost(s.d),
        );
        w.spot = Spot::Main;
        w.ip = at + m.len;
        return r;
    }
    if w.start0 < w.ip && start2 - w.ip < w.m0.len {
        if start2 - w.start0 >= 3 {
            w.spot = Spot::Three;
            w.ip = w.start0;
            w.m1 = w.m0;
            w.start2 = start2;
            w.m2 = m2;
        } else {
            w.ip = start2;
            w.m1 = m2;
        }
    } else if start2 - w.ip >= 3 {
        w.spot = Spot::Three;
        w.start2 = start2;
        w.m2 = m2;
    } else {
        w.ip = start2;
        w.m1 = m2;
    }
    None
}

fn walk_both(v: &SrcView, dst: &mut [u8], w: &mut Walk, limit: Limit, Ghost(sc): Ghost<Scene>, Ghost(s): Ghost<Lazy>) -> (r: Option<(usize, usize)>)
    requires
        sc.wf(),
        sc.base == v.base@,
        sc.start == v.src_off,
        sc.lazy_ok(s),
        s.spot == Spot::Three,
        walks(*old(w), s.c, old(dst)@, s),
    ensures
        final(dst)@.len() == old(dst)@.len(),
        arrived(
            sc.take_both(limit, old(dst)@.len() as int, s),
            r,
            *final(w),
            s.c,
            final(dst)@,
        ),
{
    reveal(Scene::take_both);
    let ghost room = dst@.len() as int;
    let at = w.ip;
    let m1 = w.m1;
    let n = if w.start2 < at + m1.len {
        w.start2 - at
    } else {
        m1.len
    };
    let r1 = place(
        v.base,
        dst,
        &mut w.op,
        &mut w.anchor,
        at,
        n,
        m1.off,
        limit,
        Ghost(sc),
        v.src_off,
        Ghost(s.d),
    );
    if r1.is_some() {
        return r1;
    }
    let ghost d = sc.put(limit, room, s.d, at as int, n as int, m1.off as int)->On_0;
    let start2 = w.start2;
    let m2 = w.m2;
    let r2 = place(
        v.base,
        dst,
        &mut w.op,
        &mut w.anchor,
        start2,
        m2.len,
        m2.off,
        limit,
        Ghost(sc),
        v.src_off,
        Ghost(d),
    );
    w.spot = Spot::Main;
    w.ip = start2 + m2.len;
    r2
}

fn walk_first(v: &SrcView, dst: &mut [u8], w: &mut Walk, start3: usize, m3: Match, limit: Limit, Ghost(sc): Ghost<Scene>, Ghost(s): Ghost<Lazy>) -> (r: Option<(usize, usize)>)
    requires
        sc.wf(),
        sc.base == v.base@,
        sc.start == v.src_off,
        sc.lazy_ok(s),
        s.spot == Spot::Three,
        walks(*old(w), s.c, old(dst)@, s),
    ensures
        final(dst)@.len() == old(dst)@.len(),
        arrived(
            sc.take_first(limit, old(dst)@.len() as int, s, start3 as int, m3@),
            r,
            *final(w),
            s.c,
            final(dst)@,
        ),
{
    reveal(Scene::take_first);
    let at = w.ip;
    let m1 = w.m1;
    let end1 = at + m1.len;
    let mut start2 = w.start2;
    let mut m2 = w.m2;
    if start2 < end1 {
        let k = end1 - start2;
        if m2.len - k < MINMATCH {
            start2 = start3;
            m2 = m3;
        } else {
            start2 = start2 + k;
            m2.len = m2.len - k;
        }
    }
    let r = place(
        v.base,
        dst,
        &mut w.op,
        &mut w.anchor,
        at,
        m1.len,
        m1.off,
        limit,
        Ghost(sc),
        v.src_off,
        Ghost(s.d),
    );
    w.spot = Spot::Two;
    w.ip = start3;
    w.m1 = m3;
    w.start0 = start2;
    w.m0 = m2;
    r
}

fn walk_next(v: &SrcView, dst: &mut [u8], w: &mut Walk, start3: usize, m3: Match, limit: Limit, Ghost(sc): Ghost<Scene>, Ghost(s): Ghost<Lazy>) -> (r: Option<(usize, usize)>)
    requires
        sc.wf(),
        sc.base == v.base@,
        sc.start == v.src_off,
        sc.lazy_ok(s),
        s.spot == Spot::Three,
        walks(*old(w), s.c, old(dst)@, s),
        0 <= correction(s.start2 - s.ip, s.m1.len, s.m2.len) <= s.m2.len - MINMATCH,
    ensures
        final(dst)@.len() == old(dst)@.len(),
        arrived(
            sc.take_next(limit, old(dst)@.len() as int, s, start3 as int, m3@),
            r,
            *final(w),
            s.c,
            final(dst)@,
        ),
{
    reveal(Scene::take_next);
    let at = w.ip;
    let m1 = w.m1;
    let mut m2 = w.m2;
    let mut start2 = w.start2;
    let gap = start2 - at;
    let mut n = m1.len;
    if start2 < at + m1.len {
        if gap < OPTIMAL_ML {
            n = suited_length(gap, m1.len, m2.len);
        } else {
            n = gap;
        }
        let k = correction_of(gap, m1.len, m2.len);
        start2 = start2 + k;
        m2.len = m2.len - k;
    }
    let r = place(
        v.base,
        dst,
        &mut w.op,
        &mut w.anchor,
        at,
        n,
        m1.off,
        limit,
        Ghost(sc),
        v.src_off,
        Ghost(s.d),
    );
    w.ip = start2;
    w.m1 = m2;
    w.start2 = start3;
    w.m2 = m3;
    r
}

fn walk_three(state: &mut HcState, v: &SrcView, dst: &mut [u8], w: &mut Walk, limit: Limit, tries: usize, dict_ctx: Option<&MidDictCtx>, little: bool, Ghost(sc): Ghost<Scene>, Ghost(s0): Ghost<Lazy>) -> (r: Option<(usize, usize)>)
    requires
        old(state).wf(),
        in_order(*v, dict_ctx),
        sc == scene_of(*v, dict_ctx, little),
        sc.lazy_ok(s0),
        walks(*old(w), chains(*old(state)), old(dst)@, s0),
        s0.spot == Spot::Three,
    ensures
        final(state).wf(),
        same_but_tables(*final(state), *old(state)),
        final(dst)@.len() == old(dst)@.len(),
        arrived(
            sc.lazy_three(limit, old(dst)@.len() as int, tries, s0),
            r,
            *final(w),
            chains(*final(state)),
            final(dst)@,
        ),
{
    reveal(Scene::lazy_three);
    let ghost s1 = sc.settled(s0);
    proof {
        sc.lemma_settled(s0);
        sc.lemma_overlap(s1.c, s1.start2, s1.m2.len, 3, tries);
    }
    let k = correction_of(w.start2 - w.ip, w.m1.len, w.m2.len);
    w.start2 = w.start2 + k;
    w.m2.len = w.m2.len - k;
    let (start3, m3) = overlap_at(
        state,
        v,
        w.start2,
        w.m2.len,
        3,
        tries,
        dict_ctx,
        little,
        Ghost(sc),
    );
    let ghost s = Lazy { c: chains(*state), ..s1 };
    assert(walks(*w, s.c, dst@, s));
    let end1 = w.ip + w.m1.len;
    if m3.len <= w.m2.len {
        return walk_both(v, dst, w, limit, Ghost(sc), Ghost(s));
    }
    if start3 >= end1 + 3 {
        proof {
            sc.lemma_take_next(limit, dst@.len() as int, s, start3 as int, m3@);
        }
        return walk_next(v, dst, w, start3, m3, limit, Ghost(sc), Ghost(s));
    }
    if start3 >= end1 {
        return walk_first(v, dst, w, start3, m3, limit, Ghost(sc), Ghost(s));
    }
    w.start2 = start3;
    w.m2 = m3;
    None
}

/// Compresses the block of `v` into `dst` at a middle level, with `tries`
/// candidates for a match.
pub fn compress_hash_chain(state: &mut HcState, v: &SrcView, dst: &mut [u8], limit: Limit, tries: usize, dict_ctx: Option<&MidDictCtx>, little: bool) -> (r: (usize, usize))
    requires
        old(state).wf(),
        in_order(*v, dict_ctx),
    ensures
        final(state).wf(),
        same_but_tables(*final(state), *old(state)),
        final(dst)@.len() == old(dst)@.len(),
        ({
            let (done, c) = scene_of(*v, dict_ctx, little).lazy_outcome(
                chains(*old(state)),
                limit,
                old(dst)@.len() as int,
                tries,
            );
            &&& gave(done, r, final(dst)@)
            &&& chains(*final(state)) == c
        }),
{
    let ghost sc = scene_of(*v, dict_ctx, little);
    let ghost room = dst@.len() as int;
    let none = Match { len: 0, off: 0, back: 0 };
    let mut w = Walk {
        spot: Spot::Main,
        ip: v.src_off,
        anchor: v.src_off,
        op: 0,
        m1: none,
        start0: 0,
        m0: none,
        start2: 0,
        m2: none,
    };
    let ghost mut s = Lazy {
        spot: Spot::Main,
        c: chains(*state),
        d: Draft { seqs: Seq::empty(), anchor: sc.start },
        ip: sc.start,
        m1: nothing(),
        start0: 0,
        m0: nothing(),
        start2: 0,
        m2: nothing(),
    };
    assert(dst@.take(0) =~= Seq::<u8>::empty());
    if v.base.len() - v.src_off < MFLIMIT + 1 {
        return last_literals(v.base, dst, w.anchor, 0, limit, v.src_off, Ghost(s.d));
    }
    let ghost want = sc.lazy_run(limit, room, tries, s);
    let mflimit = v.base.len() - MFLIMIT;
    loop
        invariant
            state.wf(),
            same_but_tables(*state, *old(state)),
            in_order(*v, dict_ctx),
            sc == scene_of(*v, dict_ctx, little),
            mflimit == sc.mflimit(),
            dst@.len() == room,
            room == old(dst)@.len(),
            sc.lazy_ok(s),
            walks(w, chains(*state), dst@, s),
            want == sc.lazy_run(limit, room, tries, s),
            want == sc.lazy_outcome(chains(*old(state)), limit, room, tries),
        decreases sc.len() - s.edge(), s.rank(),
    {
        if w.spot == Spot::Main && w.ip > mflimit {
            return last_literals(
                v.base,
                dst,
                w.anchor,
                w.op,
                limit,
                v.src_off,
                Ghost(s.d),
            );
        }
        let ghost next = match s.spot {
            Spot::Main => sc.lazy_main(tries, s),
            Spot::Two => sc.lazy_two(limit, room, tries, s),
            Spot::Three => sc.lazy_three(limit, room, tries, s),
        };
        let r = match w.spot {
            Spot::Main => {
                proof {
                    sc.lemma_lazy_main(tries, s);
                }
                walk_main(
                    state,
                    v,
                    &mut w,
                    tries,
                    dict_ctx,
                    little,
                    Ghost(sc),
                    Ghost(s),
                    Ghost(dst@),
                )
            },
            Spot::Two => {
                proof {
                    sc.lemma_lazy_two(limit, room, tries, s);
                }
                walk_two(
                    state,
                    v,
                    dst,
                    &mut w,
                    limit,
                    tries,
                    dict_ctx,
                    little,
                    Ghost(sc),
                    Ghost(s),
                )
            },
            Spot::Three => {
                proof {
                    sc.lemma_lazy_three(limit, room, tries, s);
                }
                walk_three(
                    state,
                    v,
                    dst,
                    &mut w,
                    limit,
                    tries,
                    dict_ctx,
                    little,
                    Ghost(sc),
                    Ghost(s),
                )
            },
        };
        if let Some(x) = r {
            return x;
        }
        proof {
            s = next->Go_0;
        }
    }
}

} // verus!
