//! How thorough the search for matches along chains is, told by what it finds
//! and by what the middle levels leave in literals.
use vstd::prelude::*;
use crate::block::encode::lemma_ext_len;
use crate::block::greedy::uniform;
use crate::block::parse::common;
use crate::block::search::{lemma_common_bounds, lemma_common_reaches};
use crate::format::{enc_block, enc_seq, enc_seqs, len_ext, min_int, Sq, MFLIMIT, MINMATCH};
use super::chase::{lemma_slot, slot, Chains, Chase, Chased, Found, Hunt};
use super::lazy::{lazy_hunt, nothing, Lazy, LazyNext, Put, Spot};
use super::output::{Done, Draft};
use super::scene::{agree, same4, Scene};
use super::Limit;

verus! {

impl Scene {
    /// Where the byte of index `i` is entered.
    pub open spec fn slot_of(self, i: int) -> int {
        slot(self.base, i - self.prefix, self.little)
    }

    /// The last index before `i`, from `from` on, that is entered at `h`; a
    /// negative number where there is none.
    pub open spec fn newest(self, h: int, from: int, i: int) -> int
        decreases i - from,
    {
        if i <= from {
            -1
        } else if self.slot_of(i - 1) == h {
            i - 1
        } else {
            self.newest(h, from, i - 1)
        }
    }

    /// How many indices before `i`, from `from` on, are entered at `h`.
    pub open spec fn alike(self, h: int, from: int, i: int) -> int
        decreases i - from,
    {
        if i <= from {
            0
        } else {
            self.alike(h, from, i - 1) + if self.slot_of(i - 1) == h {
                1int
            } else {
                0
            }
        }
    }

    proof fn lemma_newest(self, h: int, from: int, i: int)
        requires
            0 <= from,
        ensures
            self.newest(h, from, i) < i || self.newest(h, from, i) == -1,
            self.newest(h, from, i) >= 0 ==> from <= self.newest(h, from, i) && self.slot_of(
                self.newest(h, from, i),
            ) == h,
            forall|j: int|
                from <= j < i && #[trigger] self.slot_of(j) == h ==> j <= self.newest(h, from, i),
        decreases i - from,
    {
        if i > from && self.slot_of(i - 1) != h {
            self.lemma_newest(h, from, i - 1);
        }
    }

    /// The last one counts for one.
    proof fn lemma_alike(self, h: int, from: int, i: int, j: int)
        requires
            0 <= from <= j < i,
            self.slot_of(j) == h,
        ensures
            ({
                let r = self.newest(h, from, i);
                &&& j <= r < i
                &&& self.alike(h, from, i) == self.alike(h, from, r) + 1
            }),
            0 <= self.alike(h, from, i),
        decreases i,
    {
        self.lemma_newest(h, from, i);
        if self.slot_of(i - 1) != h {
            self.lemma_alike(h, from, i - 1, j);
        } else {
            self.lemma_alike_positive(h, from, i - 1);
        }
    }

    proof fn lemma_alike_positive(self, h: int, from: int, i: int)
        ensures
            0 <= self.alike(h, from, i),
        decreases i - from,
    {
        if i > from {
            self.lemma_alike_positive(h, from, i - 1);
        }
    }

    /// Whether the tables hold the chains of all indices from `from` up to `f`.
    pub open spec fn charts(self, c: Chains, from: int, f: int) -> bool {
        &&& c.wf()
        &&& forall|h: int|
            0 <= h < c.hash.len() && self.newest(h, from, f) >= 0 ==> #[trigger] c.hash[h]
                == self.newest(h, from, f)
        &&& forall|i: int|
            from <= i < f && f <= i + 65536 && self.newest(self.slot_of(i), from, i) >= 0
                ==> #[trigger] c.step(i) == min_int(
                65535,
                i - self.newest(self.slot_of(i), from, i),
            )
    }

    proof fn lemma_enter(self, c: Chains, from: int, f: int)
        requires
            self.wf(),
            self.charts(c, from, f),
            self.prefix <= from <= f,
            f - self.prefix + 4 <= self.len(),
        ensures
            self.charts(c.enter(self.base, self.prefix, f, self.little), from, f + 1),
    {
        let d = c.enter(self.base, self.prefix, f, self.little);
        let h0 = self.slot_of(f);
        lemma_slot(self.base, f - self.prefix, self.little);
        assert forall|h: int|
            0 <= h < d.hash.len() && self.newest(h, from, f + 1) >= 0 implies #[trigger] d.hash[h]
            == self.newest(h, from, f + 1) by {
            if h != h0 {
                assert(d.hash[h] == c.hash[h]);
                assert(self.newest(h, from, f + 1) == self.newest(h, from, f));
            } else {
                assert(self.newest(h, from, f + 1) == f);
            }
        }
        assert forall|i: int|
            from <= i < f + 1 && f + 1 <= i + 65536 && self.newest(self.slot_of(i), from, i)
                >= 0 implies #[trigger] d.step(i) == min_int(
            65535,
            i - self.newest(self.slot_of(i), from, i),
        ) by {
            if i == f {
                let r = self.newest(h0, from, f);
                self.lemma_newest(h0, from, f);
                assert(c.hash[h0] == r);
            } else {
                assert(i % 65536 != f % 65536);
                assert(d.step(i) == c.step(i));
            }
        }
    }

    proof fn lemma_enter_more(self, c: Chains, from: int, f: int, target: int)
        requires
            self.wf(),
            self.charts(c, from, f),
            self.prefix <= from <= f <= target,
            target - self.prefix + 3 <= self.len(),
        ensures
            self.charts(
                c.enter_upto(self.base, self.prefix, f, target, self.little),
                from,
                target,
            ),
        decreases target - f,
    {
        if f < target {
            self.lemma_enter(c, from, f);
            self.lemma_enter_more(
                c.enter(self.base, self.prefix, f, self.little),
                from,
                f + 1,
                target,
            );
        }
    }

    /// Entering positions keeps the tables charted: the hash table holds the last
    /// of all that are entered at each place, and the chain leads from each to
    /// the one before it, or as far back as it can tell.
    pub proof fn law_entered_chains(self, c: Chains, from: int, at: int)
        requires
            self.wf(),
            self.charts(c, from, c.next as int),
            self.prefix <= from <= c.next <= self.index(at),
            at + 3 <= self.len(),
        ensures
            ({
                let d = c.upto(self.base, self.prefix, at, self.little);
                &&& self.charts(d, from, self.index(at))
                &&& d.next == self.index(at)
            }),
    {
        self.lemma_enter_more(c, from, c.next as int, self.index(at));
        let d = c.upto(self.base, self.prefix, at, self.little);
        let e = c.enter_upto(self.base, self.prefix, c.next as int, self.index(at), self.little);
        assert forall|i: int| #[trigger] d.step(i) == e.step(i) by {}
        assert(d.hash == e.hash);
    }

    /// How many candidates are sure to be tried: all that may be, unless runs
    /// or other chains lead past some.
    pub open spec fn sure_tries(h: Hunt) -> int {
        if h.pattern || h.swap {
            1
        } else {
            h.tries as int
        }
    }

    /// Whether the position `q` is among the candidates for a match at `p` that
    /// are tried, if `n` are: it has the same hash, is entered, lies at most
    /// 65,535 bytes back, and fewer than `n` others with that hash lie between.
    pub open spec fn candidate(self, from: int, q: int, p: int, n: int) -> bool {
        &&& from <= self.index(q)
        &&& q < p <= q + 65535
        &&& self.slot_of(self.index(q)) == self.slot_of(self.index(p))
        &&& self.alike(self.slot_of(self.index(p)), self.index(q) + 1, self.index(p)) < n
    }

    /// How many bytes at `p` agree with those at `q`, before `limit`.
    pub open spec fn agreeing(self, p: int, q: int, limit: int) -> int {
        common(self.base, p, self.base, q, limit - p)
    }

    /// A search never forgets its best match.
    pub proof fn lemma_keeps(self, h: Hunt, c: Chains, s: Chase)
        requires
            h.ip == h.low,
            s.longest >= s.best.len,
        ensures
            self.chase(h, c, s).best.len >= s.best.len,
        decreases s.tries,
    {
        if s.mi >= self.lowest(h.ip as int) && s.tries > 0 {
            reveal(Scene::try_one);
            reveal(Scene::follow);
            reveal(Scene::ride);
            if let Chased::On(t) = self.try_one(h, c, s) {
                if 0 <= t.tries < s.tries {
                    self.lemma_keeps(h, c, t);
                }
            }
        }
    }

    /// A candidate that agrees longer than any before becomes the best.
    proof fn lemma_compared(self, h: Hunt, q: int, s: Chase)
        requires
            self.hunts(h),
            h.ip == h.low,
            !h.favor,
            s.mi == self.index(q),
            0 <= q < h.ip,
            s.longest >= 1,
            self.agreeing(h.ip as int, q, h.high as int) >= 4,
        ensures
            self.compared(h, s).1.longest >= self.agreeing(h.ip as int, q, h.high as int),
            s.longest >= s.best.len ==> self.compared(h, s).1.longest >= self.compared(h, s).1.best.len,
            s.longest < self.agreeing(h.ip as int, q, h.high as int) ==> self.compared(
                h,
                s,
            ).1.best.len >= self.agreeing(h.ip as int, q, h.high as int),
            self.compared(h, s).1.mi == s.mi,
    {
        reveal(Scene::near_probe);
        let ip = h.ip as int;
        let n = self.agreeing(ip, q, h.high as int);
        lemma_common_bounds(self.base, ip, self.base, q, h.high - ip);
        assert(self.base[ip + 0] == self.base[q + 0]);
        assert(self.base[ip + 1] == self.base[q + 1]);
        assert(self.base[ip + 2] == self.base[q + 2]);
        assert(self.base[ip + 3] == self.base[q + 3]);
        lemma_common_reaches(self.base, ip, self.base, q, h.high - ip, 4);
        assert(agree(self.base, ip + 4, self.base, q + 4, h.high as int) == n - 4) by {
            if ip + 4 < h.high {
                assert(h.high - (ip + 4) < self.len() - (q + 4));
            } else {
                assert(n == 4);
            }
        }
        if s.longest < n {
            assert(self.base[ip + (s.longest - 1)] == self.base[q + (s.longest - 1)]);
            assert(self.base[ip + s.longest] == self.base[q + s.longest]);
        }
    }

    /// Between a candidate and the one before it there is none.
    proof fn lemma_between(self, h: int, from: int, low: int, i: int)
        requires
            0 <= from <= low < i,
            self.slot_of(low) == h,
        ensures
            ({
                let r = self.newest(h, from, i);
                &&& low <= r < i
                &&& self.slot_of(r) == h
                &&& self.alike(h, low + 1, i) == self.alike(h, low + 1, r + 1)
            }),
        decreases i,
    {
        self.lemma_newest(h, from, i);
        if self.slot_of(i - 1) != h {
            self.lemma_between(h, from, low, i - 1);
        }
    }

    /// Whether the length to beat is the one asked for or that of the best match.
    spec fn tallies(h: Hunt, s: Chase) -> bool {
        &&& s.longest >= h.least
        &&& s.longest == s.best.len || s.longest == h.least && s.best.len <= s.longest
    }

    proof fn lemma_chase_finds(self, h: Hunt, c: Chains, from: int, q: int, s: Chase)
        requires
            self.hunts(h),
            h.ip == h.low,
            !h.favor,
            self.charts(c, from, self.index(h.ip as int)),
            self.prefix <= from <= self.index(q),
            q < h.ip <= q + 65535,
            self.slot_of(self.index(q)) == self.slot_of(self.index(h.ip as int)),
            self.index(q) <= s.mi < self.index(h.ip as int),
            self.slot_of(s.mi) == self.slot_of(self.index(h.ip as int)),
            s.mi == self.index(q) || !h.pattern && !h.swap,
            s.hop == 0,
            self.alike(self.slot_of(s.mi), self.index(q) + 1, s.mi + 1) < s.tries,
            Self::tallies(h, s),
            self.agreeing(h.ip as int, q, h.high as int) >= 4,
        ensures
            ({
                let n = self.agreeing(h.ip as int, q, h.high as int);
                n <= h.least || self.chase(h, c, s).best.len >= n
            }),
        decreases s.tries,
    {
        let ip = h.ip as int;
        let n = self.agreeing(ip, q, h.high as int);
        let s1 = Chase { tries: s.tries - 1, ..s };
        let (k, s2) = self.compared(h, s1);
        self.lemma_alike_positive(self.slot_of(s.mi), self.index(q) + 1, s.mi + 1);
        reveal(Scene::try_one);
        if s.mi == self.index(q) {
            self.lemma_compared(h, q, s1);
            assert(n <= h.least || s2.best.len >= n);
            let after = self.try_one(h, c, s);
            assert(self.follow(h, c, k, s2) == after);
            match after {
                Chased::End(t) => {
                    self.lemma_follow_keeps(h, c, k, s2);
                },
                Chased::On(t) => {
                    self.lemma_follow_keeps(h, c, k, s2);
                    if 0 <= t.tries < s.tries {
                        self.lemma_keeps(h, c, t);
                    }
                },
            }
        } else {
            let slot = self.slot_of(s.mi);
            self.lemma_between(slot, from, self.index(q), s.mi);
            let r = self.newest(slot, from, s.mi);
            assert(c.step(s.mi) == s.mi - r);
            let t = Chase { mi: r, ..s2 };
            assert(self.try_one(h, c, s) == Chased::On(t)) by {
                reveal(Scene::follow);
            }
            assert(Self::tallies(h, s2));
            assert(self.alike(slot, self.index(q) + 1, s.mi + 1) == self.alike(
                slot,
                self.index(q) + 1,
                s.mi,
            ) + 1);
            self.lemma_chase_finds(h, c, from, q, t);
        }
    }

    pub proof fn lemma_follow_keeps(self, h: Hunt, c: Chains, n: int, s: Chase)
        requires
            s.longest >= s.best.len,
        ensures
            match self.follow(h, c, n, s) {
                Chased::End(t) => t.longest >= t.best.len >= s.best.len,
                Chased::On(t) => t.longest >= t.best.len >= s.best.len,
            },
    {
        reveal(Scene::follow);
        reveal(Scene::ride);
    }

    /// A search finds a match at least as long as that with any candidate which
    /// is sure to be tried, if it is longer than what was asked for.
    pub proof fn law_wider_is_longest(self, h: Hunt, c: Chains, from: int, q: int)
        requires
            self.hunts(h),
            h.ip == h.low,
            !h.favor,
            self.attached is None,
            self.charts(c, from, self.index(h.ip as int)),
            self.prefix <= from,
            h.tries >= 1,
            self.candidate(from, q, h.ip as int, Self::sure_tries(h)),
        ensures
            ({
                let n = self.agreeing(h.ip as int, q, h.high as int);
                n >= 4 && n > h.least ==> self.wider(h, c).len >= n
            }),
    {
        let i = self.index(h.ip as int);
        let slot = self.slot_of(i);
        lemma_slot(self.base, h.ip as int, self.little);
        self.lemma_between(slot, from, self.index(q), i);
        let r = self.newest(slot, from, i);
        assert(c.hash[slot] == r);
        if self.alike(slot, self.index(q) + 1, i) < 1 && r > self.index(q) {
            self.lemma_alike(slot, self.index(q) + 1, i, r);
            self.lemma_alike_positive(slot, self.index(q) + 1, self.newest(slot, self.index(q) + 1, i));
        }
        let s0 = Chase {
            mi: r,
            tries: h.tries as int,
            hop: 0,
            longest: h.least as int,
            best: Found { len: 0, off: 0, back: 0 },
        };
        if self.agreeing(h.ip as int, q, h.high as int) >= 4 {
            self.lemma_chase_finds(h, c, from, q, s0);
        }
    }

    /// Whether no candidate that is sure to be tried for a match at `p` agrees
    /// with it in four bytes.
    pub open spec fn unmatched(self, from: int, p: int, n: int) -> bool {
        forall|q: int| #[trigger] self.candidate(from, q, p, n) ==> !same4(self.base, p, self.base, q)
    }

    /// How many candidates the middle levels are sure to try.
    pub open spec fn lazy_tries(tries: usize) -> int {
        if tries > 128 {
            1
        } else {
            tries as int
        }
    }

    /// Where the next search of a parse is, at least.
    spec fn frontier(self, s: Lazy) -> int {
        self.index(
            match s.spot {
                Spot::Main => s.ip,
                Spot::Two => s.ip + s.m1.len - 2,
                Spot::Three => s.start2 + s.m2.len - 3,
            },
        )
    }

    /// What holds throughout a parse of the middle levels: the tables are
    /// charted, and the literals before `ip` have no match.
    spec fn thorough(self, from: int, n: int, s: Lazy) -> bool {
        &&& self.charts(s.c, from, s.c.next as int)
        &&& from <= s.c.next <= self.frontier(s)
        &&& s.spot == Spot::Main ==> forall|p: int|
            s.d.anchor <= p < s.ip ==> #[trigger] self.unmatched(from, p, n)
    }

    /// Whether a decision keeps that, or leaves charted tables.
    spec fn stays_thorough(self, from: int, n: int, next: LazyNext) -> bool {
        match next {
            LazyNext::End(_, c) => self.charts(c, from, c.next as int),
            LazyNext::Go(t) => self.thorough(from, n, t),
        }
    }

    proof fn lemma_main_thorough(self, from: int, tries: usize, s: Lazy)
        requires
            self.wf(),
            self.attached is None,
            self.len() <= usize::MAX,
            tries >= 1,
            self.prefix <= from,
            self.lazy_ok(s),
            s.spot == Spot::Main,
            s.ip <= self.mflimit(),
            self.thorough(from, Self::lazy_tries(tries), s),
        ensures
            self.lazy_main(tries, s) matches LazyNext::Go(t) && self.thorough(
                from,
                Self::lazy_tries(tries),
                t,
            ),
    {
        reveal(Scene::lazy_main);
        let n = Self::lazy_tries(tries);
        let c = s.c.upto(self.base, self.prefix, s.ip, self.little);
        let h = lazy_hunt(self, s.ip, s.ip, 3, tries);
        let m = self.wider(h, c);
        self.law_entered_chains(s.c, from, s.ip);
        if m.len < MINMATCH {
            assert forall|q: int| #[trigger] self.candidate(from, q, s.ip, n) implies !same4(
                self.base,
                s.ip,
                self.base,
                q,
            ) by {
                self.law_wider_is_longest(h, c, from, q);
                if same4(self.base, s.ip, self.base, q) {
                    let a = self.base;
                    assert forall|k: int| 0 <= k < 4 implies #[trigger] a[s.ip + k] == a[q + k] by {
                        assert(k == 0 || k == 1 || k == 2 || k == 3);
                    }
                    lemma_common_reaches(a, s.ip, a, q, self.matchlimit() - s.ip, 4);
                    lemma_common_bounds(
                        a,
                        s.ip + 4,
                        a,
                        q + 4,
                        self.matchlimit() - s.ip - 4,
                    );
                }
            }
            assert(self.unmatched(from, s.ip, n));
        }
    }

    proof fn lemma_overlap_charts(self, c: Chains, from: int, low: int, least: int, lap: int, tries: usize)
        requires
            self.wf(),
            self.prefix <= from <= c.next <= self.index(low + least - lap),
            self.charts(c, from, c.next as int),
            2 <= lap <= 3,
        ensures
            ({
                let c1 = self.overlap(c, low, least, lap, tries).2;
                &&& self.charts(c1, from, c1.next as int)
                &&& from <= c1.next <= self.index(low + least - lap)
            }),
    {
        reveal(Scene::overlap);
        if low + least <= self.mflimit() {
            self.law_entered_chains(c, from, low + least - lap);
        }
    }

    proof fn lemma_two_thorough(self, from: int, limit: Limit, room: int, tries: usize, s: Lazy)
        requires
            self.wf(),
            self.len() <= usize::MAX,
            self.prefix <= from,
            self.lazy_ok(s),
            s.spot == Spot::Two,
            self.thorough(from, Self::lazy_tries(tries), s),
        ensures
            self.stays_thorough(
                from,
                Self::lazy_tries(tries),
                self.lazy_two(limit, room, tries, s),
            ),
    {
        self.lemma_overlap(s.c, s.ip, s.m1.len, 2, tries);
        self.lemma_overlap_charts(s.c, from, s.ip, s.m1.len, 2, tries);
        reveal(Scene::lazy_two);
    }

    proof fn lemma_three_thorough(self, from: int, limit: Limit, room: int, tries: usize, s0: Lazy)
        requires
            self.wf(),
            self.len() <= usize::MAX,
            self.prefix <= from,
            self.lazy_ok(s0),
            s0.spot == Spot::Three,
            self.thorough(from, Self::lazy_tries(tries), s0),
        ensures
            self.stays_thorough(
                from,
                Self::lazy_tries(tries),
                self.lazy_three(limit, room, tries, s0),
            ),
    {
        self.lemma_settled(s0);
        let s1 = self.settled(s0);
        self.lemma_overlap(s1.c, s1.start2, s1.m2.len, 3, tries);
        self.lemma_overlap_charts(s1.c, from, s1.start2, s1.m2.len, 3, tries);
        reveal(Scene::lazy_three);
        reveal(Scene::take_both);
        reveal(Scene::take_next);
        reveal(Scene::take_first);
    }

    /// Where the room is not to be filled, a block ends early only without one.
    proof fn lemma_no_cut(self, limit: Limit, room: int, tries: usize, s: Lazy)
        requires
            limit != Limit::FillOutput,
        ensures
            self.lazy_two(limit, room, tries, s) matches LazyNext::End(done, _) ==> done.block is None,
            self.lazy_three(limit, room, tries, s) matches LazyNext::End(done, _)
                ==> done.block is None,
            self.lazy_main(tries, s) is Go,
    {
        reveal(Scene::lazy_main);
        reveal(Scene::lazy_two);
        reveal(Scene::lazy_three);
        reveal(Scene::take_both);
        reveal(Scene::take_next);
        reveal(Scene::take_first);
    }

    proof fn lemma_run_thorough(self, from: int, limit: Limit, room: int, tries: usize, s: Lazy)
        requires
            self.wf(),
            self.attached is None,
            self.len() <= usize::MAX,
            tries >= 1,
            self.prefix <= from,
            limit != Limit::FillOutput,
            self.lazy_ok(s),
            self.thorough(from, Self::lazy_tries(tries), s),
        ensures
            self.lazy_run(limit, room, tries, s).0.block matches Some((seqs, last)) ==> forall|
                p: int,
            |
                self.len() - last.len() <= p <= self.mflimit() ==> #[trigger] self.unmatched(
                    from,
                    p,
                    Self::lazy_tries(tries),
                ),
            ({
                let d = self.lazy_run(limit, room, tries, s).1;
                self.charts(d, from, d.next as int)
            }),
        decreases self.len() - s.edge(), s.rank(),
    {
        self.lemma_no_cut(limit, room, tries, s);
        match s.spot {
            Spot::Main => {
                if s.ip <= self.mflimit() {
                    self.lemma_lazy_main(tries, s);
                    self.lemma_main_thorough(from, tries, s);
                    self.lemma_run_thorough(
                        from,
                        limit,
                        room,
                        tries,
                        self.lazy_main(tries, s)->Go_0,
                    );
                }
            },
            Spot::Two => {
                self.lemma_lazy_two(limit, room, tries, s);
                self.lemma_two_thorough(from, limit, room, tries, s);
                if let LazyNext::Go(t) = self.lazy_two(limit, room, tries, s) {
                    self.lemma_run_thorough(from, limit, room, tries, t);
                }
            },
            Spot::Three => {
                self.lemma_lazy_three(limit, room, tries, s);
                self.lemma_three_thorough(from, limit, room, tries, s);
                if let LazyNext::Go(t) = self.lazy_three(limit, room, tries, s) {
                    self.lemma_run_thorough(from, limit, room, tries, t);
                }
            },
        }
    }

    /// The middle levels leave no match in the literals at the end of a block:
    /// at none of them, up to twelve bytes before the end, does a candidate that
    /// is sure to be tried agree in four bytes. Candidates are all positions of
    /// the block, and those before it that the tables hold the chains of. The
    /// length of the block plays no part in that. The tables that are left hold
    /// the chains of the block too.
    pub proof fn law_lazy_is_thorough(self, c: Chains, from: int, limit: Limit, room: int, tries: usize, p: int)
        requires
            self.wf(),
            self.attached is None,
            self.len() <= usize::MAX,
            self.charts(c, from, c.next as int),
            self.prefix <= from <= c.next <= self.index(self.start),
            self.start + MFLIMIT < self.len(),
            limit != Limit::FillOutput,
            tries >= 1,
            p <= self.mflimit(),
        ensures
            self.lazy_outcome(c, limit, room, tries).0.block matches Some((seqs, last)) ==> (
            self.len() - last.len() <= p ==> self.unmatched(from, p, Self::lazy_tries(tries))),
            ({
                let d = self.lazy_outcome(c, limit, room, tries).1;
                self.charts(d, from, d.next as int)
            }),
    {
        let s = Lazy {
            spot: Spot::Main,
            c,
            d: Draft { seqs: Seq::empty(), anchor: self.start },
            ip: self.start,
            m1: nothing(),
            start0: 0,
            m0: nothing(),
            start2: 0,
            m2: nothing(),
        };
        self.lemma_run_thorough(from, limit, room, tries, s);
    }

    /// Whether nothing precedes the block, and the tables know of nothing.
    pub open spec fn blank(self, c: Chains) -> bool {
        &&& self.wf()
        &&& self.attached is None
        &&& self.dict.len() == 0
        &&& self.start == 0
        &&& c.wf()
        &&& c.next == self.prefix
        &&& forall|h: int| 0 <= h < c.hash.len() ==> #[trigger] c.hash[h] < self.prefix
    }

    /// At the first byte of all there is nothing to find.
    pub proof fn lemma_first(self, c: Chains, h: Hunt)
        requires
            self.blank(c),
            h.ip == 0,
        ensures
            self.wider(h, c).len == 0,
    {
        lemma_slot(self.base, 0, self.little);
    }

    /// In a run, the second byte repeats the first, up to the end.
    pub proof fn lemma_second(self, c: Chains, h: Hunt)
        requires
            self.blank(c),
            uniform(self.base),
            self.hunts(h),
            h.ip == 1,
            h.low == 1,
            !h.favor,
            h.tries >= 1,
            h.least < h.high - 1,
        ensures
            self.wider(h, c.upto(self.base, self.prefix, 1, self.little)) == (Found {
                len: h.high - 1,
                off: 1,
                back: 0,
            }),
    {
        let from = self.prefix as int;
        let d = c.upto(self.base, self.prefix, 1, self.little);
        self.law_entered_chains(c, from, 1);
        self.lemma_slots_alike(0, 1);
        assert(self.alike(self.slot_of(from), from + 1, from + 1) == 0);
        assert(self.candidate(from, 0, 1, Self::sure_tries(h)));
        self.law_wider_is_longest(h, d, from, 0);
        let a = self.base;
        let n = h.high - 1;
        assert forall|k: int| 0 <= k < n implies #[trigger] a[1 + k] == a[0 + k] by {
            assert(a[1 + k] == a[0] && a[k] == a[0]);
        }
        lemma_common_reaches(a, 1, a, 0, n, n);
        self.lemma_wider(h, d);
    }

    proof fn lemma_slots_alike(self, p: int, q: int)
        requires
            uniform(self.base),
            0 <= p,
            p + 4 <= self.len(),
            0 <= q,
            q + 4 <= self.len(),
        ensures
            self.slot_of(self.index(p)) == self.slot_of(self.index(q)),
    {
        reveal(slot);
        let s = self.base;
        assert(s[p] == s[q] && s[p + 1] == s[q + 1] && s[p + 2] == s[q + 2] && s[p + 3] == s[q
            + 3]);
    }

    /// The one sequence of a run: a literal, and a match with all but the last
    /// five bytes.
    pub open spec fn run_block(self) -> (Seq<Sq>, Seq<u8>) {
        let b = self.base[0];
        let n = self.len();
        (seq![Sq { lits: seq![b], off: 1, mlen: n - 6 }], seq![b, b, b, b, b])
    }

    /// Whether `done` is the block of a run if that fits, and nothing otherwise.
    pub open spec fn run_done(self, room: int, done: Done) -> bool {
        let (seqs, last) = self.run_block();
        let size = 1 + 1 + 2 + len_ext(self.len() - 10).len() + 6;
        &&& enc_block(seqs, last).len() == size
        &&& done.block == if size <= room {
            Some((seqs, last))
        } else {
            None
        }
    }

    /// Taking the one match of a run, and the last five bytes.
    pub proof fn lemma_run_put(self, limit: Limit, room: int)
        requires
            uniform(self.base),
            self.len() > MFLIMIT,
            limit != Limit::FillOutput,
        ensures
            ({
                let d = Draft { seqs: Seq::empty(), anchor: 0 };
                match self.put(limit, room, d, 1, self.len() - 6, 1) {
                    Put::Over(done) => self.run_done(room, done),
                    Put::On(e) => e.anchor == self.len() - 5 && self.run_done(
                        room,
                        e.finish(self.base, 0, limit, room),
                    ),
                }
            }),
    {
        let n = self.len();
        let b = self.base[0];
        let d = Draft { seqs: Seq::empty(), anchor: 0 };
        let (seqs, last) = self.run_block();
        let s = seqs[0];
        lemma_ext_len(1);
        lemma_ext_len(5);
        lemma_ext_len(n - 10);
        assert(self.base.subrange(0, 1) =~= seq![b]);
        assert(d.with(self.base, 1, n - 6, 1).seqs =~= seqs);
        let five = self.base.skip(n - 5);
        assert forall|k: int| 0 <= k < 5 implies five[k] == b by {
            assert(self.base[n - 5 + k] == self.base[0]);
        }
        assert(five =~= last);
        assert(seqs.drop_last() =~= Seq::<Sq>::empty());
        assert(enc_seqs(Seq::<Sq>::empty()) =~= Seq::<u8>::empty());
        assert(enc_seqs(seqs) =~= enc_seq(s));
    }

    /// At the middle levels a run of one byte is one literal, one match, and the
    /// five bytes at the end, however long it is.
    pub proof fn law_lazy_run(self, c: Chains, limit: Limit, room: int, tries: usize)
        requires
            self.blank(c),
            uniform(self.base),
            MFLIMIT < self.len() <= usize::MAX,
            limit != Limit::FillOutput,
            tries >= 1,
        ensures
            self.run_done(room, self.lazy_outcome(c, limit, room, tries).0),
    {
        let n = self.len();
        let d = Draft { seqs: Seq::empty(), anchor: 0 };
        let s0 = Lazy {
            spot: Spot::Main,
            c,
            d,
            ip: 0,
            m1: nothing(),
            start0: 0,
            m0: nothing(),
            start2: 0,
            m2: nothing(),
        };
        let c0 = c.upto(self.base, self.prefix, 0, self.little);
        assert(c0 =~= c);
        self.lemma_first(c, lazy_hunt(self, 0, 0, 3, tries));
        let s1 = Lazy { ip: 1, ..s0 };
        assert(self.lazy_main(tries, s0) == LazyNext::Go(s1)) by {
            reveal(Scene::lazy_main);
        }
        let c1 = c.upto(self.base, self.prefix, 1, self.little);
        let m = Found { len: n - 6, off: 1, back: 0 };
        self.lemma_second(c, lazy_hunt(self, 1, 1, 3, tries));
        let s2 = Lazy { spot: Spot::Two, c: c1, m1: m, start0: 1, m0: m, ..s1 };
        assert(self.lazy_main(tries, s1) == LazyNext::Go(s2)) by {
            reveal(Scene::lazy_main);
        }
        let next = self.lazy_two(limit, room, tries, s2);
        self.lemma_run_put(limit, room);
        reveal(Scene::lazy_two);
        reveal(Scene::overlap);
        assert(self.lazy_run(limit, room, tries, s0) == self.lazy_run(limit, room, tries, s1));
        assert(self.lazy_run(limit, room, tries, s1) == self.lazy_run(limit, room, tries, s2));
        if let LazyNext::Go(t) = next {
            assert(t.spot == Spot::Main && t.ip == n - 5);
            assert(self.lazy_run(limit, room, tries, s2) == self.lazy_run(limit, room, tries, t));
        }
    }
}

} // verus!
