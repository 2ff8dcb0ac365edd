//! What the levels make of a run of one byte.
use vstd::prelude::*;
use crate::block::compress::LZ4_MAX_INPUT_SIZE;
use crate::block::greedy::uniform;
use crate::block::search::lemma_common_reaches;
use crate::bytes::{le32, le64};
use crate::format::{enc_block, len_ext, MFLIMIT};
use super::chase::{Chains, Found};
use super::mid::{slot4, slot8, Mid, MidNext, MidTables, Pick};
use super::optimal::{
    path, seeded, unpriced, Effort, Opt, OptNext, Plan, Step, OPT_ENTRIES, OPT_NUM,
};
use super::output::Draft;
use super::scene::{agree, Scene};
use super::{
    effort_of, generic_outcome, mid_tables, params_of, Limit, Strategy, LZ4MID_HASHTABLESIZE,
};

verus! {

impl Scene {
    /// All positions of a run hash alike.
    proof fn lemma_mid_slots(self, p: int, q: int)
        requires
            uniform(self.base),
            0 <= p,
            p + 8 <= self.len(),
            0 <= q,
            q + 8 <= self.len(),
        ensures
            slot4(self.base, p) == slot4(self.base, q),
            slot8(self.base, p) == slot8(self.base, q),
    {
        reveal(slot4);
        reveal(slot8);
        let s = self.base;
        assert(s[p] == s[q] && s[p + 1] == s[q + 1] && s[p + 2] == s[q + 2] && s[p + 3] == s[q + 3]
            && s[p + 4] == s[q + 4] && s[p + 5] == s[q + 5] && s[p + 6] == s[q + 6] && s[p + 7]
            == s[q + 7]);
        assert(le32(s, p) == le32(s, q));
        assert(le64(s, p) == le64(s, q));
    }

    /// Whether nothing precedes the block, and the tables know of nothing.
    pub open spec fn mid_blank(self, t: MidTables) -> bool {
        &&& self.wf()
        &&& self.attached is None
        &&& self.dict.len() == 0
        &&& self.start == 0
        &&& t.wf()
        &&& forall|h: int| 0 <= h < t.four.len() ==> #[trigger] t.four[h] < self.prefix
        &&& forall|h: int| 0 <= h < t.eight.len() ==> #[trigger] t.eight[h] < self.prefix
    }

    /// At the lower levels a run of one byte is one literal, one match, and the
    /// five bytes at the end, however long it is.
    pub proof fn law_mid_run(self, t: MidTables, limit: Limit, room: int)
        requires
            self.mid_blank(t),
            uniform(self.base),
            MFLIMIT < self.len(),
            limit != Limit::FillOutput,
        ensures
            self.run_done(room, self.mid_outcome(t, limit, room).0),
    {
        let n = self.len();
        let d = Draft { seqs: Seq::empty(), anchor: 0 };
        let s0 = Mid { t, d, ip: 0 };
        super::mid::lemma_slots(self.base, 0);
        self.lemma_mid_slots(0, 1);
        let t1 = self.pick(t, 0).1;
        assert(self.pick(t, 0).0 is None && t1.eight[slot8(self.base, 0)] == self.prefix) by {
            reveal(Scene::pick);
            reveal(Scene::reach);
            reveal(Scene::far_pick);
        }
        let s1 = Mid { t: t1, d, ip: 1 };
        assert(self.mid_step(limit, room, s0) == MidNext::Go(s1)) by {
            reveal(Scene::mid_step);
        }
        let a = self.base;
        assert forall|k: int| 0 <= k < n - 6 implies #[trigger] a[1 + k] == a[0 + k] by {
            assert(a[1 + k] == a[0] && a[k] == a[0]);
        }
        lemma_common_reaches(a, 1, a, 0, n - 6, n - 6);
        assert(agree(a, 1, a, 0, n - 5) == n - 6);
        assert(self.pick(t1, 1).0 == Some(Pick { ip: 1, mlen: n - 6, off: 1 })) by {
            reveal(Scene::pick);
            reveal(Scene::reach);
        }
        assert(self.caught(1, 1, 0) == 0);
        self.lemma_run_put(limit, room);
        let next = self.mid_step(limit, room, s1);
        reveal(Scene::mid_step);
        assert(self.mid_run(limit, room, s0) == self.mid_run(limit, room, s1));
        if let MidNext::Go(s2) = next {
            assert(s2.ip == n - 5);
            assert(self.mid_run(limit, room, s1) == self.mid_run(limit, room, s2));
        }
    }

    /// In a run, no position of a stretch that one match reaches to the end of
    /// leads farther.
    proof fn lemma_explore_run(self, f: Effort, p: Plan)
        requires
            self.wf(),
            uniform(self.base),
            self.len() <= usize::MAX,
            !f.full,
            p.last == self.len() - 6,
            1 <= p.cur,
            p.c.wf(),
        ensures
            ({
                let (q, end) = self.explore(1, f, p);
                q.opt == p.opt && q.last == p.last && end is None
            }),
        decreases OPT_NUM - p.cur,
    {
        if !(p.cur >= p.last || p.cur >= OPT_NUM || 1 + p.cur > self.mflimit()) {
            if self.passes(p, f) {
                self.lemma_explore_run(f, Plan { cur: p.cur + 1, ..p });
            } else {
                let least = p.last - p.cur;
                self.lemma_longer(p.c, 1 + p.cur, least, f);
                let (m, c) = self.longer(p.c, 1 + p.cur, least, f);
                assert(m.len == 0) by {
                    reveal(Scene::longer);
                    let c1 = p.c.upto(self.base, self.prefix, 1 + p.cur, self.little);
                    super::chase::lemma_enter_upto(
                        p.c,
                        self.base,
                        self.prefix,
                        p.c.next as int,
                        self.prefix + 1 + p.cur,
                        self.little,
                    );
                    self.lemma_wider(self.opt_hunt(1 + p.cur, least, f), c1);
                }
                self.lemma_explore_run(f, Plan { cur: p.cur + 1, c, ..p });
            }
        }
    }

    /// At the upper levels a run of one byte is one literal, one match, and the
    /// five bytes at the end: however long it is, unless every position is
    /// looked at, and then wherever it is longer than what is taken at once.
    pub proof fn law_optimal_run(self, c: Chains, limit: Limit, room: int, f: Effort)
        requires
            self.blank(c),
            uniform(self.base),
            MFLIMIT < self.len() <= usize::MAX,
            limit != Limit::FillOutput,
            f.searches >= 1,
            !f.favor,
            f.enough < OPT_NUM,
            !f.full || self.len() - 6 > f.enough,
        ensures
            self.run_done(room, self.opt_outcome(c, limit, room, f).0),
    {
        let n = self.len();
        let d = Draft { seqs: Seq::empty(), anchor: 0 };
        let opt = Seq::new(OPT_ENTRIES as nat, |i: int| unpriced());
        let s0 = Opt { c, d, ip: 0, opt };
        let c0 = c.upto(self.base, self.prefix, 0, self.little);
        assert(c0 =~= c);
        self.lemma_first(c, self.opt_hunt(0, 3, f));
        let s1 = Opt { ip: 1, ..s0 };
        assert(self.opt_step(limit, room, f, s0) == OptNext::Go(s1)) by {
            reveal(Scene::opt_step);
            reveal(Scene::longer);
        }
        let m = Found { len: n - 6, off: 1, back: 0 };
        let c1 = c.upto(self.base, self.prefix, 1, self.little);
        self.lemma_second(c, self.opt_hunt(1, 3, f));
        assert(self.longer(c, 1, 3, f) == (m, c1)) by {
            reveal(Scene::longer);
        }
        self.lemma_run_put(limit, room);
        let next = self.opt_step(limit, room, f, s1);
        if n - 6 <= f.enough {
            let p0 = Plan { opt: seeded(opt, 1, m), last: m.len, cur: 1, c: c1 };
            let step = Step { at: 0, len: n - 6, off: 1 };
            let (p, end) = self.explore(1, f, p0);
            self.law_entered_chains(c, self.prefix as int, 1);
            self.lemma_explore_run(f, p0);
            assert(self.route(p, end) =~= seq![step]) by {
                reveal(seeded);
                assert(path(p.opt, 0) =~= Seq::<Step>::empty());
            }
            assert(self.follow_route(limit, room, d, 1, seq![step], 0) == self.put(
                limit,
                room,
                d,
                1,
                n - 6,
                1,
            )) by {
                reveal_with_fuel(Scene::follow_route, 2);
            }
        }
        reveal(Scene::opt_step);
        assert(self.opt_run(limit, room, f, s0) == self.opt_run(limit, room, f, s1));
        if let OptNext::Go(s2) = next {
            assert(s2.ip == n - 5);
            assert(self.opt_run(limit, room, f, s1) == self.opt_run(limit, room, f, s2));
        }
    }

    /// At every level a run of `n` equal bytes that nothing precedes takes ten
    /// bytes and the extension of one length code, wherever that fits. Only the
    /// highest level, and the choice of matches for the speed of decompression,
    /// may see to it otherwise.
    pub proof fn law_level_run(self, c: Chains, level: i32, limit: Limit, room: int)
        requires
            self.blank(c),
            uniform(self.base),
            MFLIMIT < self.len() <= LZ4_MAX_INPUT_SIZE,
            self.len() <= usize::MAX,
            limit != Limit::FillOutput,
            room >= 0,
            level < 12 || self.len() > OPT_NUM + 5,
        ensures
            ({
                let n = self.len();
                let size = 1 + 1 + 2 + len_ext(n - 10).len() + 6;
                match generic_outcome(self, c, level, false, limit, room).0.block {
                    Some((seqs, last)) => enc_block(seqs, last).len() == size && size <= room,
                    None => size > room,
                }
            }),
    {
        let p = params_of(level);
        match p.strategy {
            Strategy::Mid => {
                let even = Scene { little: true, ..self };
                let t = mid_tables(c);
                assert forall|h: int| 0 <= h < t.four.len() implies #[trigger] t.four[h]
                    < self.prefix by {
                    assert(t.four[h] == c.hash[h]);
                }
                assert forall|h: int| 0 <= h < t.eight.len() implies #[trigger] t.eight[h]
                    < self.prefix by {
                    assert(t.eight[h] == c.hash[LZ4MID_HASHTABLESIZE + h]);
                }
                even.law_mid_run(t, limit, room);
            },
            Strategy::HashChain => {
                self.law_lazy_run(c, limit, room, p.searches);
            },
            Strategy::Optimal => {
                self.law_optimal_run(c, limit, room, effort_of(level, false));
            },
        }
    }
}

} // verus!
