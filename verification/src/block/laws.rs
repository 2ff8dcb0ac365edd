//! What holds of every greedy parse: it stands for the block it was made from,
//! and it fits the room that is enough for every block of that size.
use vstd::prelude::*;
use crate::format::{
    content, echoes, enc_block, end_ok, enc_seqs, encodes, lemma_lz_copy_unique, seqs_ok, Sq,
    LASTLITERALS, LZ4_DISTANCE_MAX, MFLIMIT, MINMATCH,
};
use super::compress::{bound, lemma_seq_room};
use super::encode::lemma_ext_len;
use super::parse::{Env, Hit, Outcome, Stage, Act};
use super::search::lemma_common_bounds;
use super::table::{Cells, TableType};

verus! {

impl Env {
    /// All the history that a decoder of the block needs.
    pub open spec fn full_hist(self) -> Seq<u8> {
        match self.attached {
            Some(a) => a.hist,
            None => self.hist,
        }
    }

    /// Whether indices and histories fit together.
    pub open spec fn wf(self) -> bool {
        &&& self.start + self.len() <= u32::MAX
        &&& self.len() <= 0x7E00_0000
        &&& self.hist.len() <= self.start
        &&& self.tt == TableType::U16 ==> self.hist.len() == 0 && self.len() < 0x1_000B
        &&& self.attached matches Some(a) ==> self.tt == TableType::U32 && self.hist.len() == 0
        &&& self.fill ==> self.limited
    }

    /// Whether `m` refers back to bytes equal to its own, `n` of them.
    pub open spec fn holds(self, m: Hit, n: int) -> bool {
        let h = self.full_hist();
        &&& 0 <= m.ip
        &&& m.ip + n <= self.len()
        &&& 1 <= m.off <= LZ4_DISTANCE_MAX
        &&& m.off <= m.ip + h.len()
        &&& forall|k: int|
            0 <= k < n ==> #[trigger] self.src[m.ip + k] == (h + self.src)[m.ip + h.len() - m.off
                + k]
    }

    /// A reference into the window of a match is one into the whole history.
    pub proof fn lemma_window(self, far: bool, p: int)
        requires
            self.wf(),
            0 <= p < self.window(far).len(),
        ensures
            self.window(far)[p] == (self.full_hist() + self.src)[p + self.full_hist().len()
                - self.behind(far).len()],
    {
    }

    pub proof fn lemma_hit(self, cells: Cells, ip: int)
        requires
            self.wf(),
            0 <= ip,
            ip + MFLIMIT <= self.len(),
        ensures
            self.hit(cells, ip) matches Some(m) ==> m.ip == ip && self.holds(m, 4) && m.off <= ip
                + self.behind(m.far).len(),
    {
        reveal(Env::hit);
        reveal(Env::acceptable);
        let (mi, far) = self.lookup(cells, self.hash(ip));
        if self.acceptable(mi, far, ip) {
            let h = self.behind(far);
            let w = self.window(far);
            let p = mi - self.start + h.len();
            let m = Hit { ip, off: ip + self.start - mi, far };
            let f = self.full_hist();
            assert forall|k: int| 0 <= k < 4 implies #[trigger] self.src[m.ip + k] == (f
                + self.src)[m.ip + f.len() - m.off + k] by {
                assert(w.subrange(p, p + 4)[k] == self.src.subrange(ip, ip + 4)[k]);
                self.lemma_window(far, p + k);
            }
        }
    }

    pub proof fn lemma_search(self, cells: Cells, ip: int, step: int, nb: int)
        requires
            self.wf(),
            0 <= ip,
        ensures
            self.search(cells, ip, step, nb).0 matches Some(m) ==> self.holds(m, 4) && ip <= m.ip
                && m.ip + MFLIMIT <= self.len() && m.off <= m.ip + self.behind(m.far).len(),
        decreases self.len() - ip,
    {
        if !(step < 1 || ip + step > self.len() - MFLIMIT + 1) {
            self.lemma_hit(cells, ip);
            if self.hit(cells, ip) is None {
                self.lemma_search(self.enter(cells, ip), ip + step, nb / 64, nb + 1);
            }
        }
    }

    pub proof fn lemma_back(self, m: Hit, anchor: int, n: int)
        requires
            self.wf(),
            self.holds(m, n),
            0 <= anchor <= m.ip,
            m.off <= m.ip + self.behind(m.far).len(),
        ensures
            0 <= self.back(m, anchor) <= m.ip - anchor,
            m.off <= m.ip - self.back(m, anchor) + self.behind(m.far).len(),
            self.holds(
                (Hit { ip: m.ip - self.back(m, anchor), off: m.off, far: m.far }),
                n + self.back(m, anchor),
            ),
        decreases m.ip,
    {
        let p = m.ip + self.behind(m.far).len() - m.off;
        let low = if self.apart && !m.far {
            self.behind(m.far).len() as int
        } else {
            0
        };
        if m.ip > anchor && p > low && self.src[m.ip - 1] == self.window(m.far)[p - 1] {
            let f = self.full_hist();
            let m1 = Hit { ip: m.ip - 1, off: m.off, far: m.far };
            assert forall|k: int| 0 <= k < n + 1 implies #[trigger] self.src[m1.ip + k] == (f
                + self.src)[m1.ip + f.len() - m1.off + k] by {
                if k == 0 {
                    self.lemma_window(m.far, p - 1);
                } else {
                    assert(self.src[m.ip + (k - 1)] == (f + self.src)[m.ip + f.len() - m.off + (k
                        - 1)]);
                }
            }
            self.lemma_back(m1, anchor, n + 1);
        }
    }

    pub proof fn lemma_match_code(self, m: Hit)
        requires
            self.wf(),
            self.holds(m, 4),
            m.ip + MFLIMIT <= self.len(),
            m.off <= m.ip + self.behind(m.far).len(),
        ensures
            0 <= self.match_code(m),
            m.ip + MINMATCH + self.match_code(m) + LASTLITERALS <= self.len(),
            self.holds(m, MINMATCH + self.match_code(m)),
    {
        let at = m.ip + MINMATCH;
        let h = self.behind(m.far);
        let w = self.window(m.far);
        let f = self.full_hist();
        lemma_common_bounds(
            self.src,
            at,
            w,
            at + h.len() - m.off,
            self.len() - LASTLITERALS - at,
        );
        let mc = self.match_code(m);
        assert forall|k: int| 0 <= k < MINMATCH + mc implies #[trigger] self.src[m.ip + k] == (f
            + self.src)[m.ip + f.len() - m.off + k] by {
            if k >= 4 {
                assert(self.src[at + (k - 4)] == w[at + h.len() - m.off + (k - 4)]);
                self.lemma_window(m.far, at + h.len() - m.off + (k - 4));
            }
        }
    }

    /// The sequences of a stage stand for everything before its anchor.
    pub open spec fn stands(self, st: Stage) -> bool {
        let h = self.full_hist();
        let op = enc_seqs(st.seqs).len();
        &&& 0 <= st.anchor <= self.len()
        &&& seqs_ok(h, st.seqs)
        &&& content(h, st.seqs) == self.src.take(st.anchor)
        &&& st.seqs.len() > 0 ==> {
            let n = st.seqs.last().mlen;
            &&& st.anchor + LASTLITERALS <= self.len()
            &&& st.anchor - n + MFLIMIT <= self.len()
            &&& self.fill ==> self.room - op >= 6
            &&& self.fill && n < 7 ==> self.room - op >= 9
        }
        &&& match st.act {
            Act::TooSmall => true,
            Act::Finish(_) => true,
            Act::Search(ip) => st.anchor < ip,
            Act::Go(m, _) => {
                &&& self.holds(m, 4)
                &&& st.anchor <= m.ip
                &&& m.ip + MFLIMIT <= self.len()
                &&& m.off <= m.ip + self.behind(m.far).len()
            },
        }
    }

    pub proof fn lemma_seek(self, st: Stage, ip: int)
        requires
            self.wf(),
            self.stands(st),
            st.act == Act::Search(ip),
        ensures
            self.stands(self.seek(st.cells, ip, st.anchor, st.seqs)),
    {
        reveal(Env::seek);
        self.lemma_search(st.cells, ip, 1, 64 * self.accel);
        if let Some(m) = self.search(st.cells, ip, 1, 64 * self.accel).0 {
            self.lemma_back(m, st.anchor, 4);
        }
    }

    /// A match extends what the sequences before it stand for.
    proof fn lemma_extend(self, seqs: Seq<Sq>, anchor: int, m: Hit, n: int)
        requires
            self.wf(),
            self.holds(m, n),
            n >= MINMATCH,
            0 <= anchor <= m.ip,
            seqs_ok(self.full_hist(), seqs),
            content(self.full_hist(), seqs) == self.src.take(anchor),
        ensures
            ({
                let s = Sq { lits: self.src.subrange(anchor, m.ip), off: m.off, mlen: n };
                &&& seqs_ok(self.full_hist(), seqs.push(s))
                &&& content(self.full_hist(), seqs.push(s)) == self.src.take(m.ip + n)
            }),
    {
        let h = self.full_hist();
        let s = Sq { lits: self.src.subrange(anchor, m.ip), off: m.off, mlen: n };
        assert(seqs.push(s).drop_last() =~= seqs);
        let out = content(h, seqs) + s.lits;
        assert(out =~= self.src.take(m.ip));
        let w = h + out;
        let r = h + self.src.take(m.ip + n);
        assert forall|i: int| w.len() <= i < w.len() + n implies #[trigger] echoes(r, i, m.off) by {
            let k = i - w.len();
            assert(self.src[m.ip + k] == (h + self.src)[m.ip + h.len() - m.off + k]);
        }
        lemma_lz_copy_unique(w, m.off, n as nat, r);
        assert(r.skip(h.len() as int) =~= self.src.take(m.ip + n));
    }

    #[verifier::rlimit(30)]
    pub proof fn lemma_take(self, st: Stage, m: Hit, filled: int)
        requires
            self.wf(),
            self.stands(st),
            st.act == Act::Go(m, filled),
        ensures
            self.stands(self.take(st.cells, m, st.anchor, filled, st.seqs)),
    {
        reveal(Env::take);
        reveal(Env::land);
        self.lemma_match_code(m);
        let ll = m.ip - st.anchor;
        let op = self.lit_end(m, st.anchor, st.seqs) + 2;
        let mc = self.match_code(m);
        let mc2 = self.fitting_code(m, op);
        let fits = !(self.fill && op + 9 > self.room) && !(self.limited && !self.fill && op + 6 + (
        mc + 240) / 255 > self.room);
        if fits {
            lemma_ext_len(ll);
            lemma_ext_len(mc2);
            let n = mc2 + MINMATCH;
            assert(4 <= n <= mc + 4);
            self.lemma_extend(st.seqs, st.anchor, m, n);
            let s = Sq { lits: self.src.subrange(st.anchor, m.ip), off: m.off, mlen: n };
            assert(st.seqs.push(s).drop_last() =~= st.seqs);
            let e = m.ip + n;
            let cells2 = if mc2 != mc {
                self.forget(st.cells, e, filled)
            } else {
                st.cells
            };
            if e + MFLIMIT <= self.len() {
                self.lemma_hit(self.enter(cells2, e - 2), e);
            }
        }
    }

    proof fn lemma_finish(self, st: Stage, limited: bool)
        requires
            self.wf(),
            self.stands(st),
            self.fill ==> limited,
        ensures
            self.finish(st.cells, st.anchor, st.seqs, limited).block matches Some((seqs, last))
                ==> self.encoded(self.finish(st.cells, st.anchor, st.seqs, limited)),
    {
        reveal(Env::finish);
        let o = self.finish(st.cells, st.anchor, st.seqs, limited);
        if let Some((seqs, last)) = o.block {
            assert(self.src.take(st.anchor) + last =~= self.src.take(o.consumed));
        }
    }

    /// Whether the block of an outcome stands for what it consumed.
    pub open spec fn encoded(self, o: Outcome) -> bool {
        o.block matches Some((seqs, last)) ==> {
            &&& 0 <= o.consumed <= self.len()
            &&& !self.fill ==> o.consumed == self.len()
            &&& content(self.full_hist(), seqs) + last == self.src.take(o.consumed)
            &&& seqs_ok(self.full_hist(), seqs)
            &&& end_ok(seqs, last)
            &&& encodes(self.full_hist(), enc_block(seqs, last), self.src.take(o.consumed))
        }
    }

    proof fn lemma_run(self, st: Stage)
        requires
            self.wf(),
            self.stands(st),
            st.act matches Act::Finish(limited) ==> (self.fill ==> limited),
        ensures
            self.encoded(self.run(st)),
        decreases self.len() - st.anchor, st.rank(),
    {
        match st.act {
            Act::TooSmall => {},
            Act::Finish(limited) => {
                self.lemma_finish(st, limited);
            },
            Act::Search(ip) => {
                let next = self.seek(st.cells, ip, st.anchor, st.seqs);
                self.lemma_seek(st, ip);
                if st.leads_to(next, self.len()) {
                    reveal(Env::seek);
                    self.lemma_run(next);
                }
            },
            Act::Go(m, filled) => {
                let next = self.take(st.cells, m, st.anchor, filled, st.seqs);
                self.lemma_take(st, m, filled);
                if st.leads_to(next, self.len()) {
                    reveal(Env::take);
                    reveal(Env::land);
                    self.lemma_run(next);
                }
            },
        }
    }

    /// Every block that the greedy parse makes is an encoding of the input
    /// that it consumed: all of it, unless it was asked to fill the room.
    pub proof fn law_parse_encodes(self, cells: Cells)
        requires
            self.wf(),
        ensures
            self.encoded(self.parse(cells)),
    {
        let h = self.full_hist();
        let st = Stage {
            act: Act::Search(1),
            cells: self.enter(cells, 0),
            anchor: 0,
            seqs: Seq::empty(),
        };
        assert(self.src.take(0) =~= Seq::empty());
        if self.len() == 0 {
            if let Some((seqs, last)) = self.parse(cells).block {
                assert(content(h, seqs) + last =~= self.src.take(0));
            }
        } else if self.len() < MFLIMIT + 1 {
            self.lemma_finish(
                Stage {
                    act: Act::Finish(self.limited),
                    cells,
                    anchor: 0,
                    seqs: Seq::empty(),
                },
                self.limited,
            );
        } else {
            self.lemma_run(st);
        }
    }

    /// The sequences of a stage take little more room than what they stand
    /// for, and no check of the room has failed.
    spec fn roomy(self, st: Stage) -> bool {
        &&& enc_seqs(st.seqs).len() <= st.anchor + st.anchor / 255
        &&& st.act !is TooSmall
    }

    proof fn lemma_roomy_seek(self, st: Stage, ip: int)
        requires
            self.wf(),
            self.stands(st),
            self.roomy(st),
            !self.fill,
            bound(self.len()) <= self.room,
            st.act == Act::Search(ip),
        ensures
            ({
                let next = self.seek(st.cells, ip, st.anchor, st.seqs);
                self.roomy(next) && st.leads_to(next, self.len())
            }),
    {
        reveal(Env::seek);
        self.lemma_search(st.cells, ip, 1, 64 * self.accel);
        if let Some(m) = self.search(st.cells, ip, 1, 64 * self.accel).0 {
            self.lemma_back(m, st.anchor, 4);
        }
    }

    proof fn lemma_roomy_take(self, st: Stage, m: Hit, filled: int)
        requires
            self.wf(),
            self.stands(st),
            self.roomy(st),
            !self.fill,
            bound(self.len()) <= self.room,
            st.act == Act::Go(m, filled),
        ensures
            ({
                let next = self.take(st.cells, m, st.anchor, filled, st.seqs);
                self.roomy(next) && st.leads_to(next, self.len())
            }),
    {
        reveal(Env::take);
        reveal(Env::land);
        self.lemma_match_code(m);
        let ll = m.ip - st.anchor;
        let mc = self.match_code(m);
        lemma_ext_len(ll);
        lemma_ext_len(mc);
        let s = Sq { lits: self.src.subrange(st.anchor, m.ip), off: m.off, mlen: mc + MINMATCH };
        lemma_seq_room(st.seqs, s, st.anchor);
    }

    proof fn lemma_run_fits(self, st: Stage)
        requires
            self.wf(),
            self.stands(st),
            self.roomy(st),
            !self.fill,
            bound(self.len()) <= self.room,
        ensures
            self.run(st).block matches Some((seqs, last)) && enc_block(seqs, last).len() <= bound(
                self.len(),
            ),
        decreases self.len() - st.anchor, st.rank(),
    {
        match st.act {
            Act::TooSmall => {},
            Act::Finish(limited) => {
                reveal(Env::finish);
                lemma_ext_len(self.len() - st.anchor);
            },
            Act::Search(ip) => {
                self.lemma_seek(st, ip);
                self.lemma_roomy_seek(st, ip);
                self.lemma_run_fits(self.seek(st.cells, ip, st.anchor, st.seqs));
            },
            Act::Go(m, filled) => {
                self.lemma_take(st, m, filled);
                self.lemma_roomy_take(st, m, filled);
                self.lemma_run_fits(self.take(st.cells, m, st.anchor, filled, st.seqs));
            },
        }
    }

    /// With as much room as the bound for its length, a block always fits, and
    /// it stays within the bound.
    pub proof fn law_bound_suffices(self, cells: Cells)
        requires
            self.wf(),
            !self.fill,
            bound(self.len()) <= self.room,
        ensures
            self.parse(cells).block matches Some((seqs, last)) && enc_block(seqs, last).len()
                <= bound(self.len()),
    {
        assert(self.src.take(0) =~= Seq::empty());
        lemma_ext_len(self.len());
        if self.len() == 0 {
        } else if self.len() < MFLIMIT + 1 {
            reveal(Env::finish);
        } else {
            self.lemma_run_fits(
                Stage {
                    act: Act::Search(1),
                    cells: self.enter(cells, 0),
                    anchor: 0,
                    seqs: Seq::empty(),
                },
            );
        }
    }

    proof fn lemma_fill_run(self, st: Stage)
        requires
            self.wf(),
            self.stands(st),
            self.fill,
            self.room > 0,
            st.act !is TooSmall,
            st.act matches Act::Finish(limited) ==> limited,
            enc_seqs(st.seqs).len() <= self.room,
        ensures
            self.run(st).block matches Some((seqs, last)) && enc_block(seqs, last).len()
                <= self.room,
        decreases self.len() - st.anchor, st.rank(),
    {
        match st.act {
            Act::TooSmall => {},
            Act::Finish(limited) => {
                reveal(Env::finish);
                let op = enc_seqs(st.seqs).len() as int;
                let run = self.len() - st.anchor;
                lemma_ext_len(run);
                let r = self.room - op - 1;
                lemma_ext_len(r - (r + 241) / 256);
            },
            Act::Search(ip) => {
                self.lemma_seek(st, ip);
                let next = self.seek(st.cells, ip, st.anchor, st.seqs);
                assert(st.leads_to(next, self.len())) by {
                    reveal(Env::seek);
                }
                reveal(Env::seek);
                self.lemma_fill_run(next);
            },
            Act::Go(m, filled) => {
                self.lemma_take(st, m, filled);
                let next = self.take(st.cells, m, st.anchor, filled, st.seqs);
                reveal(Env::take);
                reveal(Env::land);
                self.lemma_match_code(m);
                self.lemma_fill_run(next);
            },
        }
    }

    /// Asked to fill the room, and given any, the parse always succeeds and
    /// stays within it.
    pub proof fn law_fill_succeeds(self, cells: Cells)
        requires
            self.wf(),
            self.fill,
            self.room > 0,
        ensures
            self.parse(cells).block matches Some((seqs, last)) && enc_block(seqs, last).len()
                <= self.room,
    {
        assert(self.src.take(0) =~= Seq::empty());
        lemma_ext_len(0);
        lemma_ext_len(self.len());
        let r = self.room - 1;
        lemma_ext_len(r - (r + 241) / 256);
        if self.len() == 0 {
        } else if self.len() < MFLIMIT + 1 {
            reveal(Env::finish);
        } else {
            self.lemma_fill_run(
                Stage {
                    act: Act::Search(1),
                    cells: self.enter(cells, 0),
                    anchor: 0,
                    seqs: Seq::empty(),
                },
            );
        }
    }
}

} // verus!
