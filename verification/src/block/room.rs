//! When a block is refused for want of room.
use vstd::prelude::*;
use crate::format::{enc_block, enc_seqs, Sq, MFLIMIT, MINMATCH};
use super::compress::{bound, LZ4_MAX_INPUT_SIZE};
use super::encode::lemma_ext_len;
use super::entry::{alone_env, fast_outcome, own_type};
use super::parse::{Act, Env, Hit, Stage};
use super::table::Cells;

verus! {

impl Env {
    /// The same with room enough for anything.
    pub open spec fn at_large(self) -> Env {
        Env { limited: false, room: 0, ..self }
    }

    proof fn lemma_hit_at_large(self, cells: Cells, ip: int)
        ensures
            self.at_large().hit(cells, ip) == self.hit(cells, ip),
    {
        reveal(Env::hit);
        reveal(Env::acceptable);
    }

    proof fn lemma_search_at_large(self, cells: Cells, ip: int, step: int, nb: int)
        ensures
            self.at_large().search(cells, ip, step, nb) == self.search(cells, ip, step, nb),
        decreases self.len() - ip,
    {
        if !(step < 1 || ip + step > self.len() - MFLIMIT + 1) {
            self.lemma_hit_at_large(cells, ip);
            self.lemma_search_at_large(self.enter(cells, ip), ip + step, nb / 64, nb + 1);
        }
    }

    proof fn lemma_back_at_large(self, m: Hit, anchor: int)
        ensures
            self.at_large().back(m, anchor) == self.back(m, anchor),
        decreases m.ip - anchor,
    {
        if m.ip > anchor {
            self.lemma_back_at_large(Hit { ip: m.ip - 1, off: m.off, far: m.far }, anchor);
        }
    }

    /// A stage as it is with room enough.
    spec fn eased(self, st: Stage) -> Stage {
        match st.act {
            Act::Finish(_) => Stage { act: Act::Finish(false), ..st },
            _ => st,
        }
    }

    /// The least that a stage still adds to the block.
    spec fn to_come(self, st: Stage) -> int {
        let op = enc_seqs(st.seqs).len() as int;
        match st.act {
            Act::Go(m, _) => self.lit_end(m, st.anchor, st.seqs) + 8 + (self.match_code(m) + 240)
                / 255,
            _ => if st.seqs.len() > 0 {
                op + 6
            } else {
                op
            },
        }
    }

    proof fn lemma_room_seek(self, st: Stage, ip: int)
        requires
            self.wf(),
            self.stands(st),
            !self.fill,
            st.act == Act::Search(ip),
        ensures
            ({
                let wide = self.at_large().seek(st.cells, ip, st.anchor, st.seqs);
                let next = self.seek(st.cells, ip, st.anchor, st.seqs);
                &&& self.stands(wide)
                &&& wide.anchor == st.anchor
                &&& wide.rank() < st.rank()
                &&& next.anchor == st.anchor
                &&& next.rank() < st.rank()
                &&& self.to_come(wide) >= self.to_come(st)
                &&& match wide.act {
                    Act::Finish(l) => !l && next == (Stage {
                        act: Act::Finish(self.limited),
                        ..wide
                    }),
                    Act::Go(_, _) => next == wide || next.act is TooSmall && self.limited
                        && self.to_come(wide) > self.room,
                    _ => false,
                }
            }),
    {
        let free = self.at_large();
        assert(free.stands(st));
        free.lemma_seek(st, ip);
        self.lemma_search_at_large(st.cells, ip, 1, 64 * self.accel);
        reveal(Env::seek);
        let wide = free.seek(st.cells, ip, st.anchor, st.seqs);
        if let Some(m) = self.search(st.cells, ip, 1, 64 * self.accel).0 {
            self.lemma_back_at_large(m, st.anchor);
            assert(wide.act is Go);
            lemma_ext_len(wide.act->Go_0.ip - st.anchor);
            self.lemma_match_code(wide.act->Go_0);
        }
    }

    /// Where a match leads if the room is not looked at.
    spec fn after(self, st: Stage, m: Hit, filled: int) -> Stage {
        let mc = self.match_code(m);
        let s = Sq { lits: self.src.subrange(st.anchor, m.ip), off: m.off, mlen: mc + MINMATCH };
        self.land(st.cells, m.ip + mc + MINMATCH, filled, st.seqs.push(s))
    }

    #[verifier::rlimit(30)]
    proof fn lemma_room_take(self, st: Stage, m: Hit, filled: int)
        requires
            self.wf(),
            self.stands(st),
            !self.fill,
            st.act == Act::Go(m, filled),
        ensures
            ({
                let next = self.take(st.cells, m, st.anchor, filled, st.seqs);
                let after = self.after(st, m, filled);
                &&& self.at_large().take(st.cells, m, st.anchor, filled, st.seqs) == self.eased(
                    after,
                )
                &&& self.stands(after)
                &&& st.anchor < after.anchor <= self.len()
                &&& after.act !is TooSmall
                &&& after.act matches Act::Finish(l) ==> l == self.limited
                &&& self.to_come(after) >= self.to_come(st)
                &&& next == after || next.act is TooSmall && next.anchor == st.anchor && self.limited
                    && self.to_come(after) > self.room
            }),
    {
        let free = self.at_large();
        let mc = self.match_code(m);
        let e = m.ip + mc + MINMATCH;
        let s = Sq { lits: self.src.subrange(st.anchor, m.ip), off: m.off, mlen: mc + MINMATCH };
        let seqs = st.seqs.push(s);
        let after = self.after(st, m, filled);
        assert(free.stands(st));
        free.lemma_take(st, m, filled);
        self.lemma_match_code(m);
        assert(seqs.drop_last() =~= st.seqs);
        lemma_ext_len(mc);
        lemma_ext_len(m.ip - st.anchor);
        assert(free.match_code(m) == mc);
        self.lemma_hit_at_large(self.enter(st.cells, e - 2), e);
        assert(free.land(st.cells, e, filled, seqs) == self.eased(after)) by {
            reveal(Env::land);
        }
        assert(free.take(st.cells, m, st.anchor, filled, st.seqs) == self.eased(after)) by {
            reveal(Env::take);
        }
        assert(after.seqs == seqs && after.anchor == e && after.act !is TooSmall && (
        after.act matches Act::Finish(l) ==> l == self.limited)) by {
            reveal(Env::land);
        }
        assert(self.to_come(after) >= enc_seqs(seqs).len() + 6) by {
            if let Act::Go(m2, _) = after.act {
                self.lemma_match_code(m2);
                lemma_ext_len(m2.ip - e);
            }
        }
        assert(enc_seqs(seqs).len() == self.lit_end(m, st.anchor, st.seqs) + 2 + (mc + 240) / 255);
        reveal(Env::take);
    }

    proof fn lemma_room_run(self, st: Stage)
        requires
            self.wf(),
            self.stands(st),
            !self.fill,
            st.act !is TooSmall,
            st.act matches Act::Finish(limited) ==> limited == self.limited,
        ensures
            self.at_large().run(self.eased(st)).block matches Some((seqs, last)) && {
                let size = enc_block(seqs, last).len();
                &&& size >= self.to_come(st)
                &&& self.run(st).block == if size <= self.room || !self.limited {
                    Some((seqs, last))
                } else {
                    None
                }
            },
        decreases self.len() - st.anchor, st.rank(),
    {
        let free = self.at_large();
        match st.act {
            Act::TooSmall => {},
            Act::Finish(limited) => {
                reveal(Env::finish);
                lemma_ext_len(self.len() - st.anchor);
            },
            Act::Search(ip) => {
                self.lemma_room_seek(st, ip);
                let next = self.seek(st.cells, ip, st.anchor, st.seqs);
                let wide = free.seek(st.cells, ip, st.anchor, st.seqs);
                assert(free.run(st) == free.run(wide));
                assert(self.run(st) == self.run(next));
                if wide.act is Go {
                    self.lemma_room_run(wide);
                } else {
                    self.lemma_room_run(next);
                    assert(self.eased(next) == wide);
                }
            },
            Act::Go(m, filled) => {
                self.lemma_room_take(st, m, filled);
                let next = self.take(st.cells, m, st.anchor, filled, st.seqs);
                let after = self.after(st, m, filled);
                assert(free.run(st) == free.run(self.eased(after)));
                self.lemma_room_run(after);
                assert(self.run(st) == self.run(next));
            },
        }
    }

    /// A block is refused exactly if it does not fit: the room plays no part in
    /// how it is parsed.
    pub proof fn law_room_is_exact(self, cells: Cells)
        requires
            self.wf(),
            !self.fill,
            0 <= self.room,
        ensures
            self.at_large().parse(cells).block matches Some((seqs, last)) && self.parse(cells).block
                == if enc_block(seqs, last).len() <= self.room || !self.limited {
                Some((seqs, last))
            } else {
                None
            },
    {
        assert(self.src.take(0) =~= Seq::empty());
        lemma_ext_len(self.len());
        if self.len() == 0 {
        } else if self.len() < MFLIMIT + 1 {
            reveal(Env::finish);
        } else {
            self.lemma_room_run(
                Stage {
                    act: Act::Search(1),
                    cells: self.enter(cells, 0),
                    anchor: 0,
                    seqs: Seq::empty(),
                },
            );
        }
    }
}

/// Less room than enough changes nothing but whether the block is refused: it
/// is what it would be with more room wherever it fits, and refused wherever
/// it does not.
pub proof fn law_fast_room_is_exact(src: Seq<u8>, room: int, ample: int, acceleration: i32, little: bool)
    requires
        src.len() <= LZ4_MAX_INPUT_SIZE,
        ample >= bound(src.len() as int),
        0 <= room,
    ensures
        fast_outcome(src, ample, acceleration, little).block matches Some((seqs, last))
            && fast_outcome(src, room, acceleration, little).block == if enc_block(seqs, last).len()
            <= room {
            Some((seqs, last))
        } else {
            None
        },
{
    let n = src.len() as int;
    let cells = Cells::zero(own_type(n));
    let wide = alone_env(src, 0, ample, false, false, acceleration, little);
    let tight = alone_env(src, 0, room, room < bound(n), false, acceleration, little);
    wide.law_room_is_exact(cells);
    wide.law_bound_suffices(cells);
    tight.law_room_is_exact(cells);
}

} // verus!
