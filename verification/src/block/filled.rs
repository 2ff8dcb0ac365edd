//! How full a block is that was made to fill the room given for it.
use vstd::prelude::*;
use crate::format::{content, enc_block, enc_seqs, len_ext, Sq, MFLIMIT, MINMATCH};
use super::compress::{bound, LZ4_MAX_INPUT_SIZE};
use super::encode::lemma_ext_len;
use super::entry::{alone_env, fast_outcome, filled_outcome, own_type};
use super::parse::{Act, Env, Hit, Outcome, Stage};
use super::table::Cells;

verus! {

/// Longer literals take more room.
proof fn lemma_ext_grows(m: int, n: int)
    requires
        0 <= m <= n,
    ensures
        len_ext(m).len() <= len_ext(n).len(),
{
    lemma_ext_len(m);
    lemma_ext_len(n);
}

impl Env {
    /// Whether the literals at the end of an outcome could not be one byte
    /// longer.
    pub open spec fn brimful(self, o: Outcome) -> bool {
        o.block matches Some((seqs, last)) ==> (o.consumed < self.len() ==> enc_block(
            seqs,
            last.push(self.src[o.consumed]),
        ).len() > self.room)
    }

    proof fn lemma_finish_brimful(self, cells: Cells, anchor: int, seqs: Seq<Sq>)
        requires
            0 <= anchor <= self.len(),
        ensures
            self.brimful(self.finish(cells, anchor, seqs, true)),
    {
        reveal(Env::finish);
        let op = enc_seqs(seqs).len() as int;
        let run = self.len() - anchor;
        let r = self.room - op - 1;
        let n = r - (r + 241) / 256;
        if op + run + 1 + (run + 240) / 255 > self.room && self.fill && self.room > op {
            lemma_ext_len(n + 1);
        }
    }

    proof fn lemma_run_brimful(self, st: Stage)
        requires
            self.wf(),
            self.stands(st),
            self.fill,
            st.act matches Act::Finish(limited) ==> limited,
        ensures
            self.brimful(self.run(st)),
        decreases self.len() - st.anchor, st.rank(),
    {
        match st.act {
            Act::TooSmall => {},
            Act::Finish(limited) => {
                self.lemma_finish_brimful(st.cells, st.anchor, st.seqs);
            },
            Act::Search(ip) => {
                let next = self.seek(st.cells, ip, st.anchor, st.seqs);
                self.lemma_seek(st, ip);
                reveal(Env::seek);
                if st.leads_to(next, self.len()) {
                    self.lemma_run_brimful(next);
                }
            },
            Act::Go(m, filled) => {
                let next = self.take(st.cells, m, st.anchor, filled, st.seqs);
                self.lemma_take(st, m, filled);
                reveal(Env::take);
                reveal(Env::land);
                if st.leads_to(next, self.len()) {
                    self.lemma_run_brimful(next);
                }
            },
        }
    }

    proof fn lemma_parse_brimful(self, cells: Cells)
        requires
            self.wf(),
            self.fill,
        ensures
            self.brimful(self.parse(cells)),
    {
        assert(self.src.take(0) =~= Seq::empty());
        if self.len() == 0 {
        } else if self.len() < MFLIMIT + 1 {
            self.lemma_finish_brimful(cells, 0, Seq::empty());
        } else {
            self.lemma_run_brimful(
                Stage {
                    act: Act::Search(1),
                    cells: self.enter(cells, 0),
                    anchor: 0,
                    seqs: Seq::empty(),
                },
            );
        }
    }
}

/// Where filling the room leaves input over, the room is used up as far as
/// literals can: with the next input byte among the literals at the end, the
/// block would not fit.
pub proof fn law_filled_is_full(src: Seq<u8>, room: int, acceleration: i32, little: bool)
    requires
        src.len() <= LZ4_MAX_INPUT_SIZE,
    ensures
        ({
            let o = filled_outcome(src, room, acceleration, little);
            o.block matches Some((seqs, last)) ==> (o.consumed < src.len() ==> enc_block(
                seqs,
                last.push(src[o.consumed]),
            ).len() > room)
        }),
{
    let env = alone_env(src, 0, room, true, true, acceleration, little);
    env.lemma_parse_brimful(Cells::zero(own_type(src.len() as int)));
}

/// Where filling the room leaves input over and takes no match, as many input
/// bytes are taken as fit the room as literals.
pub proof fn law_filled_with_literals(src: Seq<u8>, room: int, acceleration: i32, little: bool, n: int)
    requires
        src.len() <= LZ4_MAX_INPUT_SIZE,
        0 < room,
        0 <= n,
    ensures
        ({
            let o = filled_outcome(src, room, acceleration, little);
            o.block matches Some((seqs, last)) ==> (seqs.len() == 0 && o.consumed < src.len() ==> (n
                <= o.consumed <==> 1 + len_ext(n).len() + n <= room))
        }),
{
    let env = alone_env(src, 0, room, true, true, acceleration, little);
    let cells = Cells::zero(own_type(src.len() as int));
    let o = filled_outcome(src, room, acceleration, little);
    env.law_fill_succeeds(cells);
    env.law_parse_encodes(cells);
    law_filled_is_full(src, room, acceleration, little);
    if let Some((seqs, last)) = o.block {
        if seqs.len() == 0 && o.consumed < src.len() {
            assert(enc_seqs(seqs) =~= Seq::empty());
            assert(content(env.full_hist(), seqs) + last =~= last);
            assert(last.len() == o.consumed);
            if n <= o.consumed {
                lemma_ext_grows(n, o.consumed);
            } else {
                lemma_ext_grows(o.consumed + 1, n);
            }
        }
    }
}

/// Whether `seqs` are the first of `all`, as far as the room goes: all but the
/// last are as they are with room enough, and the last may have its match cut.
pub open spec fn first_of(seqs: Seq<Sq>, all: Seq<Sq>) -> bool {
    let k = seqs.len() as int;
    &&& k <= all.len()
    &&& forall|i: int| 0 <= i < k - 1 ==> #[trigger] seqs[i] == all[i]
    &&& k > 0 ==> {
        &&& seqs[k - 1].lits == all[k - 1].lits
        &&& seqs[k - 1].off == all[k - 1].off
        &&& seqs[k - 1].mlen <= all[k - 1].mlen
    }
}

/// Whether the last match of `seqs` was cut.
pub open spec fn cut_off(seqs: Seq<Sq>, all: Seq<Sq>) -> bool {
    seqs.len() > 0 && seqs.last().mlen < all[seqs.len() - 1].mlen
}

/// Whether `seqs` stop short of `all` for want of room: either the match that
/// was cut leaves room for the token and the last literals alone, or the next
/// sequence, with a match that ends where matches may, would not fit.
pub open spec fn stopped_short(seqs: Seq<Sq>, all: Seq<Sq>, room: int) -> bool {
    let op = enc_seqs(seqs).len();
    let k = seqs.len() as int;
    if cut_off(seqs, all) {
        op + 6 == room
    } else {
        k < all.len() ==> {
            let ll = all[k].lits.len() as int;
            op + 1 + len_ext(ll).len() + ll + 2 + 9 > room
        }
    }
}

impl Env {
    /// The same with room enough, and none to fill.
    pub open spec fn unpressed(self) -> Env {
        Env { limited: false, fill: false, room: 0, ..self }
    }

    proof fn lemma_hit_unpressed(self, cells: Cells, ip: int)
        ensures
            self.unpressed().hit(cells, ip) == self.hit(cells, ip),
    {
        reveal(Env::hit);
        reveal(Env::acceptable);
    }

    proof fn lemma_search_unpressed(self, cells: Cells, ip: int, step: int, nb: int)
        ensures
            self.unpressed().search(cells, ip, step, nb) == self.search(cells, ip, step, nb),
        decreases self.len() - ip,
    {
        if !(step < 1 || ip + step > self.len() - MFLIMIT + 1) {
            self.lemma_hit_unpressed(cells, ip);
            self.lemma_search_unpressed(self.enter(cells, ip), ip + step, nb / 64, nb + 1);
        }
    }

    proof fn lemma_back_unpressed(self, m: Hit, anchor: int)
        ensures
            self.unpressed().back(m, anchor) == self.back(m, anchor),
        decreases m.ip - anchor,
    {
        if m.ip > anchor {
            self.lemma_back_unpressed(Hit { ip: m.ip - 1, off: m.off, far: m.far }, anchor);
        }
    }

    /// What becomes of a parse with room enough: there is a block, and it goes
    /// on from the sequences so far.
    spec fn goes_on_as(self, st: Stage, all: Seq<Sq>) -> bool {
        let k = st.seqs.len() as int;
        &&& k <= all.len()
        &&& all.take(k) == st.seqs
        &&& st.act matches Act::Go(m, _) ==> k < all.len() && all[k] == (Sq {
            lits: self.src.subrange(st.anchor, m.ip),
            off: m.off,
            mlen: self.match_code(m) + MINMATCH,
        })
    }

    proof fn lemma_unpressed_run(self, st: Stage)
        requires
            self.wf(),
            !self.limited,
            !self.fill,
            self.stands(st),
            st.act !is TooSmall,
            st.act matches Act::Finish(limited) ==> !limited,
        ensures
            self.run(st).block matches Some((all, _)) && self.goes_on_as(st, all),
        decreases self.len() - st.anchor, st.rank(),
    {
        match st.act {
            Act::TooSmall => {},
            Act::Finish(limited) => {
                reveal(Env::finish);
                assert(st.seqs.take(st.seqs.len() as int) =~= st.seqs);
            },
            Act::Search(ip) => {
                let next = self.seek(st.cells, ip, st.anchor, st.seqs);
                self.lemma_seek(st, ip);
                reveal(Env::seek);
                self.lemma_unpressed_run(next);
            },
            Act::Go(m, filled) => {
                let next = self.take(st.cells, m, st.anchor, filled, st.seqs);
                self.lemma_take(st, m, filled);
                self.lemma_match_code(m);
                reveal(Env::take);
                reveal(Env::land);
                self.lemma_unpressed_run(next);
                if let Some((all, _)) = self.run(next).block {
                    let k = st.seqs.len() as int;
                    assert(all.take(k) =~= all.take(k + 1).take(k));
                    assert(next.seqs.take(k) =~= st.seqs);
                    assert(all[k] == all.take(k + 1)[k]);
                }
            },
        }
    }

    /// A block that is to fill its room stops short of the one with room enough
    /// for want of room only.
    spec fn pressed(self, o: Outcome, all: Seq<Sq>) -> bool {
        o.block matches Some((seqs, _)) ==> first_of(seqs, all) && stopped_short(
            seqs,
            all,
            self.room,
        )
    }

    proof fn lemma_pressed_finish(self, st: Stage, all: Seq<Sq>)
        requires
            first_of(st.seqs, all),
            stopped_short(st.seqs, all, self.room),
        ensures
            self.pressed(self.finish(st.cells, st.anchor, st.seqs, true), all),
    {
        reveal(Env::finish);
    }

    /// After a match that was cut nothing more fits.
    #[verifier::rlimit(30)]
    proof fn lemma_pressed_cut(self, st: Stage, all: Seq<Sq>)
        requires
            self.wf(),
            self.stands(st),
            self.fill,
            first_of(st.seqs, all),
            cut_off(st.seqs, all),
            enc_seqs(st.seqs).len() + 6 == self.room,
            st.act !is TooSmall,
            st.act matches Act::Finish(limited) ==> limited,
        ensures
            self.pressed(self.run(st), all),
        decreases self.len() - st.anchor, st.rank(),
    {
        self.lemma_pressed_finish(st, all);
        match st.act {
            Act::TooSmall => {},
            Act::Finish(limited) => {},
            Act::Search(ip) => {
                let next = self.seek(st.cells, ip, st.anchor, st.seqs);
                self.lemma_seek(st, ip);
                reveal(Env::seek);
                self.lemma_search(st.cells, ip, 1, 64 * self.accel);
                if let Some(m) = self.search(st.cells, ip, 1, 64 * self.accel).0 {
                    self.lemma_back(m, st.anchor, 4);
                }
                assert(next.act is Finish);
                self.lemma_pressed_cut(next, all);
            },
            Act::Go(m, filled) => {
                let next = self.take(st.cells, m, st.anchor, filled, st.seqs);
                reveal(Env::take);
                lemma_ext_len(m.ip - st.anchor);
                assert(next.act == Act::Finish(true) && next.seqs == st.seqs && next.anchor
                    == st.anchor);
                self.lemma_pressed_cut(next, all);
            },
        }
    }

    #[verifier::rlimit(40)]
    proof fn lemma_pressed_go(self, st: Stage, m: Hit, filled: int, all: Seq<Sq>)
        requires
            self.wf(),
            self.stands(st),
            self.fill,
            st.act == Act::Go(m, filled),
            self.goes_on_as(st, all),
        ensures
            ({
                let next = self.take(st.cells, m, st.anchor, filled, st.seqs);
                let wide = self.unpressed().take(st.cells, m, st.anchor, filled, st.seqs);
                &&& self.stands(next)
                &&& next.act !is TooSmall
                &&& next.act matches Act::Finish(limited) ==> limited
                &&& st.leads_to(next, self.len())
                &&& if next.seqs == st.seqs {
                    &&& next.act == Act::Finish(true)
                    &&& next.anchor == st.anchor
                    &&& stopped_short(st.seqs, all, self.room)
                } else if next.seqs.last().mlen < all[st.seqs.len() as int].mlen {
                    &&& first_of(next.seqs, all)
                    &&& cut_off(next.seqs, all)
                    &&& enc_seqs(next.seqs).len() + 6 == self.room
                } else {
                    next == Stage {
                        act: match wide.act {
                            Act::Finish(_) => Act::Finish(true),
                            a => a,
                        },
                        ..wide
                    }
                }
            }),
    {
        let free = self.unpressed();
        let k = st.seqs.len() as int;
        let mc = self.match_code(m);
        let op = self.lit_end(m, st.anchor, st.seqs) + 2;
        let mc2 = self.fitting_code(m, op);
        let next = self.take(st.cells, m, st.anchor, filled, st.seqs);
        self.lemma_take(st, m, filled);
        self.lemma_match_code(m);
        assert(free.match_code(m) == mc);
        assert(free.lit_end(m, st.anchor, st.seqs) == op - 2);
        lemma_ext_len(m.ip - st.anchor);
        lemma_ext_len(mc);
        assert forall|i: int| 0 <= i < k implies #[trigger] st.seqs[i] == all[i] by {
            assert(all.take(k)[i] == all[i]);
        }
        if op - 2 + 11 > self.room {
            assert(next.act == Act::Finish(true) && next.seqs == st.seqs && next.anchor
                == st.anchor) by {
                reveal(Env::take);
            }
            assert(!cut_off(st.seqs, all));
        } else {
            let s = Sq {
                lits: self.src.subrange(st.anchor, m.ip),
                off: m.off,
                mlen: mc2 + MINMATCH,
            };
            let e = m.ip + mc2 + MINMATCH;
            let seqs = st.seqs.push(s);
            lemma_ext_len(mc2);
            assert(seqs.drop_last() =~= st.seqs);
            assert(seqs.len() != st.seqs.len());
            assert(next.seqs == seqs && next.anchor == e && next.act !is TooSmall && (
            next.act matches Act::Finish(limited) ==> limited)) by {
                reveal(Env::take);
                reveal(Env::land);
            }
            if mc2 == mc {
                self.lemma_hit_unpressed(self.enter(st.cells, e - 2), e);
                reveal(Env::take);
                reveal(Env::land);
            } else {
                assert(mc2 < mc);
                assert forall|i: int| 0 <= i < seqs.len() - 1 implies #[trigger] seqs[i]
                    == all[i] by {
                    assert(seqs[i] == st.seqs[i]);
                }
            }
        }
    }

    proof fn lemma_pressed_run(self, st: Stage, wide: Stage, all: Seq<Sq>)
        requires
            self.wf(),
            self.stands(st),
            self.fill,
            st.act !is TooSmall,
            st.act matches Act::Finish(limited) ==> limited && wide == (Stage {
                act: Act::Finish(false),
                ..st
            }),
            !(st.act is Finish) ==> wide == st,
            self.unpressed().run(wide).block matches Some((a, _)) && a == all,
        ensures
            self.pressed(self.run(st), all),
        decreases self.len() - st.anchor, st.rank(),
    {
        let free = self.unpressed();
        assert(free.stands(wide));
        free.lemma_unpressed_run(wide);
        let k = st.seqs.len() as int;
        assert(self.goes_on_as(st, all)) by {
            if let Act::Go(m, _) = st.act {
                assert(free.match_code(m) == self.match_code(m));
            }
        }
        assert(first_of(st.seqs, all) && !cut_off(st.seqs, all)) by {
            assert forall|i: int| 0 <= i < k implies #[trigger] st.seqs[i] == all[i] by {
                assert(all.take(k)[i] == all[i]);
            }
        }
        match st.act {
            Act::TooSmall => {},
            Act::Finish(limited) => {
                reveal(Env::finish);
            },
            Act::Search(ip) => {
                let next = self.seek(st.cells, ip, st.anchor, st.seqs);
                let after = free.seek(st.cells, ip, st.anchor, st.seqs);
                self.lemma_seek(st, ip);
                self.lemma_search_unpressed(st.cells, ip, 1, 64 * self.accel);
                assert(free.run(wide) == free.run(after)) by {
                    reveal(Env::seek);
                }
                assert(self.run(st) == self.run(next)) by {
                    reveal(Env::seek);
                }
                reveal(Env::seek);
                match self.search(st.cells, ip, 1, 64 * self.accel).0 {
                    None => {
                        self.lemma_pressed_run(next, after, all);
                    },
                    Some(m) => {
                        self.lemma_back_unpressed(m, st.anchor);
                        self.lemma_search(st.cells, ip, 1, 64 * self.accel);
                        self.lemma_back(m, st.anchor, 4);
                        if next.act is Go {
                            self.lemma_pressed_run(next, after, all);
                        } else {
                            free.lemma_seek(st, ip);
                            free.lemma_unpressed_run(after);
                            lemma_ext_len(after.act->Go_0.ip - st.anchor);
                            self.lemma_pressed_finish(next, all);
                        }
                    },
                }
            },
            Act::Go(m, filled) => {
                let next = self.take(st.cells, m, st.anchor, filled, st.seqs);
                let after = free.take(st.cells, m, st.anchor, filled, st.seqs);
                self.lemma_pressed_go(st, m, filled, all);
                assert(self.run(st) == self.run(next));
                if next.seqs == st.seqs {
                    self.lemma_pressed_finish(next, all);
                } else if next.seqs.last().mlen < all[k].mlen {
                    self.lemma_pressed_cut(next, all);
                } else {
                    assert(free.run(wide) == free.run(after)) by {
                        free.lemma_take(st, m, filled);
                        free.lemma_match_code(m);
                        reveal(Env::take);
                        reveal(Env::land);
                    }
                    assert(after.act matches Act::Finish(limited) ==> !limited) by {
                        reveal(Env::take);
                        reveal(Env::land);
                    }
                    self.lemma_pressed_run(next, after, all);
                }
            },
        }
    }
}

/// Filling the room takes the sequences that compressing with room enough takes,
/// one after the other, for as long as they fit: all but the last are the same,
/// the last may have its match cut to what the room holds, and the next would
/// not have fitted.
pub proof fn law_filled_stops_short(src: Seq<u8>, room: int, acceleration: i32, little: bool)
    requires
        MFLIMIT < src.len() <= LZ4_MAX_INPUT_SIZE,
        room > 0,
    ensures
        fast_outcome(src, bound(src.len() as int), acceleration, little).block matches Some((all, _))
            && (filled_outcome(src, room, acceleration, little).block matches Some((seqs, _))
            && first_of(seqs, all) && stopped_short(seqs, all, room)),
{
    let n = src.len() as int;
    let env = alone_env(src, 0, room, true, true, acceleration, little);
    let wide = alone_env(src, 0, bound(n), false, false, acceleration, little);
    let cells = Cells::zero(own_type(n));
    let st = Stage {
        act: Act::Search(1),
        cells: env.enter(cells, 0),
        anchor: 0,
        seqs: Seq::empty(),
    };
    assert(src.take(0) =~= Seq::empty());
    env.law_fill_succeeds(cells);
    wide.law_bound_suffices(cells);
    wide.law_room_is_exact(cells);
    assert(wide.at_large() == env.unpressed());
    if let Some((all, _)) = wide.parse(cells).block {
        env.lemma_pressed_run(st, st, all);
    }
}

} // verus!
