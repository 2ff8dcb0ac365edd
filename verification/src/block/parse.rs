//! The greedy parse of the fast compressor, as mathematics: which matches are
//! taken, and when the output no longer fits.
use vstd::prelude::*;
use crate::format::{enc_seqs, len_ext, Sq, LASTLITERALS, LZ4_DISTANCE_MAX, MFLIMIT, MINMATCH};
use super::table::{hash_at, Cells, TableType};

verus! {

/// A dictionary stream whose table is consulted besides the compressor's own.
#[verifier::ext_equal]
pub struct Attached {
    /// Its table.
    pub cells: Cells,
    /// The index that follows its last byte.
    pub offset: u32,
    /// Its bytes.
    pub hist: Seq<u8>,
}

/// What a block is compressed under.
#[verifier::ext_equal]
pub struct Env {
    /// The block.
    pub src: Seq<u8>,
    /// The bytes before it.
    pub hist: Seq<u8>,
    /// The index of its first byte.
    pub start: u32,
    /// Whether the history is held apart from the block, so that a match in
    /// the block is not extended backwards into it.
    pub apart: bool,
    /// The attached dictionary.
    pub attached: Option<Attached>,
    /// How wide the indices are that positions are hashed for.
    pub tt: TableType,
    /// The byte order of the host.
    pub little: bool,
    /// How eagerly positions are skipped.
    pub accel: int,
    /// Room for the output.
    pub room: int,
    /// Whether the room is checked against at all.
    pub limited: bool,
    /// Whether as much of the block is taken as fits the room.
    pub fill: bool,
}

/// A place where a match starts: the position, the distance back, and whether
/// it starts in the history of the attached dictionary or in one held apart.
#[verifier::ext_equal]
pub struct Hit {
    pub ip: int,
    pub off: int,
    pub far: bool,
}

/// What became of a block.
#[verifier::ext_equal]
pub struct Outcome {
    /// The sequences and the literals at the end, unless the room ran out.
    pub block: Option<(Seq<Sq>, Seq<u8>)>,
    /// How much of the block they stand for.
    pub consumed: int,
    /// The table afterwards.
    pub cells: Cells,
}

/// What is to be done next.
#[verifier::ext_equal]
pub enum Act {
    /// Give up: the output does not fit.
    TooSmall,
    /// End the block with literals; whether the room is checked.
    Finish(bool),
    /// Take this match; positions up to the second value are entered.
    Go(Hit, int),
    /// Search from here on.
    Search(int),
}

/// How far a parse has come: the sequences stand for everything before
/// `anchor`.
#[verifier::ext_equal]
pub struct Stage {
    pub act: Act,
    pub cells: Cells,
    pub anchor: int,
    pub seqs: Seq<Sq>,
}

impl Stage {
    pub open spec fn rank(self) -> int {
        match self.act {
            Act::Search(_) => 2,
            Act::Go(_, _) => 1,
            _ => 0,
        }
    }

    /// Whether `next` is closer to the end of a block of `len` bytes.
    pub open spec fn leads_to(self, next: Stage, len: int) -> bool {
        ||| self.anchor < next.anchor <= len
        ||| next.anchor == self.anchor && next.rank() < self.rank()
    }
}

/// How many bytes of `a` from `i` on equal those of `b` from `j` on, up to `n`.
pub open spec fn common(a: Seq<u8>, i: int, b: Seq<u8>, j: int, n: int) -> int
    decreases n,
{
    if n <= 0 || a[i] != b[j] {
        0
    } else {
        1 + common(a, i + 1, b, j + 1, n - 1)
    }
}

impl Env {
    pub open spec fn len(self) -> int {
        self.src.len() as int
    }

    pub open spec fn hash(self, at: int) -> int {
        hash_at(self.src, at, self.tt, self.little) as int
    }

    /// The history that a match may start in.
    pub open spec fn behind(self, far: bool) -> Seq<u8> {
        match self.attached {
            Some(a) => if far {
                a.hist
            } else {
                self.hist
            },
            None => self.hist,
        }
    }

    /// That history followed by the block.
    pub open spec fn window(self, far: bool) -> Seq<u8> {
        self.behind(far) + self.src
    }

    /// The index that the tables hold for the hash `h`.
    pub open spec fn lookup(self, cells: Cells, h: int) -> (int, bool) {
        let mi = cells.at[h];
        let far = self.apart && mi < self.start;
        match self.attached {
            Some(a) => if far {
                ((a.cells.at[h] as u32).wrapping_add(self.start.wrapping_sub(a.offset)) as int, far)
            } else {
                (mi, far)
            },
            None => (mi, far),
        }
    }

    /// Whether the four bytes at index `mi` match those at `ip` and are close
    /// enough to refer to.
    #[verifier::opaque]
    pub open spec fn acceptable(self, mi: int, far: bool, ip: int) -> bool {
        let h = self.behind(far);
        let p = mi - self.start + h.len();
        &&& p >= 0
        &&& mi < ip + self.start
        &&& self.tt == TableType::U32 ==> mi + LZ4_DISTANCE_MAX >= ip + self.start
        &&& mi >= self.start || mi + 4 <= self.start
        &&& self.window(far).subrange(p, p + 4) == self.src.subrange(ip, ip + 4)
    }

    /// The match found at `ip`, given the table before `ip` is entered in it.
    #[verifier::opaque]
    pub open spec fn hit(self, cells: Cells, ip: int) -> Option<Hit> {
        let (mi, far) = self.lookup(cells, self.hash(ip));
        if self.acceptable(mi, far, ip) {
            Some(Hit { ip, off: ip + self.start - mi, far })
        } else {
            None
        }
    }

    /// The table with position `at` entered.
    pub open spec fn enter(self, cells: Cells, at: int) -> Cells {
        cells.put(self.hash(at), at + self.start)
    }

    /// The first match at or after `ip`, trying positions farther and farther
    /// apart.
    pub open spec fn search(self, cells: Cells, ip: int, step: int, nb: int) -> (Option<Hit>, Cells)
        decreases self.len() - ip,
    {
        if step < 1 || ip + step > self.len() - MFLIMIT + 1 {
            (None, cells)
        } else {
            let cells2 = self.enter(cells, ip);
            match self.hit(cells, ip) {
                Some(m) => (Some(m), cells2),
                None => self.search(cells2, ip + step, nb / 64, nb + 1),
            }
        }
    }

    /// How far a match can be extended backwards, down to `anchor`.
    pub open spec fn back(self, m: Hit, anchor: int) -> int
        decreases m.ip - anchor,
    {
        let p = m.ip + self.behind(m.far).len() - m.off;
        let low = if self.apart && !m.far {
            self.behind(m.far).len() as int
        } else {
            0
        };
        if m.ip > anchor && p > low && self.src[m.ip - 1] == self.window(m.far)[p - 1] {
            1 + self.back(Hit { ip: m.ip - 1, off: m.off, far: m.far }, anchor)
        } else {
            0
        }
    }

    /// The length code of a match: how many bytes beyond the shortest match.
    /// An entry of the attached table that points into the block itself counts
    /// for the shortest match only.
    pub open spec fn match_code(self, m: Hit) -> int {
        let at = m.ip + MINMATCH;
        if self.attached is Some && m.far && m.off <= m.ip {
            0
        } else {
            common(
                self.src,
                at,
                self.window(m.far),
                at + self.behind(m.far).len() - m.off,
                self.len() - LASTLITERALS - at,
            )
        }
    }

    /// The table with the positions from `from` to `to` taken out again.
    pub open spec fn forget(self, cells: Cells, from: int, to: int) -> Cells
        decreases to - from + 1,
    {
        if from > to {
            cells
        } else if from + 8 <= self.len() {
            self.forget(cells.put(self.hash(from), 0), from + 1, to)
        } else {
            self.forget(cells, from + 1, to)
        }
    }

    /// The end of the block as literals from `anchor` on.
    #[verifier::opaque]
    pub open spec fn finish(self, cells: Cells, anchor: int, seqs: Seq<Sq>, limited: bool) -> Outcome {
        let op = enc_seqs(seqs).len() as int;
        let run = self.len() - anchor;
        if limited && op + run + 1 + (run + 240) / 255 > self.room {
            if !self.fill || self.room <= op {
                Outcome { block: None, consumed: 0, cells }
            } else {
                let r = self.room - op - 1;
                let n = r - (r + 241) / 256;
                Outcome {
                    block: Some((seqs, self.src.subrange(anchor, anchor + n))),
                    consumed: anchor + n,
                    cells,
                }
            }
        } else {
            Outcome {
                block: Some((seqs, self.src.subrange(anchor, self.len()))),
                consumed: self.len(),
                cells,
            }
        }
    }

    /// After a search at `ip`, with everything before `anchor` taken by `seqs`.
    #[verifier::opaque]
    pub open spec fn seek(self, cells: Cells, ip: int, anchor: int, seqs: Seq<Sq>) -> Stage {
        let (m, cells2) = self.search(cells, ip, 1, 64 * self.accel);
        let act = match m {
            None => Act::Finish(self.limited),
            Some(m) => {
                let m1 = Hit { ip: m.ip - self.back(m, anchor), off: m.off, far: m.far };
                let ll = m1.ip - anchor;
                let op = enc_seqs(seqs).len() + 1;
                if self.limited && !self.fill && op + ll + 8 + ll / 255 > self.room {
                    Act::TooSmall
                } else if self.fill && op + (ll + 240) / 255 + ll + 11 > self.room {
                    Act::Finish(true)
                } else {
                    Act::Go(m1, m.ip)
                }
            },
        };
        Stage { act, cells: cells2, anchor, seqs }
    }

    /// Where the distance bytes of a match go, if its literals start at
    /// `anchor`.
    pub open spec fn lit_end(self, m: Hit, anchor: int, seqs: Seq<Sq>) -> int {
        let ll = m.ip - anchor;
        enc_seqs(seqs).len() + 1 + len_ext(ll).len() + ll
    }

    /// The length code that a match is cut down to, where the room asks for it.
    pub open spec fn fitting_code(self, m: Hit, op: int) -> int {
        let mc = self.match_code(m);
        if self.limited && op + 6 + (mc + 240) / 255 > self.room {
            14 + (self.room - op - 6) * 255
        } else {
            mc
        }
    }

    /// After the match `m`, whose literals start at `anchor`; positions up to
    /// `filled` are in the table.
    #[verifier::opaque]
    pub open spec fn take(self, cells: Cells, m: Hit, anchor: int, filled: int, seqs: Seq<Sq>) -> Stage {
        let lit_end = self.lit_end(m, anchor, seqs);
        let op = lit_end + 2;
        let mc = self.match_code(m);
        let mc2 = self.fitting_code(m, op);
        let e = m.ip + mc2 + MINMATCH;
        if self.fill && lit_end + 11 > self.room {
            Stage { act: Act::Finish(true), cells, anchor, seqs }
        } else if self.limited && !self.fill && op + 6 + (mc + 240) / 255 > self.room {
            Stage { act: Act::TooSmall, cells, anchor, seqs }
        } else {
            let cells2 = if mc2 != mc {
                self.forget(cells, e, filled)
            } else {
                cells
            };
            let s = Sq {
                lits: self.src.subrange(anchor, m.ip),
                off: m.off,
                mlen: mc2 + MINMATCH,
            };
            self.land(cells2, e, filled, seqs.push(s))
        }
    }

    /// At the end `e` of a match: it is entered in the table, and tried first.
    #[verifier::opaque]
    pub open spec fn land(self, cells: Cells, e: int, filled: int, seqs: Seq<Sq>) -> Stage {
        if e >= self.len() - MFLIMIT + 1 {
            Stage { act: Act::Finish(self.limited), cells, anchor: e, seqs }
        } else {
            let cells2 = self.enter(cells, e - 2);
            let cells3 = self.enter(cells2, e);
            let act = match self.hit(cells2, e) {
                Some(m) => Act::Go(m, filled),
                None => Act::Search(e + 1),
            };
            Stage { act, cells: cells3, anchor: e, seqs }
        }
    }

    /// The parse from a stage on.
    pub open spec fn run(self, st: Stage) -> Outcome
        decreases self.len() - st.anchor, st.rank(),
    {
        match st.act {
            Act::TooSmall => Outcome { block: None, consumed: 0, cells: st.cells },
            Act::Finish(limited) => self.finish(st.cells, st.anchor, st.seqs, limited),
            Act::Search(ip) => {
                let next = self.seek(st.cells, ip, st.anchor, st.seqs);
                if st.leads_to(next, self.len()) {
                    self.run(next)
                } else {
                    Outcome { block: None, consumed: 0, cells: st.cells }
                }
            },
            Act::Go(m, filled) => {
                let next = self.take(st.cells, m, st.anchor, filled, st.seqs);
                if st.leads_to(next, self.len()) {
                    self.run(next)
                } else {
                    Outcome { block: None, consumed: 0, cells: st.cells }
                }
            },
        }
    }

    /// The parse of the whole block.
    pub open spec fn parse(self, cells: Cells) -> Outcome {
        if self.len() == 0 {
            if self.limited && self.room == 0 {
                Outcome { block: None, consumed: 0, cells }
            } else {
                Outcome { block: Some((Seq::empty(), Seq::empty())), consumed: 0, cells }
            }
        } else if self.len() < MFLIMIT + 1 {
            self.finish(cells, 0, Seq::empty(), self.limited)
        } else {
            self.run(
                Stage {
                    act: Act::Search(1),
                    cells: self.enter(cells, 0),
                    anchor: 0,
                    seqs: Seq::empty(),
                },
            )
        }
    }
}

} // verus!
