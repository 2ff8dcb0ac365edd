//! What the greedy parse leaves in literals and what it takes as matches,
//! told by the block that comes out.
use vstd::prelude::*;
use crate::format::{enc_block, enc_seq, enc_seqs, len_ext, Sq, LASTLITERALS, MFLIMIT, MINMATCH};
use super::compress::{bound, LZ4_MAX_INPUT_SIZE};
use super::encode::lemma_ext_len;
use super::entry::{alone_env, fast_outcome, own_type};
use super::parse::{common, Act, Env, Hit, Stage};
use super::search::{lemma_common_bounds, lemma_common_reaches};
use super::table::{entries, hash_at, word32, word64, Cells, TableType};

verus! {

/// The position of the `k`th try after `from`, counted from zero. The first
/// two are neighbours; then the tries are `accel` apart, and one more for
/// every 64 tries.
pub open spec fn probe(from: int, accel: int, k: int) -> int
    decreases k,
{
    if k <= 0 {
        from
    } else if k == 1 {
        from + 1
    } else {
        probe(from, accel, k - 1) + accel + (k - 2) / 64
    }
}

/// Whether all bytes are the same.
pub open spec fn uniform(s: Seq<u8>) -> bool {
    forall|i: int| 0 <= i < s.len() ==> #[trigger] s[i] == s[0]
}

/// How many bytes several sequences stand for.
pub open spec fn total(seqs: Seq<Sq>) -> int
    decreases seqs.len(),
{
    if seqs.len() == 0 {
        0
    } else {
        total(seqs.drop_last()) + seqs.last().lits.len() + seqs.last().mlen
    }
}

proof fn lemma_probe(from: int, accel: int, j: int, k: int)
    requires
        accel >= 1,
        0 <= j < k,
    ensures
        from <= probe(from, accel, j) < probe(from, accel, k),
    decreases k,
{
    if j < k - 1 {
        lemma_probe(from, accel, j, k - 1);
    } else if j > 0 {
        lemma_probe(from, accel, 0, j);
    }
}

proof fn lemma_hash_entries(s: Seq<u8>, at: int, tt: TableType, little: bool)
    ensures
        0 <= hash_at(s, at, tt, little) < entries(tt),
{
    reveal(hash_at);
    if usize::BITS == 64 && tt == TableType::U32 {
        let w = word64(s, at, little);
        let x = if little {
            (w << 24u64).wrapping_mul(889523592379u64)
        } else {
            (w >> 24u64).wrapping_mul(11400714785074694791u64)
        };
        assert(x >> 52u64 < 4096) by (bit_vector);
    } else {
        let x = word32(s, at, little).wrapping_mul(2654435761u32);
        assert(x >> 19u32 < 8192 && x >> 20u32 < 4096) by (bit_vector);
    }
}

/// Where bytes that agree stop being counted short of the bound, they differ.
proof fn lemma_common_differs(a: Seq<u8>, i: int, b: Seq<u8>, j: int, n: int)
    requires
        common(a, i, b, j, n) < n,
    ensures
        a[i + common(a, i, b, j, n)] != b[j + common(a, i, b, j, n)],
    decreases n,
{
    if n > 0 && a[i] == b[j] {
        lemma_common_differs(a, i + 1, b, j + 1, n - 1);
    }
}

impl Env {
    /// Whether a match is looked for at `p`, in the literals that start at `a`:
    /// directly behind a match, and then at one try after the other, as long as
    /// the next try leaves room for the end of the block.
    pub open spec fn tried(self, a: int, p: int) -> bool {
        ||| a > 0 && p == a && a + MFLIMIT <= self.len()
        ||| exists|k: int|
            0 <= k && p == #[trigger] probe(a + 1, self.accel, k) && probe(a + 1, self.accel, k + 1)
                + MFLIMIT <= self.len() + 1
    }

    /// Whether a match is looked for at `p`, one of `n` literals from `a` on.
    pub open spec fn tried_among(self, a: int, n: int, p: int) -> bool {
        a <= p < a + n && self.tried(a, p)
    }

    /// Whether `q` is remembered once `seqs` are written: the first position,
    /// the literals at which a match was looked for, and the end of each match
    /// and the position two before it.
    pub open spec fn remembered(self, seqs: Seq<Sq>, q: int) -> bool
        decreases seqs.len(),
    {
        ||| q == 0
        ||| seqs.len() > 0 && {
            let rest = seqs.drop_last();
            ||| self.remembered(rest, q)
            ||| self.tried_among(total(rest), seqs.last().lits.len() as int, q)
            ||| q == total(seqs)
            ||| q == total(seqs) - 2
        }
    }

    /// Whether index `mi` can be referred to from `p`: it lies in the history `h`
    /// or earlier in the block, at most 65,535 bytes back, and its four bytes
    /// are those at `p`.
    pub open spec fn repeats_in(self, h: Seq<u8>, mi: int, p: int) -> bool {
        let d = p + self.start - mi;
        &&& 1 <= d <= 65535
        &&& d <= p + h.len()
        &&& d <= p || d >= p + 4
        &&& forall|k: int|
            0 <= k < 4 ==> self.src[p + k] == #[trigger] (h + self.src)[h.len() + p - d + k]
    }

    /// The same, in the history of the block.
    pub open spec fn repeats(self, mi: int, p: int) -> bool {
        self.repeats_in(self.hist, mi, p)
    }

    /// What the table `given` held for the hash `h` before the block: an index, and
    /// the history that it belongs to. Where a dictionary is attached, its table
    /// stands in for entries that are older than the block; its indices end
    /// where those of the block start.
    pub open spec fn held(self, given: Cells, h: int) -> (int, Seq<u8>) {
        match self.attached {
            Some(a) => if self.apart && given.at[h] < self.start {
                ((a.cells.at[h] + self.start - a.offset) % 0x1_0000_0000, a.hist)
            } else {
                (given.at[h], self.hist)
            },
            None => (given.at[h], self.hist),
        }
    }

    /// Whether a match looked for at `p`, behind `seqs` and some literals, is
    /// rightly not found. Wherever a remembered position with the same hash is
    /// the last of all with that hash, it cannot be referred to; and where the
    /// block holds none before `p`, what the table `given` held for the hash
    /// cannot.
    pub open spec fn rightly_missed(self, given: Cells, seqs: Seq<Sq>, p: int) -> bool {
        &&& forall|q: int|
            (self.remembered(seqs, q) || self.tried_among(total(seqs), p - total(seqs), q)) && q < p
                && #[trigger] self.hash(q) == self.hash(p) && self.repeats(q + self.start, p)
                ==> exists|r: int| q < r < p && #[trigger] self.hash(r) == self.hash(p)
        &&& (forall|r: int| 0 <= r < p ==> #[trigger] self.hash(r) != self.hash(p))
            ==> !self.repeats_in(self.held(given, self.hash(p)).1, self.held(given, self.hash(p)).0, p)
    }

    /// Whether the match of the last of `seqs` can be extended neither forwards,
    /// short of the last five bytes, nor backwards, into its literals.
    pub open spec fn snug(self, seqs: Seq<Sq>) -> bool {
        let s = seqs.last();
        let w = self.full_hist() + self.src;
        let h = self.full_hist().len();
        let m = total(seqs.drop_last()) + s.lits.len();
        let e = total(seqs);
        &&& e + LASTLITERALS == self.len() || self.src[e] != w[h + e - s.off]
        &&& s.lits.len() == 0 || self.bounded_below(m - s.off) || self.src[m - 1] != w[h + m - s.off
            - 1]
    }

    /// Whether a match that refers to position `p` cannot be extended before
    /// it: nothing comes before, or only a history held apart.
    pub open spec fn bounded_below(self, p: int) -> bool {
        p + self.full_hist().len() == 0 || self.apart && p == 0
    }

    /// Whether each of `seqs` holds a match that is as long as can be, behind
    /// literals at which every match was rightly missed.
    pub open spec fn diligent(self, given: Cells, seqs: Seq<Sq>) -> bool
        decreases seqs.len(),
    {
        seqs.len() > 0 ==> {
            let rest = seqs.drop_last();
            &&& self.diligent(given, rest)
            &&& self.snug(seqs)
            &&& forall|p: int|
                #[trigger] self.tried_among(total(rest), seqs.last().lits.len() as int, p)
                    ==> self.rightly_missed(given, rest, p)
        }
    }

    /// Whether literals from the end of `seqs` up to `upto` are rightly literals.
    spec fn literal_upto(self, given: Cells, seqs: Seq<Sq>, upto: int) -> bool {
        forall|p: int| #[trigger]
            self.tried_among(total(seqs), upto - total(seqs), p) ==> self.rightly_missed(
                given,
                seqs,
                p,
            )
    }

    /// Whether a table that started as `given` has seen only positions before
    /// `f`, and those of `seen` for sure.
    spec fn recalls(self, given: Cells, cells: Cells, f: int, seen: spec_fn(int) -> bool) -> bool {
        &&& cells.at.len() == entries(self.tt)
        &&& cells.tt == self.tt
        &&& forall|h: int|
            0 <= h < entries(self.tt) ==> #[trigger] cells.at[h] == given.at[h] || (0 <= cells.at[h]
                - self.start < f && self.hash(cells.at[h] - self.start) == h)
        &&& forall|q: int| #[trigger]
            seen(q) ==> q <= cells.at[self.hash(q)] - self.start < f && 0 <= cells.at[self.hash(
                q,
            )] - self.start && self.hash(cells.at[self.hash(q)] - self.start) == self.hash(q)
    }

    /// What the laws of this file are about: a block parsed after a history in
    /// one piece with it or apart, or after an attached dictionary whose table
    /// knows nothing of the block, in indices that the table can hold.
    pub open spec fn plain(self) -> bool {
        &&& self.wf()
        &&& self.accel >= 1
        &&& !self.fill
        &&& self.attached is Some ==> self.apart
        &&& self.attached matches Some(a) ==> forall|h: int|
            0 <= h < entries(self.tt) ==> {
                let i = (#[trigger] a.cells.at[h] + self.start - a.offset) % 0x1_0000_0000;
                0 <= a.cells.at[h] <= u32::MAX && (i < self.start || i >= self.start + self.len())
            }
        &&& self.tt == TableType::U16 ==> self.start == 0
    }

    proof fn lemma_enter(self, given: Cells, cells: Cells, f: int, seen: spec_fn(int) -> bool, p: int, more: spec_fn(int) -> bool)
        requires
            self.plain(),
            self.recalls(given, cells, f, seen),
            f <= p,
            0 <= p,
            p + MFLIMIT <= self.len(),
            forall|q: int| #[trigger] more(q) ==> seen(q) || q == p,
        ensures
            self.recalls(given, self.enter(cells, p), p + 1, more),
    {
        lemma_hash_entries(self.src, p, self.tt, self.little);
        let c = self.enter(cells, p);
        assert(c.at[self.hash(p)] == p + self.start);
        assert forall|q: int| #[trigger] more(q) implies q <= c.at[self.hash(q)] - self.start < p + 1
            && 0 <= c.at[self.hash(q)] - self.start && self.hash(c.at[self.hash(q)] - self.start)
            == self.hash(q) by {
            lemma_hash_entries(self.src, q, self.tt, self.little);
            if seen(q) && self.hash(q) != self.hash(p) {
                assert(c.at[self.hash(q)] == cells.at[self.hash(q)]);
            }
        }
        assert forall|h: int| 0 <= h < entries(self.tt) implies #[trigger] c.at[h] == given.at[h]
            || (0 <= c.at[h] - self.start < p + 1 && self.hash(c.at[h] - self.start) == h) by {
            if h != self.hash(p) {
                assert(c.at[h] == cells.at[h]);
            }
        }
    }

    /// A candidate is accepted if and only if it can be referred to, in the
    /// history that it lies in; the length of the block plays no part.
    pub proof fn law_acceptable(self, mi: int, far: bool, ip: int)
        requires
            self.wf(),
            0 <= ip,
            ip + MFLIMIT <= self.len(),
        ensures
            self.acceptable(mi, far, ip) <==> self.repeats_in(self.behind(far), mi, ip),
    {
        reveal(Env::acceptable);
        let h = self.behind(far);
        let w = h + self.src;
        let p = mi - self.start + h.len();
        let d = ip + self.start - mi;
        if self.acceptable(mi, far, ip) {
            assert forall|k: int| 0 <= k < 4 implies self.src[ip + k] == #[trigger] w[h.len() + ip
                - d + k] by {
                assert(w.subrange(p, p + 4)[k] == self.src.subrange(ip, ip + 4)[k]);
            }
        }
        if self.repeats_in(h, mi, ip) {
            assert forall|k: int| 0 <= k < 4 implies #[trigger] w.subrange(p, p + 4)[k]
                == self.src.subrange(ip, ip + 4)[k] by {
                assert(self.src[ip + k] == w[h.len() + ip - d + k]);
            }
            assert(w.subrange(p, p + 4) =~= self.src.subrange(ip, ip + 4));
        }
    }

    proof fn lemma_miss(self, given: Cells, cells: Cells, seqs: Seq<Sq>, f: int, seen: spec_fn(int) -> bool, p: int)
        requires
            self.plain(),
            self.recalls(given, cells, f, seen),
            f <= p,
            0 <= p,
            p + MFLIMIT <= self.len(),
            self.hit(cells, p) is None,
            forall|q: int|
                (self.remembered(seqs, q) || self.tried_among(total(seqs), p - total(seqs), q)) && q
                    < p ==> #[trigger] seen(q),
        ensures
            self.rightly_missed(given, seqs, p),
    {
        reveal(Env::hit);
        let h = self.hash(p);
        lemma_hash_entries(self.src, p, self.tt, self.little);
        let (mi, far) = self.lookup(cells, h);
        self.law_acceptable(mi, far, p);
        assert(!self.repeats_in(self.behind(far), mi, p));
        assert forall|q: int|
            (self.remembered(seqs, q) || self.tried_among(total(seqs), p - total(seqs), q)) && q < p
                && #[trigger] self.hash(q) == self.hash(p) && self.repeats(
                q + self.start,
                p,
            ) implies exists|r: int| q < r < p && #[trigger] self.hash(r) == self.hash(p) by {
            assert(seen(q));
            assert(mi == cells.at[h] && !far);
            let r = mi - self.start;
            assert(self.hash(r) == self.hash(p));
            if r == q {
                assert forall|k: int| 0 <= k < 4 implies self.src[p + k] == #[trigger] (
                self.behind(far) + self.src)[self.behind(far).len() + q + k] by {
                    assert(self.src[p + k] == (self.hist + self.src)[self.hist.len() + p - (p - q)
                        + k]);
                }
            }
        }
        if forall|r: int| 0 <= r < p ==> #[trigger] self.hash(r) != self.hash(p) {
            assert(cells.at[h] == given.at[h] || (0 <= cells.at[h] - self.start < f && self.hash(
                cells.at[h] - self.start,
            ) == h));
            assert(cells.at[h] == given.at[h]);
            assert(self.held(given, h) == (mi, self.behind(far)));
        }
    }

    /// The positions that a table has seen for sure, `f` being the next.
    spec fn seen_before(self, seqs: Seq<Sq>, f: int) -> spec_fn(int) -> bool {
        |q: int| self.remembered(seqs, q) || self.tried_among(total(seqs), f - total(seqs), q)
    }

    /// The positions that a table has seen for sure once the block is done: all
    /// that are remembered but for the last few bytes, where a match may end
    /// without being entered.
    pub open spec fn kept(self, seqs: Seq<Sq>) -> spec_fn(int) -> bool {
        |q: int|
            q + 14 <= self.len() && (self.remembered(seqs, q) || self.tried_among(
                total(seqs),
                self.len() - total(seqs),
                q,
            ))
    }

    /// What is tried before the next try was tried before this one, or is it.
    proof fn lemma_tried(self, a: int, k: int, p: int)
        requires
            self.accel >= 1,
            0 <= k,
            self.tried_among(a, probe(a + 1, self.accel, k + 1) - a, p),
        ensures
            p == probe(a + 1, self.accel, k) || self.tried_among(
                a,
                probe(a + 1, self.accel, k) - a,
                p,
            ),
    {
        if a > 0 && p == a && a + MFLIMIT <= self.len() {
            if k > 0 {
                lemma_probe(a + 1, self.accel, 0, k);
            }
        } else {
            let j = choose|j: int|
                0 <= j && p == #[trigger] probe(a + 1, self.accel, j) && probe(
                    a + 1,
                    self.accel,
                    j + 1,
                ) + MFLIMIT <= self.len() + 1;
            if j > k {
                if j > k + 1 {
                    lemma_probe(a + 1, self.accel, k + 1, j);
                }
            } else if j < k {
                lemma_probe(a + 1, self.accel, j, k);
            }
        }
    }

    #[verifier::rlimit(30)]
    proof fn lemma_search_diligent(self, given: Cells, cells: Cells, seqs: Seq<Sq>, k: int, f: int)
        requires
            self.plain(),
            0 <= total(seqs),
            0 <= k,
            f <= self.len(),
            ({
                let ip = probe(total(seqs) + 1, self.accel, k);
                &&& f <= ip
                &&& self.recalls(given, cells, f, self.seen_before(seqs, ip))
                &&& self.literal_upto(given, seqs, ip)
            }),
        ensures
            ({
                let ip = probe(total(seqs) + 1, self.accel, k);
                let step = probe(total(seqs) + 1, self.accel, k + 1) - ip;
                let (m, c) = self.search(cells, ip, step, 64 * self.accel + k);
                match m {
                    None => {
                        &&& self.literal_upto(given, seqs, self.len())
                        &&& self.recalls(given, c, self.len(), self.seen_before(seqs, self.len()))
                    },
                    Some(m) => {
                        &&& total(seqs) < m.ip
                        &&& self.literal_upto(given, seqs, m.ip)
                        &&& self.recalls(given, c, m.ip + 1, self.seen_before(seqs, m.ip))
                    },
                }
            }),
        decreases self.len() - probe(total(seqs) + 1, self.accel, k),
    {
        let a = total(seqs);
        let ip = probe(a + 1, self.accel, k);
        let next = probe(a + 1, self.accel, k + 1);
        let step = next - ip;
        lemma_probe(a + 1, self.accel, k, k + 1);
        if ip + step > self.len() - MFLIMIT + 1 {
            assert forall|p: int| #[trigger]
                self.tried_among(a, self.len() - a, p) implies self.tried_among(a, ip - a, p) by {
                if !(a > 0 && p == a && a + MFLIMIT <= self.len()) {
                    let j = choose|j: int|
                        0 <= j && p == #[trigger] probe(a + 1, self.accel, j) && probe(
                            a + 1,
                            self.accel,
                            j + 1,
                        ) + MFLIMIT <= self.len() + 1;
                    if j >= k {
                        if j > k {
                            lemma_probe(a + 1, self.accel, k + 1, j + 1);
                        }
                    } else {
                        lemma_probe(a + 1, self.accel, j, k);
                    }
                }
            }
            assert forall|p: int| #[trigger]
                self.tried_among(a, self.len() - a, p) implies self.rightly_missed(
                given,
                seqs,
                p,
            ) by {
                assert(self.tried_among(a, ip - a, p));
            }
            let seen = self.seen_before(seqs, ip);
            let all = self.seen_before(seqs, self.len());
            assert forall|q: int| #[trigger] all(q) implies seen(q) by {}
        } else {
            let seen = self.seen_before(seqs, ip);
            let c = self.enter(cells, ip);
            self.lemma_enter(given, cells, f, seen, ip, seen);
            match self.hit(cells, ip) {
                Some(m) => {
                    reveal(Env::hit);
                },
                None => {
                    self.lemma_miss(given, cells, seqs, f, seen, ip);
                    assert(self.literal_upto(given, seqs, next)) by {
                        assert forall|p: int| #[trigger]
                            self.tried_among(a, next - a, p) implies self.rightly_missed(
                            given,
                            seqs,
                            p,
                        ) by {
                            self.lemma_tried(a, k, p);
                        }
                    }
                    let more = self.seen_before(seqs, next);
                    assert forall|q: int| #[trigger] more(q) implies seen(q) || q == ip by {
                        if !self.remembered(seqs, q) {
                            self.lemma_tried(a, k, q);
                        }
                    }
                    self.lemma_enter(given, cells, f, seen, ip, more);
                    self.lemma_search_diligent(given, c, seqs, k + 1, ip + 1);
                    assert((64 * self.accel + k) / 64 == self.accel + k / 64);
                },
            }
        }
    }

    /// Whether the table has seen positions before `f`, all of which `m` covers
    /// or follows.
    spec fn primed(self, given: Cells, cells: Cells, seqs: Seq<Sq>, m: Hit, f: int) -> bool {
        &&& m.ip < f
        &&& f + 11 <= self.len()
        &&& self.holds(m, f - m.ip + 3)
        &&& self.recalls(given, cells, f, self.seen_before(seqs, m.ip))
    }

    /// What holds of a stage of the parse: the matches taken so far are snug,
    /// and the literals passed over are rightly literals.
    spec fn careful(self, given: Cells, st: Stage) -> bool {
        let a = st.anchor;
        &&& total(st.seqs) == a
        &&& self.diligent(given, st.seqs)
        &&& match st.act {
            Act::TooSmall => true,
            Act::Finish(_) => {
                &&& self.literal_upto(given, st.seqs, self.len())
                &&& self.recalls(given, st.cells, self.len(), self.kept(st.seqs))
            },
            Act::Search(ip) => {
                &&& ip == a + 1
                &&& ip <= self.len()
                &&& self.literal_upto(given, st.seqs, ip)
                &&& self.recalls(given, st.cells, ip, self.seen_before(st.seqs, ip))
            },
            Act::Go(m, _) => {
                &&& self.literal_upto(given, st.seqs, m.ip)
                &&& m.ip == a || self.bounded_below(m.ip - m.off) || self.src[m.ip - 1] != (
                self.full_hist() + self.src)[self.full_hist().len() + m.ip - m.off - 1]
                &&& m.far && self.attached is Some ==> m.off > m.ip
                &&& exists|f: int| #[trigger] self.primed(given, st.cells, st.seqs, m, f)
            },
        }
    }

    /// Only a history held apart is looked at apart, a match elsewhere stays within
    /// the block then, and one in an attached history reaches past it.
    spec fn placed(self, m: Hit) -> bool {
        &&& self.apart || !m.far
        &&& self.apart && !m.far ==> m.off <= m.ip
        &&& m.far && self.attached is Some ==> m.off > m.ip
    }

    /// A match cannot be extended backwards any more than it was.
    proof fn lemma_back_stops(self, m: Hit, anchor: int)
        requires
            self.plain(),
            0 <= anchor <= m.ip <= self.len(),
            1 <= m.off <= m.ip + self.behind(m.far).len(),
            self.apart || !m.far,
            self.apart && !m.far ==> m.off <= m.ip,
        ensures
            ({
                let b = m.ip - self.back(m, anchor);
                &&& anchor <= b <= m.ip
                &&& m.off <= b + self.behind(m.far).len()
                &&& b == anchor || self.bounded_below(b - m.off) || self.src[b - 1] != (
                self.full_hist() + self.src)[self.full_hist().len() + b - m.off - 1]
            }),
        decreases m.ip,
    {
        let p = m.ip + self.behind(m.far).len() - m.off;
        let low = if self.apart && !m.far {
            self.behind(m.far).len() as int
        } else {
            0
        };
        if p > 0 {
            self.lemma_window(m.far, p - 1);
        }
        if m.ip > anchor && p > low && self.src[m.ip - 1] == self.window(m.far)[p - 1] {
            self.lemma_back_stops(Hit { ip: m.ip - 1, off: m.off, far: m.far }, anchor);
        }
    }

    proof fn lemma_seek_careful(self, given: Cells, st: Stage, ip: int)
        requires
            self.plain(),
            self.stands(st),
            self.careful(given, st),
            st.act == Act::Search(ip),
        ensures
            self.careful(given, self.seek(st.cells, ip, st.anchor, st.seqs)),
    {
        reveal(Env::seek);
        self.lemma_search(st.cells, ip, 1, 64 * self.accel);
        self.lemma_search_diligent(given, st.cells, st.seqs, 0, ip);
        assert(probe(st.anchor + 1, self.accel, 0) == ip && probe(st.anchor + 1, self.accel, 1)
            == ip + 1);
        assert(64 * self.accel + 0 == 64 * self.accel);
        let (m, c) = self.search(st.cells, ip, 1, 64 * self.accel);
        if m is None {
            let all = self.seen_before(st.seqs, self.len());
            let kept = self.kept(st.seqs);
            assert forall|q: int| #[trigger] kept(q) implies all(q) by {}
        }
        if let Some(m) = m {
            assert(self.literal_upto(given, st.seqs, m.ip));
            self.lemma_search_far(st.cells, ip, 1, 64 * self.accel);
            self.lemma_back(m, st.anchor, 4);
            self.lemma_back_stops(m, st.anchor);
            let b = m.ip - self.back(m, st.anchor);
            let m1 = Hit { ip: b, off: m.off, far: m.far };
            assert forall|p: int| #[trigger]
                self.tried_among(st.anchor, b - st.anchor, p) implies self.rightly_missed(
                given,
                st.seqs,
                p,
            ) by {
                assert(self.tried_among(st.anchor, m.ip - st.anchor, p));
            }
            let seen = self.seen_before(st.seqs, m.ip);
            let less = self.seen_before(st.seqs, b);
            assert forall|q: int| #[trigger] less(q) implies seen(q) by {}
            assert(self.recalls(given, c, m.ip + 1, less));
            assert(self.primed(given, c, st.seqs, m1, m.ip + 1));
            assert(self.literal_upto(given, st.seqs, b));
        }
    }

    proof fn lemma_hit_far(self, cells: Cells, ip: int)
        requires
            self.plain(),
            0 <= ip,
            ip + MFLIMIT <= self.len(),
        ensures
            self.hit(cells, ip) matches Some(m) ==> self.placed(m),
    {
        reveal(Env::hit);
        lemma_hash_entries(self.src, ip, self.tt, self.little);
        let (mi, far) = self.lookup(cells, self.hash(ip));
        self.law_acceptable(mi, far, ip);
        if let Some(a) = self.attached {
            assert(0 <= a.cells.at[self.hash(ip)] <= u32::MAX);
        }
    }

    proof fn lemma_search_far(self, cells: Cells, ip: int, step: int, nb: int)
        requires
            self.plain(),
            0 <= ip,
        ensures
            self.search(cells, ip, step, nb).0 matches Some(m) ==> self.placed(m),
        decreases self.len() - ip,
    {
        if !(step < 1 || ip + step > self.len() - MFLIMIT + 1) {
            self.lemma_hit_far(cells, ip);
            if self.hit(cells, ip) is None {
                self.lemma_search_far(self.enter(cells, ip), ip + step, nb / 64, nb + 1);
            }
        }
    }

    /// A match that was found is as long as the bytes that it covers agree.
    proof fn lemma_match_stops(self, m: Hit, n: int)
        requires
            self.plain(),
            self.holds(m, n),
            n >= 4,
            m.ip + n + 8 <= self.len(),
            m.off <= m.ip + self.behind(m.far).len(),
            m.far && self.attached is Some ==> m.off > m.ip,
        ensures
            ({
                let e = m.ip + MINMATCH + self.match_code(m);
                &&& m.ip + n <= e <= self.len() - LASTLITERALS
                &&& e + LASTLITERALS == self.len() || self.src[e] != (self.full_hist()
                    + self.src)[self.full_hist().len() + e - m.off]
            }),
    {
        let at = m.ip + MINMATCH;
        let f = self.full_hist();
        let w = self.window(m.far);
        let j = at + self.behind(m.far).len() - m.off;
        let bound = self.len() - LASTLITERALS - at;
        assert forall|k: int| 0 <= k < n - 4 implies #[trigger] self.src[at + k] == w[j + k] by {
            assert(self.src[m.ip + (k + 4)] == (f + self.src)[m.ip + f.len() - m.off + (k + 4)]);
            self.lemma_window(m.far, j + k);
        }
        lemma_common_reaches(self.src, at, w, j, bound, n - 4);
        lemma_common_bounds(self.src, at + (n - 4), w, j + (n - 4), bound - (n - 4));
        if self.match_code(m) < bound {
            let c = common(self.src, at, w, j, bound);
            if c < bound {
                lemma_common_differs(self.src, at, w, j, bound);
                self.lemma_window(m.far, j + c);
            }
        }
    }

    #[verifier::rlimit(30)]
    proof fn lemma_take_careful(self, given: Cells, st: Stage, m: Hit, filled: int)
        requires
            self.plain(),
            self.stands(st),
            self.careful(given, st),
            st.act == Act::Go(m, filled),
        ensures
            self.careful(given, self.take(st.cells, m, st.anchor, filled, st.seqs)),
    {
        reveal(Env::take);
        let mc = self.match_code(m);
        let e = m.ip + mc + MINMATCH;
        let op = self.lit_end(m, st.anchor, st.seqs) + 2;
        if !(self.limited && op + 6 + (mc + 240) / 255 > self.room) {
            let s = Sq {
                lits: self.src.subrange(st.anchor, m.ip),
                off: m.off,
                mlen: mc + MINMATCH,
            };
            let f = choose|f: int| #[trigger] self.primed(given, st.cells, st.seqs, m, f);
            self.lemma_match_stops(m, f - m.ip + 3);
            let seqs = st.seqs.push(s);
            assert(seqs.drop_last() =~= st.seqs);
            assert(total(seqs) == e);
            assert(self.diligent(given, seqs));
            self.lemma_land_careful(given, st, f, m.ip, filled, s, e);
        }
    }

    #[verifier::rlimit(30)]
    proof fn lemma_land_careful(self, given: Cells, st: Stage, f: int, ip: int, filled: int, s: Sq, e: int)
        requires
            self.plain(),
            self.recalls(given, st.cells, f, self.seen_before(st.seqs, ip)),
            s.lits.len() == ip - total(st.seqs),
            0 < f <= e - 2,
            e <= self.len(),
            total(st.seqs.push(s)) == e,
            self.diligent(given, st.seqs.push(s)),
        ensures
            self.careful(given, self.land(st.cells, e, filled, st.seqs.push(s))),
    {
        reveal(Env::land);
        let seqs = st.seqs.push(s);
        assert(seqs.drop_last() =~= st.seqs);
        if e >= self.len() - MFLIMIT + 1 {
            assert forall|p: int| #[trigger]
                self.tried_among(e, self.len() - e, p) implies self.rightly_missed(
                given,
                seqs,
                p,
            ) by {
                let k = choose|k: int|
                    0 <= k && p == #[trigger] probe(e + 1, self.accel, k) && probe(
                        e + 1,
                        self.accel,
                        k + 1,
                    ) + MFLIMIT <= self.len() + 1;
                lemma_probe(e + 1, self.accel, k, k + 1);
            }
            let seen = self.seen_before(st.seqs, ip);
            let kept = self.kept(seqs);
            assert forall|q: int| #[trigger] kept(q) implies seen(q) by {
                if self.tried_among(e, self.len() - e, q) {
                    let k = choose|k: int|
                        0 <= k && q == #[trigger] probe(e + 1, self.accel, k) && probe(
                            e + 1,
                            self.accel,
                            k + 1,
                        ) + MFLIMIT <= self.len() + 1;
                    lemma_probe(e + 1, self.accel, k, k + 1);
                }
                if q == 0 {
                    assert(self.remembered(st.seqs, 0));
                }
            }
        } else {
            let seen = self.seen_before(st.seqs, ip);
            let some = |q: int| seen(q) || q == e - 2;
            let c2 = self.enter(st.cells, e - 2);
            self.lemma_enter(given, st.cells, f, seen, e - 2, some);
            assert forall|q: int| self.tried_among(e, 0, q) implies false by {}
            let all = self.seen_before(seqs, e);
            assert forall|q: int|
                (self.remembered(seqs, q) || self.tried_among(e, e - total(seqs), q)) && q
                    < e implies #[trigger] some(q) by {
                if q == 0 {
                    assert(self.remembered(st.seqs, 0));
                }
            }
            assert forall|q: int| #[trigger] all(q) implies some(q) || q == e by {
                if q == 0 {
                    assert(self.remembered(st.seqs, 0));
                }
            }
            self.lemma_enter(given, c2, e - 1, some, e, all);
            match self.hit(c2, e) {
                Some(m) => {
                    self.lemma_hit(c2, e);
                    self.lemma_hit_far(c2, e);
                    assert(self.literal_upto(given, seqs, m.ip));
                    assert(self.primed(given, self.enter(c2, e), seqs, m, e + 1));
                },
                None => {
                    self.lemma_miss(given, c2, seqs, e - 1, some, e);
                    assert forall|p: int| #[trigger]
                        self.tried_among(e, 1, p) implies self.rightly_missed(given, seqs, p) by {
                        assert(p == e);
                    }
                    let more = self.seen_before(seqs, e + 1);
                    assert forall|q: int| #[trigger] more(q) implies some(q) || q == e by {
                        if q == 0 {
                            assert(self.remembered(st.seqs, 0));
                        }
                    }
                    self.lemma_enter(given, c2, e - 1, some, e, more);
                    assert(self.literal_upto(given, seqs, e + 1));
                },
            }
        }
    }

    proof fn lemma_run_careful(self, given: Cells, st: Stage)
        requires
            self.plain(),
            self.stands(st),
            self.careful(given, st),
        ensures
            self.run(st).block matches Some((seqs, last)) ==> {
                &&& self.diligent(given, seqs)
                &&& total(seqs) + last.len() == self.len()
                &&& self.literal_upto(given, seqs, self.len())
                &&& self.recalls(given, self.run(st).cells, self.len(), self.kept(seqs))
            },
        decreases self.len() - st.anchor, st.rank(),
    {
        match st.act {
            Act::TooSmall => {},
            Act::Finish(limited) => {
                reveal(Env::finish);
            },
            Act::Search(ip) => {
                let next = self.seek(st.cells, ip, st.anchor, st.seqs);
                self.lemma_seek(st, ip);
                self.lemma_seek_careful(given, st, ip);
                if st.leads_to(next, self.len()) {
                    self.lemma_run_careful(given, next);
                }
            },
            Act::Go(m, filled) => {
                let next = self.take(st.cells, m, st.anchor, filled, st.seqs);
                self.lemma_take(st, m, filled);
                self.lemma_take_careful(given, st, m, filled);
                if st.leads_to(next, self.len()) {
                    self.lemma_run_careful(given, next);
                }
            },
        }
    }

    /// The greedy parse passes over no match: at every literal where one is
    /// looked for, the last position with the same hash that the table can
    /// hold is more than 65,535 bytes back or differs within four bytes. Every
    /// match is as long as can be. The length of the block plays no part in
    /// either. And the table that is left remembers every position that was
    /// entered, or a later one with its hash, for the blocks that follow.
    pub proof fn law_parse_is_greedy(self, cells: Cells, p: int)
        requires
            self.plain(),
            self.len() > MFLIMIT,
            cells.tt == self.tt,
            cells.wf(),
        ensures
            self.parse(cells).block matches Some((seqs, last)) ==> {
                &&& self.diligent(cells, seqs)
                &&& total(seqs) + last.len() == self.len()
                &&& self.tried_among(total(seqs), last.len() as int, p) ==> self.rightly_missed(
                    cells,
                    seqs,
                    p,
                )
                &&& p + 14 <= self.len() && (self.remembered(seqs, p) || self.tried_among(
                    total(seqs),
                    last.len() as int,
                    p,
                )) ==> {
                    let i = self.parse(cells).cells.at[self.hash(p)] - self.start;
                    p <= i < self.len() && self.hash(i) == self.hash(p)
                }
            },
    {
        let seqs = Seq::<Sq>::empty();
        let none = |q: int| false;
        let seen = self.seen_before(seqs, 1);
        assert(self.src.take(0) =~= Seq::empty());
        assert forall|p: int| !#[trigger] self.tried_among(0, 1, p) by {
            if self.tried_among(0, 1, p) {
                let k = choose|k: int|
                    0 <= k && p == #[trigger] probe(1, self.accel, k) && probe(
                        1,
                        self.accel,
                        k + 1,
                    ) + MFLIMIT <= self.len() + 1;
                lemma_probe(1, self.accel, k, k + 1);
            }
        }
        assert(self.recalls(cells, cells, 0, none));
        self.lemma_enter(cells, cells, 0, none, 0, seen);
        let st = Stage { act: Act::Search(1), cells: self.enter(cells, 0), anchor: 0, seqs };
        assert(self.careful(cells, st));
        self.lemma_run_careful(cells, st);
        if let Some((seqs, last)) = self.parse(cells).block {
            assert(self.tried_among(total(seqs), last.len() as int, p) == self.tried_among(
                total(seqs),
                self.len() - total(seqs),
                p,
            ));
            let kept = self.kept(seqs);
            assert(self.recalls(cells, self.parse(cells).cells, self.len(), kept));
            if p + 14 <= self.len() && (self.remembered(seqs, p) || self.tried_among(
                total(seqs),
                last.len() as int,
                p,
            )) {
                assert(kept(p));
            }
        }
    }

    /// All positions of a run hash alike.
    proof fn lemma_run_hash(self, p: int, q: int)
        requires
            uniform(self.src),
            0 <= p,
            p + 8 <= self.len(),
            0 <= q,
            q + 8 <= self.len(),
        ensures
            self.hash(p) == self.hash(q),
    {
        reveal(hash_at);
        let s = self.src;
        assert(s[p] == s[q] && s[p + 1] == s[q + 1] && s[p + 2] == s[q + 2] && s[p + 3] == s[q + 3]
            && s[p + 4] == s[q + 4] && s[p + 5] == s[q + 5] && s[p + 6] == s[q + 6] && s[p + 7]
            == s[q + 7]);
    }

    /// A run of one byte is one literal, one match, and the five bytes at the
    /// end, however long it is and whatever the table held.
    #[verifier::rlimit(40)]
    pub proof fn law_run(self, cells: Cells)
        requires
            self.plain(),
            self.hist.len() == 0,
            self.len() > MFLIMIT,
            uniform(self.src),
            cells.tt == self.tt,
            cells.wf(),
        ensures
            ({
                let n = self.len();
                let b = self.src[0];
                let s = Sq { lits: seq![b], off: 1, mlen: n - 6 };
                let size = 10 + len_ext(n - 10).len();
                &&& enc_block(seq![s], seq![b, b, b, b, b]).len() == size
                &&& self.parse(cells).block == if self.limited && size > self.room {
                    None
                } else {
                    Some((seq![s], seq![b, b, b, b, b]))
                }
            }),
    {
        let n = self.len();
        let b = self.src[0];
        let s = Sq { lits: seq![b], off: 1, mlen: n - 6 };
        let c0 = self.enter(cells, 0);
        let c1 = self.enter(c0, 1);
        let none = Seq::<Sq>::empty();
        let m = Hit { ip: 1, off: 1, far: false };
        lemma_hash_entries(self.src, 0, self.tt, self.little);
        self.lemma_run_hash(0, 1);
        assert(c0.at[self.hash(1)] == self.start);
        self.law_acceptable(self.start as int, false, 1);
        assert forall|k: int| 0 <= k < 4 implies self.src[1 + k] == #[trigger] (self.hist
            + self.src)[self.hist.len() + 1 - 1 + k] by {
            assert(self.src[k] == self.src[0] && self.src[1 + k] == self.src[0]);
        }
        assert(self.hit(c0, 1) == Some(m)) by {
            reveal(Env::hit);
        }
        assert(self.search(c0, 1, 1, 64 * self.accel) == (Some(m), c1));
        assert(self.back(m, 0) == 0);
        let w = self.hist + self.src;
        assert(w =~= self.src);
        assert forall|k: int| 0 <= k < n - 10 implies #[trigger] self.src[5 + k] == w[4 + k] by {
            assert(self.src[5 + k] == self.src[0] && self.src[4 + k] == self.src[0]);
        }
        lemma_common_reaches(self.src, 5, w, 4, n - 10, n - 10);
        assert(self.match_code(m) == n - 10);
        lemma_ext_len(1);
        lemma_ext_len(5);
        lemma_ext_len(n - 10);
        assert(self.src.subrange(0, 1) =~= seq![b]);
        let five = self.src.subrange(n - 5, n);
        assert forall|k: int| 0 <= k < 5 implies five[k] == b by {
            assert(self.src[n - 5 + k] == self.src[0]);
        }
        assert(five =~= seq![b, b, b, b, b]);
        assert(none.push(s) =~= seq![s]);
        assert(seq![s].drop_last() =~= none);
        assert(enc_seqs(none) =~= Seq::<u8>::empty());
        assert(enc_seqs(seq![s]) =~= enc_seq(s));
        let st0 = Stage { act: Act::Search(1), cells: c0, anchor: 0, seqs: none };
        let st1 = self.seek(c0, 1, 0, none);
        assert(st1 == (Stage {
            act: if self.limited && 10 > self.room {
                Act::TooSmall
            } else {
                Act::Go(m, 1)
            },
            cells: c1,
            anchor: 0,
            seqs: none,
        })) by {
            reveal(Env::seek);
        }
        if !(self.limited && 10 > self.room) {
            let st2 = self.take(c1, m, 0, 1, none);
            assert(st2 == if self.limited && 10 + len_ext(n - 10).len() > self.room {
                Stage { act: Act::TooSmall, cells: c1, anchor: 0, seqs: none }
            } else {
                Stage { act: Act::Finish(self.limited), cells: c1, anchor: n - 5, seqs: seq![s] }
            }) by {
                reveal(Env::take);
                reveal(Env::land);
            }
            reveal(Env::finish);
            assert(self.run(st1) == self.run(st2));
            assert(self.run(st0) == self.run(st1));
        } else {
            assert(self.run(st0) == self.run(st1));
        }
    }
}

/// `law_parse_is_greedy`, of a block that is compressed alone.
pub proof fn law_fast_is_greedy(src: Seq<u8>, room: int, acceleration: i32, little: bool, p: int)
    requires
        MFLIMIT < src.len() <= LZ4_MAX_INPUT_SIZE,
    ensures
        ({
            let n = src.len() as int;
            let env = alone_env(src, 0, room, room < bound(n), false, acceleration, little);
            let zero = Cells::zero(own_type(n));
            fast_outcome(src, room, acceleration, little).block matches Some((seqs, last)) ==> {
                &&& env.diligent(zero, seqs)
                &&& total(seqs) + last.len() == n
                &&& env.tried_among(total(seqs), last.len() as int, p) ==> env.rightly_missed(
                    zero,
                    seqs,
                    p,
                )
            }
        }),
{
    let n = src.len() as int;
    let env = alone_env(src, 0, room, room < bound(n), false, acceleration, little);
    env.law_parse_is_greedy(Cells::zero(own_type(n)), p);
}

/// `n` equal bytes compress to ten bytes and the extension of one length code,
/// for every `n` above twelve, wherever that fits.
pub proof fn law_fast_run(src: Seq<u8>, room: int, acceleration: i32, little: bool)
    requires
        MFLIMIT < src.len() <= LZ4_MAX_INPUT_SIZE,
        uniform(src),
    ensures
        ({
            let n = src.len() as int;
            let size = 1 + 1 + 2 + len_ext(n - 10).len() + 6;
            match fast_outcome(src, room, acceleration, little).block {
                Some((seqs, last)) => enc_block(seqs, last).len() == size && size <= room,
                None => size > room,
            }
        }),
{
    let n = src.len() as int;
    let env = alone_env(src, 0, room, room < bound(n), false, acceleration, little);
    lemma_ext_len(n - 10);
    env.law_run(Cells::zero(own_type(n)));
}

} // verus!
