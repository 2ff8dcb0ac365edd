//! Finding matches: the executable counterpart of the greedy parse.
use vstd::prelude::*;
use crate::format::{LASTLITERALS, LZ4_DISTANCE_MAX, MFLIMIT, MINMATCH};
use super::parse::{common, Attached, Env, Hit};
use super::table::{entries, hash_position, Table, TableType};

verus! {

/// How many leading bytes `a[i..]` and `b[j..]` share, up to `n`.
pub fn common_bytes(a: &[u8], i: usize, b: &[u8], j: usize, n: usize) -> (k: usize)
    requires
        i + n <= a.len(),
        j + n <= b.len(),
    ensures
        k == common(a@, i as int, b@, j as int, n as int),
        k <= n,
{
    let mut k: usize = 0;
    while k < n && a[i + k] == b[j + k]
        invariant
            k <= n,
            i + n <= a.len(),
            j + n <= b.len(),
            common(a@, i as int, b@, j as int, n as int) == k + common(
                a@,
                i + k,
                b@,
                j + k,
                n - k,
            ),
        decreases n - k,
    {
        k = k + 1;
    }
    k
}

pub proof fn lemma_common_bounds(a: Seq<u8>, i: int, b: Seq<u8>, j: int, n: int)
    ensures
        0 <= common(a, i, b, j, n),
        n >= 0 ==> common(a, i, b, j, n) <= n,
        forall|k: int|
            0 <= k < common(a, i, b, j, n) ==> #[trigger] a[i + k] == b[j + k],
    decreases n,
{
    if n > 0 && a[i] == b[j] {
        lemma_common_bounds(a, i + 1, b, j + 1, n - 1);
        assert forall|k: int| 0 <= k < common(a, i, b, j, n) implies #[trigger] a[i + k] == b[j
            + k] by {
            if k > 0 {
                assert(a[(i + 1) + (k - 1)] == b[(j + 1) + (k - 1)]);
            }
        }
    }
}

/// Bytes that agree are all counted.
pub proof fn lemma_common_reaches(a: Seq<u8>, i: int, b: Seq<u8>, j: int, n: int, m: int)
    requires
        0 <= m <= n,
        forall|k: int| 0 <= k < m ==> #[trigger] a[i + k] == b[j + k],
    ensures
        common(a, i, b, j, n) == m + common(a, i + m, b, j + m, n - m),
    decreases m,
{
    if m > 0 {
        assert(a[i + 0] == b[j + 0]);
        assert forall|k: int| 0 <= k < m - 1 implies #[trigger] a[i + 1 + k] == b[j + 1 + k] by {
            assert(a[i + (k + 1)] == b[j + (k + 1)]);
        }
        lemma_common_reaches(a, i + 1, b, j + 1, n - 1, m - 1);
    }
}

/// Counting depends only on the bytes counted over.
proof fn lemma_common_local(a: Seq<u8>, i: int, b: Seq<u8>, j: int, c: Seq<u8>, l: int, n: int)
    requires
        forall|k: int| 0 <= k < n ==> #[trigger] b[j + k] == c[l + k],
    ensures
        common(a, i, b, j, n) == common(a, i, c, l, n),
    decreases n,
{
    if n > 0 {
        assert(b[j + 0] == c[l + 0]);
        assert forall|k: int| 0 <= k < n - 1 implies #[trigger] b[j + 1 + k] == c[l + 1 + k] by {
            assert(b[j + (k + 1)] == c[l + (k + 1)]);
        }
        lemma_common_local(a, i + 1, b, j + 1, c, l + 1, n - 1);
    }
}

/// A count that ends early ends there for every larger bound.
proof fn lemma_common_stops(a: Seq<u8>, i: int, b: Seq<u8>, j: int, m: int, n: int)
    requires
        m <= n,
        common(a, i, b, j, m) < m,
    ensures
        common(a, i, b, j, n) == common(a, i, b, j, m),
    decreases m,
{
    if m > 0 && a[i] == b[j] {
        lemma_common_stops(a, i + 1, b, j + 1, m - 1, n - 1);
    }
}

/// How many bytes of `s[i..]` equal those of `h` followed by `s` from `p` on.
pub fn count_window(h: &[u8], s: &[u8], i: usize, p: usize, n: usize) -> (k: usize)
    requires
        i + n <= s.len(),
        p + n <= h@.len() + s@.len(),
    ensures
        k == common(s@, i as int, h@ + s@, p as int, n as int),
        k <= n,
{
    let ghost w = h@ + s@;
    if p >= h.len() {
        proof {
            lemma_common_local(s@, i as int, s@, p - h@.len(), w, p as int, n as int);
        }
        return common_bytes(s, i, s, p - h.len(), n);
    }
    // The run may leave the history and go on in the block.
    let in_hist = h.len() - p;
    let head = if n < in_hist {
        n
    } else {
        in_hist
    };
    let matched = common_bytes(s, i, h, p, head);
    proof {
        lemma_common_local(s@, i as int, h@, p as int, w, p as int, head as int);
    }
    if matched < head {
        proof {
            lemma_common_stops(s@, i as int, w, p as int, head as int, n as int);
        }
        return matched;
    }
    proof {
        lemma_common_bounds(s@, i as int, w, p as int, head as int);
        lemma_common_reaches(s@, i as int, w, p as int, n as int, head as int);
        lemma_common_local(s@, i + head, s@, 0, w, p + head, n - head);
    }
    matched + common_bytes(s, i + matched, s, 0, n - matched)
}

/// An attached dictionary.
pub struct Dictionary<'a> {
    pub table: &'a Table,
    pub offset: u32,
    pub hist: &'a [u8],
}

/// What the search for matches works under.
pub struct Search<'a> {
    pub hist: &'a [u8],
    pub start: u32,
    pub apart: bool,
    pub attached: Option<Dictionary<'a>>,
    pub tt: TableType,
    pub little: bool,
    pub accel: u32,
    pub room: usize,
    pub limited: bool,
    pub fill: bool,
}

/// A match: where it starts, how far back it refers, and whether it starts in
/// a history held apart.
#[derive(Clone, Copy)]
pub struct Match {
    pub ip: usize,
    pub off: usize,
    pub far: bool,
}

impl View for Match {
    type V = Hit;

    open spec fn view(&self) -> Hit {
        Hit { ip: self.ip as int, off: self.off as int, far: self.far }
    }
}

impl<'a> Search<'a> {
    pub open spec fn env(&self, src: Seq<u8>) -> Env {
        Env {
            src,
            hist: self.hist@,
            start: self.start,
            apart: self.apart,
            attached: match self.attached {
                Some(d) => Some(Attached { cells: d.table@, offset: d.offset, hist: d.hist@ }),
                None => None,
            },
            tt: self.tt,
            little: self.little,
            accel: self.accel as int,
            room: self.room as int,
            limited: self.limited,
            fill: self.fill,
        }
    }

    /// Whether indices, tables and histories fit together for a block of
    /// `len` bytes.
    pub open spec fn wf(&self, len: int) -> bool {
        &&& self.start + len <= u32::MAX
        &&& len <= 0x7E00_0000
        &&& self.hist@.len() <= self.start
        &&& 1 <= self.accel <= 65537
        &&& self.tt == TableType::U16 ==> self.hist@.len() == 0 && len < 0x1_000B
        &&& self.attached matches Some(d) ==> {
            &&& self.apart
            &&& self.tt == TableType::U32
            &&& self.hist@.len() == 0
            &&& d.table@.wf()
            &&& d.hist@.len() <= self.start
        }
    }

    /// The indices for the hash `h`.
    fn lookup(&self, table: &Table, h: u32) -> (r: (u32, bool))
        requires
            h < entries(self.tt),
            table@.wf(),
            self.tt == TableType::U16 ==> table@.tt == TableType::U16,
            self.attached matches Some(d) ==> d.table@.wf() && self.tt == TableType::U32,
        ensures
            forall|src: Seq<u8>|
                (r.0 as int, r.1) == #[trigger] self.env(src).lookup(table@, h as int),
    {
        let mi = table.get(h);
        let far = self.apart && mi < self.start;
        match &self.attached {
            Some(d) => if far {
                let mj = d.table.get(h).wrapping_add(self.start.wrapping_sub(d.offset));
                (mj, far)
            } else {
                (mi, far)
            },
            None => (mi, far),
        }
    }

    /// The history that a match may start in.
    fn behind(&self, far: bool) -> (h: &[u8])
        ensures
            forall|src: Seq<u8>| h@ == #[trigger] self.env(src).behind(far),
    {
        match &self.attached {
            Some(d) => if far {
                d.hist
            } else {
                self.hist
            },
            None => self.hist,
        }
    }

    /// Whether the four bytes at index `mi` match those at `ip`.
    fn acceptable(&self, s: &[u8], mi: u32, far: bool, ip: usize) -> (b: bool)
        requires
            self.wf(s@.len() as int),
            ip + 4 <= s.len(),
        ensures
            b == self.env(s@).acceptable(mi as int, far, ip as int),
    {
        reveal(Env::acceptable);
        let h = self.behind(far);
        let ghost env = self.env(s@);
        assert(h@ == env.behind(far));
        if mi < self.start && (self.start - mi) as usize > h.len() {
            return false;
        }
        if mi as u64 >= ip as u64 + self.start as u64 {
            return false;
        }
        if self.tt == TableType::U32 && (mi as u64) + (LZ4_DISTANCE_MAX as u64) < (ip as u64) + (
        self.start as u64) {
            return false;
        }
        let ghost w = env.window(far);
        let ghost p = mi - self.start + h@.len();
        if mi >= self.start {
            let at = (mi - self.start) as usize;
            let r = s[at] == s[ip] && s[at + 1] == s[ip + 1] && s[at + 2] == s[ip + 2] && s[at + 3]
                == s[ip + 3];
            proof {
                lemma_quad(w, p, s@, ip as int);
                assert(w[p] == s@[at as int] && w[p + 1] == s@[at + 1] && w[p + 2] == s@[at + 2]
                    && w[p + 3] == s@[at + 3]);
            }
            r
        } else {
            if self.start - mi < 4 {
                return false;
            }
            let at = h.len() - (self.start - mi) as usize;
            let r = h[at] == s[ip] && h[at + 1] == s[ip + 1] && h[at + 2] == s[ip + 2] && h[at + 3]
                == s[ip + 3];
            proof {
                lemma_quad(w, p, s@, ip as int);
            }
            r
        }
    }

    /// The match at `ip`, if the tables know one.
    pub fn hit(&self, s: &[u8], table: &Table, h: u32, ip: usize) -> (r: Option<Match>)
        requires
            self.wf(s@.len() as int),
            ip + MFLIMIT <= s.len(),
            h == self.env(s@).hash(ip as int),
            h < entries(self.tt),
            table@.wf(),
            self.tt == TableType::U16 ==> table@.tt == TableType::U16,
        ensures
            match r {
                Some(m) => self.env(s@).hit(table@, ip as int) == Some(m@) && m.ip == ip
                    && self.fits(s@, m),
                None => self.env(s@).hit(table@, ip as int) is None,
            },
    {
        reveal(Env::hit);
        let ghost env = self.env(s@);
        let (mi, far) = self.lookup(table, h);
        assert((mi as int, far) == env.lookup(table@, h as int));
        if self.acceptable(s, mi, far, ip) {
            proof {
                reveal(Env::acceptable);
                let hlen = env.behind(far).len();
                let w = env.window(far);
                let p = mi - self.start + hlen;
                lemma_quad(w, p, s@, ip as int);
            }
            let off = ip + self.start as usize - mi as usize;
            Some(Match { ip, off, far })
        } else {
            None
        }
    }

    /// The first match at or after `ip`, trying positions farther and farther
    /// apart.
    pub fn search(&self, s: &[u8], table: &mut Table, ip: usize) -> (r: Option<Match>)
        requires
            self.wf(s@.len() as int),
            1 <= ip,
            ip + 11 <= s.len(),
            old(table)@.wf(),
            self.tt == TableType::U16 ==> old(table)@.tt == TableType::U16,
        ensures
            final(table)@.wf(),
            final(table)@.tt == old(table)@.tt,
            ({
                let (m, cells) = self.env(s@).search(
                    old(table)@,
                    ip as int,
                    1,
                    64 * self.accel,
                );
                &&& final(table)@ == cells
                &&& match r {
                    Some(x) => m == Some(x@),
                    None => m is None,
                }
            }),
            r matches Some(x) ==> self.fits(s@, x) && ip <= x.ip && x.ip + MFLIMIT <= s@.len(),
    {
        let ghost env = self.env(s@);
        let ghost cells0 = table@;
        let limit = s.len() - MFLIMIT + 1;
        let mut forward_ip = ip;
        let mut step: usize = 1;
        let mut search_match_nb: u32 = self.accel * 64;
        let mut forward_h = hash_position(s, ip, self.tt, self.little);
        loop
            invariant
                self.wf(s@.len() as int),
                env == self.env(s@),
                limit == s.len() - 11,
                1 <= ip <= forward_ip <= limit,
                table@.wf(),
                table@.tt == old(table)@.tt,
                cells0 == old(table)@,
                self.tt == TableType::U16 ==> table@.tt == TableType::U16,
                1 <= step <= search_match_nb,
                64 <= search_match_nb <= self.accel * 64 + forward_ip,
                forward_h == env.hash(forward_ip as int),
                forward_h < entries(self.tt),
                env.search(cells0, ip as int, 1, 64 * self.accel) == env.search(
                    table@,
                    forward_ip as int,
                    step as int,
                    search_match_nb as int,
                ),
            decreases limit - forward_ip,
        {
            let at = forward_ip;
            if step > limit - forward_ip {
                return None;
            }
            let h = forward_h;
            let r = if at + MFLIMIT <= s.len() {
                self.hit(s, table, h, at)
            } else {
                None
            };
            assert(at + MFLIMIT <= s@.len());
            let ghost c1 = table@;
            table.put(h, (at as u64 + self.start as u64) as u32);
            assert(table@ == env.enter(c1, at as int));
            match r {
                Some(m) => {
                    return Some(m);
                },
                None => {},
            }
            forward_ip = forward_ip + step;
            step = (search_match_nb / 64) as usize;
            search_match_nb = search_match_nb + 1;
            forward_h = hash_position(s, forward_ip, self.tt, self.little);
        }
    }

    /// How far a match can be extended backwards, down to `anchor`.
    pub fn back(&self, s: &[u8], m: Match, anchor: usize) -> (k: usize)
        requires
            self.wf(s@.len() as int),
            self.fits(s@, m),
            anchor <= m.ip,
        ensures
            k == self.env(s@).back(m@, anchor as int),
            k <= m.ip - anchor,
            k + m.off <= m.ip + self.env(s@).behind(m.far).len(),
            forall|j: int|
                -k <= j < 4 ==> #[trigger] s@[m.ip + j] == self.env(s@).window(m.far)[m.ip
                    + self.env(s@).behind(m.far).len() - m.off + j],
    {
        let ghost env = self.env(s@);
        let h = self.behind(m.far);
        assert(h@ == env.behind(m.far));
        let ghost w = env.window(m.far);
        let ghost p0 = m.ip + h@.len() - m.off;
        // How far back the window reaches from the match.
        let reach = if self.apart && !m.far {
            if m.off > m.ip {
                0
            } else {
                m.ip - m.off
            }
        } else if m.off > m.ip {
            h.len() - (m.off - m.ip)
        } else {
            h.len() + (m.ip - m.off)
        };
        let ghost low = if self.apart && !m.far {
            h@.len() as int
        } else {
            0
        };
        let mut k: usize = 0;
        loop
            invariant
                env == self.env(s@),
                h@ == env.behind(m.far),
                w == h@ + s@,
                w == env.window(m.far),
                m.ip + 4 <= s.len(),
                anchor <= m.ip,
                1 <= m.off <= m.ip + h@.len(),
                k <= m.ip - anchor,
                p0 == m.ip + h@.len() - m.off,
                k <= p0,
                low == (if self.apart && !m.far {
                    h@.len() as int
                } else {
                    0
                }),
                reach == p0 - low || (reach == 0 && p0 < low),
                env.back(m@, anchor as int) == k + env.back(
                    (Hit { ip: m.ip - k, off: m.off as int, far: m.far }),
                    anchor as int,
                ),
                forall|j: int| -k <= j < 4 ==> #[trigger] s@[m.ip + j] == w[p0 + j],
            decreases m.ip - k,
        {
            if k >= m.ip - anchor || k >= reach {
                return k;
            }
            let at = m.ip - k;
            let b = if m.off > at - 1 {
                h[h.len() - (m.off - (at - 1))]
            } else {
                s[at - 1 - m.off]
            };
            assert(b == w[p0 - k - 1]);
            if s[at - 1] != b {
                return k;
            }
            k = k + 1;
            assert(s@[m.ip - k] == w[p0 - k]);
        }
    }

    /// The length code of a match.
    pub fn match_code(&self, s: &[u8], m: Match) -> (mc: usize)
        requires
            self.wf(s@.len() as int),
            m.ip + MFLIMIT <= s.len(),
            1 <= m.off <= m.ip + self.env(s@).behind(m.far).len(),
        ensures
            mc == self.env(s@).match_code(m@),
            m.ip + MINMATCH + mc + LASTLITERALS <= s@.len(),
    {
        let h = self.behind(m.far);
        assert(h@ == self.env(s@).behind(m.far));
        if self.attached.is_some() && m.far && m.off <= m.ip {
            return 0;
        }
        let at = m.ip + MINMATCH;
        let p = if m.off > at {
            h.len() - (m.off - at)
        } else {
            h.len() + (at - m.off)
        };
        count_window(h, s, at, p, s.len() - LASTLITERALS - at)
    }

    /// Takes the positions from `from` to `to` out of the table again.
    pub fn forget(&self, s: &[u8], table: &mut Table, from: usize, to: usize)
        requires
            old(table)@.wf(),
            self.tt == TableType::U16 ==> old(table)@.tt == TableType::U16,
            to < s.len(),
        ensures
            final(table)@.wf(),
            final(table)@.tt == old(table)@.tt,
            final(table)@ == self.env(s@).forget(old(table)@, from as int, to as int),
    {
        let ghost env = self.env(s@);
        let ghost cells0 = table@;
        let mut position = from;
        while position <= to
            invariant
                table@.wf(),
                table@.tt == old(table)@.tt,
                self.tt == TableType::U16 ==> table@.tt == TableType::U16,
                to < s.len(),
                env == self.env(s@),
                env.forget(cells0, from as int, to as int) == env.forget(
                    table@,
                    position as int,
                    to as int,
                ),
            decreases to + 1 - position,
        {
            if s.len() >= 8 && position <= s.len() - 8 {
                let h = hash_position(s, position, self.tt, self.little);
                table.put(h, 0);
            }
            position = position + 1;
        }
    }

    /// Whether a match stands where it says: its first four bytes equal those
    /// it refers to, which are there.
    pub open spec fn fits(&self, src: Seq<u8>, m: Match) -> bool {
        let h = self.env(src).behind(m.far);
        let w = self.env(src).window(m.far);
        &&& 1 <= m.off <= LZ4_DISTANCE_MAX
        &&& m.off <= m.ip + h.len()
        &&& m.ip + 4 <= src.len()
        &&& forall|k: int|
            0 <= k < 4 ==> #[trigger] src[m.ip + k] == w[m.ip + h.len() - m.off + k]
    }
}

proof fn lemma_quad(w: Seq<u8>, p: int, s: Seq<u8>, ip: int)
    requires
        0 <= p <= w.len() - 4,
        0 <= ip <= s.len() - 4,
    ensures
        (w.subrange(p, p + 4) == s.subrange(ip, ip + 4)) == (w[p] == s[ip] && w[p + 1] == s[ip + 1]
            && w[p + 2] == s[ip + 2] && w[p + 3] == s[ip + 3]),
        w.subrange(p, p + 4) == s.subrange(ip, ip + 4) ==> forall|k: int|
            0 <= k < 4 ==> #[trigger] s[ip + k] == w[p + k],
{
    let a = w.subrange(p, p + 4);
    let b = s.subrange(ip, ip + 4);
    if w[p] == s[ip] && w[p + 1] == s[ip + 1] && w[p + 2] == s[ip + 2] && w[p + 3] == s[ip + 3] {
        assert(a =~= b);
    }
    if a == b {
        assert(a[0] == b[0] && a[1] == b[1] && a[2] == b[2] && a[3] == b[3]);
    }
}

} // verus!
