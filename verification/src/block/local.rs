//! The parse reads the block from its position on, and no farther back than a
//! match reaches: earlier bytes may be gone.
use vstd::prelude::*;
use crate::format::{Sq, LASTLITERALS, LZ4_DISTANCE_MAX, MFLIMIT, MINMATCH};
use super::parse::{common, Env, Hit};
use super::table::{hash_at, Cells, TableType};

verus! {

/// Whether two blocks agree from `lo` on.
pub open spec fn agree_from(a: Seq<u8>, b: Seq<u8>, lo: int) -> bool {
    &&& a.len() == b.len()
    &&& forall|i: int| lo <= i && 0 <= i < a.len() ==> #[trigger] a[i] == b[i]
}

/// Whether `b` still holds what a parse of `e` that has come to `anchor` reads
/// of its block.
pub open spec fn still_holds(e: Env, b: Seq<u8>, lo: int, anchor: int) -> bool {
    &&& agree_from(e.src, b, lo)
    &&& lo <= anchor - LZ4_DISTANCE_MAX
    &&& e.tt == TableType::U16 ==> lo <= 0
    &&& 0 <= anchor
}

proof fn lemma_hash_local(e: Env, b: Seq<u8>, lo: int, at: int)
    requires
        agree_from(e.src, b, lo),
        lo <= at,
        0 <= at,
        at + 8 <= e.len(),
    ensures
        (Env { src: b, ..e }).hash(at) == e.hash(at),
{
    reveal(hash_at);
    let a = e.src;
    assert(a[at] == b[at] && a[at + 1] == b[at + 1] && a[at + 2] == b[at + 2] && a[at + 3] == b[at
        + 3] && a[at + 4] == b[at + 4] && a[at + 5] == b[at + 5] && a[at + 6] == b[at + 6] && a[at
        + 7] == b[at + 7]);
}

proof fn lemma_acceptable_local(e: Env, b: Seq<u8>, lo: int, anchor: int, mi: int, far: bool, ip: int)
    requires
        still_holds(e, b, lo, anchor),
        anchor <= ip,
        ip + 4 <= e.len(),
    ensures
        (Env { src: b, ..e }).acceptable(mi, far, ip) == e.acceptable(mi, far, ip),
{
    reveal(Env::acceptable);
    let n = Env { src: b, ..e };
    let h = e.behind(far);
    let p = mi - e.start + h.len();
    if p >= 0 && mi < ip + e.start && (e.tt == TableType::U32 ==> mi + LZ4_DISTANCE_MAX >= ip
        + e.start) && (mi >= e.start || mi + 4 <= e.start) {
        assert(e.src.subrange(ip, ip + 4) =~= b.subrange(ip, ip + 4));
        assert(e.window(far).subrange(p, p + 4) =~= n.window(far).subrange(p, p + 4));
    }
}

proof fn lemma_hit_local(e: Env, b: Seq<u8>, lo: int, anchor: int, cells: Cells, ip: int)
    requires
        still_holds(e, b, lo, anchor),
        anchor <= ip,
        ip + MFLIMIT <= e.len(),
    ensures
        (Env { src: b, ..e }).hit(cells, ip) == e.hit(cells, ip),
{
    reveal(Env::hit);
    lemma_hash_local(e, b, lo, ip);
    let (mi, far) = e.lookup(cells, e.hash(ip));
    lemma_acceptable_local(e, b, lo, anchor, mi, far, ip);
}

/// A match starts where it was looked for, and is close enough to refer to.
proof fn lemma_hit(e: Env, cells: Cells, ip: int)
    ensures
        e.hit(cells, ip) matches Some(m) ==> {
            &&& m.ip == ip
            &&& 1 <= m.off <= ip + e.behind(m.far).len()
            &&& e.tt == TableType::U32 ==> m.off <= LZ4_DISTANCE_MAX
        },
{
    reveal(Env::hit);
    reveal(Env::acceptable);
}

proof fn lemma_search_local(e: Env, b: Seq<u8>, lo: int, anchor: int, cells: Cells, ip: int, step: int, nb: int)
    requires
        still_holds(e, b, lo, anchor),
        anchor <= ip,
        nb >= 0,
    ensures
        (Env { src: b, ..e }).search(cells, ip, step, nb) == e.search(cells, ip, step, nb),
        e.search(cells, ip, step, nb).0 matches Some(m) ==> {
            &&& ip <= m.ip
            &&& m.ip + MFLIMIT <= e.len()
            &&& 1 <= m.off <= m.ip + e.behind(m.far).len()
            &&& e.tt == TableType::U32 ==> m.off <= LZ4_DISTANCE_MAX
        },
    decreases e.len() - ip,
{
    if !(step < 1 || ip + step > e.len() - MFLIMIT + 1) {
        lemma_hash_local(e, b, lo, ip);
        lemma_hit_local(e, b, lo, anchor, cells, ip);
        lemma_hit(e, cells, ip);
        lemma_search_local(e, b, lo, anchor, e.enter(cells, ip), ip + step, nb / 64, nb + 1);
    }
}

/// A match that refers no farther back than a match may.
pub open spec fn near(e: Env, m: Hit) -> bool {
    &&& 1 <= m.off <= m.ip + e.behind(m.far).len()
    &&& e.tt == TableType::U32 ==> m.off <= LZ4_DISTANCE_MAX
}

proof fn lemma_back_local(e: Env, b: Seq<u8>, lo: int, m: Hit, anchor: int)
    requires
        still_holds(e, b, lo, anchor),
        anchor <= m.ip <= e.len(),
        near(e, m),
    ensures
        (Env { src: b, ..e }).back(m, anchor) == e.back(m, anchor),
        0 <= e.back(m, anchor) <= m.ip - anchor,
        m.off <= m.ip - e.back(m, anchor) + e.behind(m.far).len(),
    decreases m.ip - anchor,
{
    let n = Env { src: b, ..e };
    let h = e.behind(m.far);
    let p = m.ip + h.len() - m.off;
    let low = if e.apart && !m.far {
        h.len() as int
    } else {
        0
    };
    if m.ip > anchor && p > low {
        assert(e.src[m.ip - 1] == b[m.ip - 1]);
        assert(e.window(m.far)[p - 1] == n.window(m.far)[p - 1]) by {
            if p - 1 >= h.len() {
                assert(e.src[p - 1 - h.len()] == b[p - 1 - h.len()]);
            }
        }
        if e.src[m.ip - 1] == e.window(m.far)[p - 1] {
            lemma_back_local(e, b, lo, Hit { ip: m.ip - 1, off: m.off, far: m.far }, anchor);
        }
    }
}

/// Counting depends only on the bytes counted over.
proof fn lemma_common_same(a: Seq<u8>, i: int, b: Seq<u8>, j: int, c: Seq<u8>, d: Seq<u8>, n: int)
    requires
        forall|k: int| 0 <= k < n ==> #[trigger] a[i + k] == c[i + k],
        forall|k: int| 0 <= k < n ==> #[trigger] b[j + k] == d[j + k],
    ensures
        common(a, i, b, j, n) == common(c, i, d, j, n),
    decreases n,
{
    if n > 0 {
        assert(a[i + 0] == c[i + 0] && b[j + 0] == d[j + 0]);
        assert forall|k: int| 0 <= k < n - 1 implies #[trigger] a[i + 1 + k] == c[i + 1 + k] by {
            assert(a[i + (k + 1)] == c[i + (k + 1)]);
        }
        assert forall|k: int| 0 <= k < n - 1 implies #[trigger] b[j + 1 + k] == d[j + 1 + k] by {
            assert(b[j + (k + 1)] == d[j + (k + 1)]);
        }
        lemma_common_same(a, i + 1, b, j + 1, c, d, n - 1);
    }
}

proof fn lemma_match_code_local(e: Env, b: Seq<u8>, lo: int, anchor: int, m: Hit)
    requires
        still_holds(e, b, lo, anchor),
        anchor <= m.ip,
        m.ip + MFLIMIT <= e.len(),
        near(e, m),
    ensures
        (Env { src: b, ..e }).match_code(m) == e.match_code(m),
        0 <= e.match_code(m),
        m.ip + MINMATCH + e.match_code(m) + LASTLITERALS <= e.len(),
{
    let n = Env { src: b, ..e };
    let h = e.behind(m.far);
    let at = m.ip + MINMATCH;
    let j = at + h.len() - m.off;
    let w = e.window(m.far);
    let v = n.window(m.far);
    let most = e.len() - LASTLITERALS - at;
    super::search::lemma_common_bounds(e.src, at, w, j, most);
    assert forall|k: int| 0 <= k < most implies #[trigger] e.src[at + k] == b[at + k] by {}
    assert forall|k: int| 0 <= k < most implies #[trigger] w[j + k] == v[j + k] by {
        let i = j + k - h.len();
        if i >= 0 {
            assert(e.src[i] == b[i]);
        }
    }
    lemma_common_same(e.src, at, w, j, b, v, most);
}

proof fn lemma_forget_local(e: Env, b: Seq<u8>, lo: int, cells: Cells, from: int, to: int)
    requires
        agree_from(e.src, b, lo),
        lo <= from,
        0 <= from,
    ensures
        (Env { src: b, ..e }).forget(cells, from, to) == e.forget(cells, from, to),
    decreases to - from + 1,
{
    if from <= to {
        if from + 8 <= e.len() {
            lemma_hash_local(e, b, lo, from);
            lemma_forget_local(e, b, lo, cells.put(e.hash(from), 0), from + 1, to);
        } else {
            lemma_forget_local(e, b, lo, cells, from + 1, to);
        }
    }
}

/// The end of a block does not depend on bytes before it.
pub proof fn lemma_finish_local(e: Env, b: Seq<u8>, lo: int, cells: Cells, anchor: int, seqs: Seq<Sq>, limited: bool)
    requires
        agree_from(e.src, b, lo),
        lo <= anchor,
        0 <= anchor <= e.len(),
    ensures
        (Env { src: b, ..e }).finish(cells, anchor, seqs, limited) == e.finish(
            cells,
            anchor,
            seqs,
            limited,
        ),
{
    reveal(Env::finish);
    let n = Env { src: b, ..e };
    let op = crate::format::enc_seqs(seqs).len() as int;
    let run = e.len() - anchor;
    let r = e.room - op - 1;
    let k = r - (r + 241) / 256;
    assert(e.src.subrange(anchor, e.len()) =~= b.subrange(anchor, e.len()));
    if 0 <= k <= run {
        assert(e.src.subrange(anchor, anchor + k) =~= b.subrange(anchor, anchor + k));
    }
}

/// A search does not depend on bytes farther back than a match reaches.
pub proof fn lemma_seek_local(e: Env, b: Seq<u8>, lo: int, cells: Cells, ip: int, anchor: int, seqs: Seq<Sq>)
    requires
        still_holds(e, b, lo, anchor),
        anchor <= ip,
        e.accel >= 0,
    ensures
        (Env { src: b, ..e }).seek(cells, ip, anchor, seqs) == e.seek(cells, ip, anchor, seqs),
{
    reveal(Env::seek);
    lemma_search_local(e, b, lo, anchor, cells, ip, 1, 64 * e.accel);
    if let Some(m) = e.search(cells, ip, 1, 64 * e.accel).0 {
        lemma_back_local(e, b, lo, m, anchor);
    }
}

/// Nor does what is done at the end of a match.
pub proof fn lemma_land_local(e: Env, b: Seq<u8>, lo: int, cells: Cells, at: int, filled: int, seqs: Seq<Sq>)
    requires
        still_holds(e, b, lo, at - 2),
    ensures
        (Env { src: b, ..e }).land(cells, at, filled, seqs) == e.land(cells, at, filled, seqs),
{
    reveal(Env::land);
    if at < e.len() - MFLIMIT + 1 {
        lemma_hash_local(e, b, lo, at - 2);
        lemma_hash_local(e, b, lo, at);
        lemma_hit_local(e, b, lo, at - 2, e.enter(cells, at - 2), at);
    }
}

/// Nor does taking a match.
pub proof fn lemma_take_local(e: Env, b: Seq<u8>, lo: int, cells: Cells, m: Hit, anchor: int, filled: int, seqs: Seq<Sq>)
    requires
        still_holds(e, b, lo, anchor),
        anchor <= m.ip,
        m.ip + MFLIMIT <= e.len(),
        near(e, m),
        e.fill ==> e.limited,
    ensures
        (Env { src: b, ..e }).take(cells, m, anchor, filled, seqs) == e.take(
            cells,
            m,
            anchor,
            filled,
            seqs,
        ),
{
    reveal(Env::take);
    let n = Env { src: b, ..e };
    lemma_match_code_local(e, b, lo, anchor, m);
    let op = e.lit_end(m, anchor, seqs) + 2;
    let mc2 = e.fitting_code(m, op);
    let at = m.ip + mc2 + MINMATCH;
    assert(e.src.subrange(anchor, m.ip) =~= b.subrange(anchor, m.ip));
    if !(e.fill && e.lit_end(m, anchor, seqs) + 11 > e.room) && mc2 >= 0 {
        lemma_forget_local(e, b, lo, cells, at, filled);
        let s = Sq { lits: e.src.subrange(anchor, m.ip), off: m.off, mlen: mc2 + MINMATCH };
        let cells2 = if mc2 != e.match_code(m) {
            e.forget(cells, at, filled)
        } else {
            cells
        };
        lemma_land_local(e, b, lo, cells2, at, filled, seqs.push(s));
    }
}

} // verus!
