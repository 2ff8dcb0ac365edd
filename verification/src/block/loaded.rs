//! What a table holds once a dictionary is loaded.
use vstd::prelude::*;
use super::stream::{dict_cells, enter_missing, enter_thirds, reachable, WINDOW};
use super::table::{entries, hash_at, word32, word64, Cells, TableType};

verus! {

/// A hash is the number of an entry.
proof fn lemma_hash_small(d: Seq<u8>, p: int, little: bool)
    ensures
        hash_at(d, p, TableType::U32, little) < entries(TableType::U32),
{
    reveal(hash_at);
    if usize::BITS == 64 {
        let w = word64(d, p, little);
        let x = if little {
            (w << 24u64).wrapping_mul(889523592379u64)
        } else {
            (w >> 24u64).wrapping_mul(11400714785074694791u64)
        };
        assert(x >> 52u64 < 4096) by (bit_vector);
    } else {
        let x = word32(d, p, little).wrapping_mul(2654435761u32);
        assert(x >> 20u32 < 4096) by (bit_vector);
    }
}

/// Whether each entry of a table is zero, or the index of a position of the
/// dictionary `d` that hashes to it; the first byte of `d` has the index `first`.
pub open spec fn all_within(cells: Cells, d: Seq<u8>, first: int, little: bool) -> bool {
    &&& cells.tt == TableType::U32
    &&& cells.wf()
    &&& forall|h: int|
        0 <= h < cells.at.len() ==> (#[trigger] cells.at[h] == 0 || {
            &&& first <= cells.at[h]
            &&& cells.at[h] - first + 8 <= d.len()
            &&& hash_at(d, cells.at[h] - first, TableType::U32, little) == h
        })
}

/// Entering positions of the dictionary keeps entries within it.
proof fn lemma_thirds_within(cells: Cells, d: Seq<u8>, p: int, first: int, little: bool)
    requires
        all_within(cells, d, first, little),
        0 <= p,
        0 <= first,
    ensures
        all_within(enter_thirds(cells, d, p, first + p, little), d, first, little),
    decreases d.len() - p,
{
    if p + 8 <= d.len() {
        lemma_hash_small(d, p, little);
        lemma_thirds_within(
            cells.put(hash_at(d, p, TableType::U32, little) as int, first + p),
            d,
            p + 3,
            first,
            little,
        );
    }
}

/// Entering what is missing keeps entries within the dictionary, and changes
/// none that are taken.
proof fn lemma_missing_within(cells: Cells, d: Seq<u8>, p: int, first: int, little: bool)
    requires
        all_within(cells, d, first, little),
        0 <= p,
        0 <= first,
    ensures
        ({
            let after = enter_missing(cells, d, p, first + p, 0, little);
            &&& all_within(after, d, first, little)
            &&& forall|h: int|
                0 <= h < cells.at.len() && cells.at[h] != 0 ==> #[trigger] after.at[h] == cells.at[h]
        }),
    decreases d.len() - p,
{
    if p + 8 <= d.len() {
        let h = hash_at(d, p, TableType::U32, little) as int;
        lemma_hash_small(d, p, little);
        let next = if cells.at[h] <= 0 {
            cells.put(h, first + p)
        } else {
            cells
        };
        lemma_missing_within(next, d, p + 1, first, little);
        let after = enter_missing(cells, d, p, first + p, 0, little);
        assert forall|i: int| 0 <= i < cells.at.len() && cells.at[i] != 0 implies #[trigger] after.at[i]
            == cells.at[i] by {
            assert(next.at[i] == cells.at[i]);
        }
    }
}

/// Once a dictionary is loaded, every entry of the table that is taken is the
/// index of a position of the dictionary that hashes to it. Loading it slowly
/// fills entries that loading it otherwise leaves empty, and changes no others.
pub proof fn law_loaded_entries(dict: Seq<u8>, little: bool)
    ensures
        ({
            let d = reachable(dict);
            let first = WINDOW - d.len();
            let quick = dict_cells(dict, false, little);
            let slow = dict_cells(dict, true, little);
            &&& all_within(quick, d, first, little)
            &&& all_within(slow, d, first, little)
            &&& forall|h: int|
                0 <= h < quick.at.len() && quick.at[h] != 0 ==> #[trigger] slow.at[h] == quick.at[h]
        }),
{
    let d = reachable(dict);
    let first = WINDOW - d.len();
    let zero = Cells::zero(TableType::U32);
    assert(all_within(zero, d, first, little));
    lemma_thirds_within(zero, d, 0, first, little);
    lemma_missing_within(enter_thirds(zero, d, 0, first, little), d, 0, first, little);
}

/// Every third position is remembered, unless a later one with its hash is.
proof fn lemma_thirds_remember(cells: Cells, d: Seq<u8>, p: int, first: int, little: bool)
    requires
        cells.tt == TableType::U32,
        cells.wf(),
        0 <= p,
        0 <= first,
    ensures
        ({
            let after = enter_thirds(cells, d, p, first + p, little);
            &&& forall|h: int|
                0 <= h < cells.at.len() ==> #[trigger] after.at[h] == cells.at[h] || after.at[h]
                    >= first + p
            &&& forall|q: int|
                p <= q && (q - p) % 3 == 0 && q + 8 <= d.len() ==> after.at[#[trigger] hash_at(
                    d,
                    q,
                    TableType::U32,
                    little,
                ) as int] >= first + q
        }),
    decreases d.len() - p,
{
    if p + 8 <= d.len() {
        let h0 = hash_at(d, p, TableType::U32, little) as int;
        lemma_hash_small(d, p, little);
        let next = cells.put(h0, first + p);
        let after = enter_thirds(cells, d, p, first + p, little);
        lemma_thirds_remember(next, d, p + 3, first, little);
        assert forall|h: int| 0 <= h < cells.at.len() implies #[trigger] after.at[h] == cells.at[h]
            || after.at[h] >= first + p by {
            assert(after.at[h] == next.at[h] || after.at[h] >= first + p + 3);
        }
        assert forall|q: int|
            p <= q && (q - p) % 3 == 0 && q + 8 <= d.len() implies after.at[#[trigger] hash_at(
            d,
            q,
            TableType::U32,
            little,
        ) as int] >= first + q by {
            if q == p {
                assert(after.at[h0] == next.at[h0] || after.at[h0] >= first + p + 3);
            } else {
                assert(q >= p + 3 && (q - (p + 3)) % 3 == 0);
            }
        }
    }
}

/// Loading slowly, every position finds an entry.
proof fn lemma_missing_remember(cells: Cells, d: Seq<u8>, p: int, first: int, little: bool)
    requires
        all_within(cells, d, first, little),
        0 <= p,
        0 <= first,
    ensures
        forall|q: int|
            p <= q && q + 8 <= d.len() && first + q > 0 ==> enter_missing(
                cells,
                d,
                p,
                first + p,
                0,
                little,
            ).at[#[trigger] hash_at(d, q, TableType::U32, little) as int] > 0,
    decreases d.len() - p,
{
    if p + 8 <= d.len() {
        let h0 = hash_at(d, p, TableType::U32, little) as int;
        lemma_hash_small(d, p, little);
        let next = if cells.at[h0] <= 0 {
            cells.put(h0, first + p)
        } else {
            cells
        };
        lemma_missing_within(next, d, p + 1, first, little);
        lemma_missing_remember(next, d, p + 1, first, little);
        let after = enter_missing(cells, d, p, first + p, 0, little);
        assert forall|q: int| p <= q && q + 8 <= d.len() && first + q > 0 implies after.at[
        #[trigger] hash_at(d, q, TableType::U32, little) as int] > 0 by {
            if q == p {
                assert(next.at[h0] != 0);
                assert(after.at[h0] == next.at[h0]);
            }
        }
    }
}

/// A dictionary that is loaded is remembered: every third position of what
/// matches can reach of it, unless a later one with the same hash is; and where
/// it is loaded slowly, every position finds an entry with its hash.
pub proof fn law_loaded_remembers(dict: Seq<u8>, little: bool, p: int)
    requires
        dict.len() >= 8,
        0 <= p,
        p + 8 <= reachable(dict).len(),
    ensures
        ({
            let d = reachable(dict);
            let index = WINDOW - d.len() + p;
            let h = hash_at(d, p, TableType::U32, little) as int;
            &&& p % 3 == 0 ==> dict_cells(dict, false, little).at[h] >= index
            &&& index > 0 ==> dict_cells(dict, true, little).at[h] > 0
        }),
{
    let d = reachable(dict);
    let first = WINDOW - d.len();
    let zero = Cells::zero(TableType::U32);
    assert(all_within(zero, d, first, little));
    lemma_thirds_remember(zero, d, 0, first, little);
    lemma_thirds_within(zero, d, 0, first, little);
    lemma_missing_remember(enter_thirds(zero, d, 0, first, little), d, 0, first, little);
    assert((p - 0) % 3 == p % 3);
}

} // verus!
